//! Capture-mode classification from the UserComment of OPPO and OnePlus photos.
//!
//! Most phones store `Oplus_<flags>` in the TIFF tag 0x9286; some files hold the same
//! value only as a raw string or as JSON `{ "oplustag": <flags> }`.

use crate::bytes::{
    append, find_byte, find_bytes, find_bytes_in_any_case, find_from, find_in_any_case, int16,
    int32, is_byte, matches_at, matches_in_any_case, not_space, occurs_at, occurs_in_any_case,
    read16, read32, skip_space, starts_with, until,
};
use crate::exif::{digits_end, digits_value, find_digits_end, is_digit, parse_digits};
use crate::isobmff_write::opt_text;
use crate::live_photo::EXIF_MARKER;
use crate::makernote::{TAG_EXIF, TAG_GPS, get_piece, lemma_encoded_len, piece};
use crate::seqs::{first_where, lemma_first_where_at, lemma_first_where_none};
use crate::text::{
    ascii_string, ascii_text, decimal, decimal_text, decode_lossy, join, lossy_text, opt_string,
    trim_text, trim_zeros, trimmed, without_zeros,
};
use crate::tiff::{tiff_little, tiff_mark_at, tiff_order};
use vstd::prelude::*;
use vstd::string::*;
use vstd::utf8::*;

verus! {

broadcast use vstd::std_specs::hash::group_hash_axioms;

/// A camera capture mode that a user knows.
#[derive(Debug, Clone, Copy, PartialEq, Eq, Structural)]
pub enum CaptureMode {
    Master,
    RicohGr,
    Professional,
    Portrait,
    Night,
    Panorama,
    TimeLapse,
    UltraHighResolution,
    IdPhoto,
    Sticker,
    EnhancedText,
    GroupPhoto,
    DoubleExposure,
    Beauty,
    Normal,
}

/// The key of a mode.
pub open spec fn mode_key(m: CaptureMode) -> Seq<char> {
    match m {
        CaptureMode::Master => "master"@,
        CaptureMode::RicohGr => "ricoh-gr"@,
        CaptureMode::Professional => "professional"@,
        CaptureMode::Portrait => "portrait"@,
        CaptureMode::Night => "night"@,
        CaptureMode::Panorama => "panorama"@,
        CaptureMode::TimeLapse => "time-lapse"@,
        CaptureMode::UltraHighResolution => "ultra-high-resolution"@,
        CaptureMode::IdPhoto => "id-photo"@,
        CaptureMode::Sticker => "sticker"@,
        CaptureMode::EnhancedText => "enhanced-text"@,
        CaptureMode::GroupPhoto => "group-photo"@,
        CaptureMode::DoubleExposure => "double-exposure"@,
        CaptureMode::Beauty => "beauty"@,
        CaptureMode::Normal => "normal"@,
    }
}

/// The folder of a mode.
pub open spec fn mode_folder(m: CaptureMode) -> Seq<char> {
    match m {
        CaptureMode::Master => "大师模式"@,
        CaptureMode::RicohGr => "RICOH GR"@,
        CaptureMode::Professional => "专业模式"@,
        CaptureMode::Portrait => "人像"@,
        CaptureMode::Night => "夜景"@,
        CaptureMode::Panorama => "全景"@,
        CaptureMode::TimeLapse => "延时摄影"@,
        CaptureMode::UltraHighResolution => "超清"@,
        CaptureMode::IdPhoto => "证件照"@,
        CaptureMode::Sticker => "贴纸"@,
        CaptureMode::EnhancedText => "超级文本"@,
        CaptureMode::GroupPhoto => "合影"@,
        CaptureMode::DoubleExposure => "双重曝光"@,
        CaptureMode::Beauty => "美颜"@,
        CaptureMode::Normal => "普通拍照"@,
    }
}

/// The flag of a mode.
pub open spec fn mode_bit(m: CaptureMode) -> u64 {
    match m {
        CaptureMode::Master => 0x1_0000_0000,
        CaptureMode::RicohGr => 0x8000_0000,
        CaptureMode::Professional => 0x100,
        CaptureMode::Portrait => 0x10,
        CaptureMode::Night => 0x800,
        CaptureMode::Panorama => 0x4,
        CaptureMode::TimeLapse => 0x8,
        CaptureMode::UltraHighResolution => 0x2000,
        CaptureMode::IdPhoto => 0x4000,
        CaptureMode::Sticker => 0x200,
        CaptureMode::EnhancedText => 0x1000,
        CaptureMode::GroupPhoto => 0x40_0000,
        CaptureMode::DoubleExposure => 0x8000,
        CaptureMode::Beauty => 0x2,
        CaptureMode::Normal => 0,
    }
}

impl CaptureMode {
    /// The key of the mode.
    pub fn key(self) -> (r: &'static str)
        ensures
            r@ == mode_key(self),
    {
        match self {
            CaptureMode::Master => "master",
            CaptureMode::RicohGr => "ricoh-gr",
            CaptureMode::Professional => "professional",
            CaptureMode::Portrait => "portrait",
            CaptureMode::Night => "night",
            CaptureMode::Panorama => "panorama",
            CaptureMode::TimeLapse => "time-lapse",
            CaptureMode::UltraHighResolution => "ultra-high-resolution",
            CaptureMode::IdPhoto => "id-photo",
            CaptureMode::Sticker => "sticker",
            CaptureMode::EnhancedText => "enhanced-text",
            CaptureMode::GroupPhoto => "group-photo",
            CaptureMode::DoubleExposure => "double-exposure",
            CaptureMode::Beauty => "beauty",
            CaptureMode::Normal => "normal",
        }
    }

    /// The folder of the mode.
    pub fn folder_name(self) -> (r: &'static str)
        ensures
            r@ == mode_folder(self),
    {
        match self {
            CaptureMode::Master => "大师模式",
            CaptureMode::RicohGr => "RICOH GR",
            CaptureMode::Professional => "专业模式",
            CaptureMode::Portrait => "人像",
            CaptureMode::Night => "夜景",
            CaptureMode::Panorama => "全景",
            CaptureMode::TimeLapse => "延时摄影",
            CaptureMode::UltraHighResolution => "超清",
            CaptureMode::IdPhoto => "证件照",
            CaptureMode::Sticker => "贴纸",
            CaptureMode::EnhancedText => "超级文本",
            CaptureMode::GroupPhoto => "合影",
            CaptureMode::DoubleExposure => "双重曝光",
            CaptureMode::Beauty => "美颜",
            CaptureMode::Normal => "普通拍照",
        }
    }

    /// The flag of the mode.
    pub fn bit(self) -> (r: u64)
        ensures
            r == mode_bit(self),
    {
        match self {
            CaptureMode::Master => 0x1_0000_0000,
            CaptureMode::RicohGr => 0x8000_0000,
            CaptureMode::Professional => 0x100,
            CaptureMode::Portrait => 0x10,
            CaptureMode::Night => 0x800,
            CaptureMode::Panorama => 0x4,
            CaptureMode::TimeLapse => 0x8,
            CaptureMode::UltraHighResolution => 0x2000,
            CaptureMode::IdPhoto => 0x4000,
            CaptureMode::Sticker => 0x200,
            CaptureMode::EnhancedText => 0x1000,
            CaptureMode::GroupPhoto => 0x40_0000,
            CaptureMode::DoubleExposure => 0x8000,
            CaptureMode::Beauty => 0x2,
            CaptureMode::Normal => 0,
        }
    }
}

/// The modes in the order in which their flags count.
pub open spec fn mode_priority() -> Seq<CaptureMode> {
    seq![
        CaptureMode::Master,
        CaptureMode::RicohGr,
        CaptureMode::Professional,
        CaptureMode::Portrait,
        CaptureMode::Night,
        CaptureMode::Panorama,
        CaptureMode::TimeLapse,
        CaptureMode::UltraHighResolution,
        CaptureMode::IdPhoto,
        CaptureMode::Sticker,
        CaptureMode::EnhancedText,
        CaptureMode::GroupPhoto,
        CaptureMode::DoubleExposure,
        CaptureMode::Beauty,
    ]
}

/// All flags with a known meaning, also those that stand for no mode: bits 0 to 32
/// and 62.
pub const KNOWN_FLAGS_MASK: u64 = 0x4000_0001_ffff_ffff;

/// How a classification went.
#[derive(Debug, Clone, Copy, PartialEq, Eq, Structural)]
pub enum ClassificationStatus {
    Categorized,
    MissingUserComment,
    MalformedUserComment,
    UnknownFlags,
    UnreadableImage,
}

/// The name of a status.
pub open spec fn status_text(s: ClassificationStatus) -> Seq<char> {
    match s {
        ClassificationStatus::Categorized => "categorized"@,
        ClassificationStatus::MissingUserComment => "missing-user-comment"@,
        ClassificationStatus::MalformedUserComment => "malformed-user-comment"@,
        ClassificationStatus::UnknownFlags => "unknown-flags"@,
        ClassificationStatus::UnreadableImage => "unreadable-image"@,
    }
}

impl ClassificationStatus {
    /// The name of the status.
    pub fn as_str(self) -> (r: &'static str)
        ensures
            r@ == status_text(self),
    {
        match self {
            ClassificationStatus::Categorized => "categorized",
            ClassificationStatus::MissingUserComment => "missing-user-comment",
            ClassificationStatus::MalformedUserComment => "malformed-user-comment",
            ClassificationStatus::UnknownFlags => "unknown-flags",
            ClassificationStatus::UnreadableImage => "unreadable-image",
        }
    }
}

/// What a photo was classified as.
#[derive(Debug, Clone, PartialEq, Eq)]
pub struct Classification {
    pub raw_user_comment: Option<String>,
    pub tag_flags: Option<u64>,
    pub unknown_flags: u64,
    pub mode: Option<CaptureMode>,
    pub status: ClassificationStatus,
}

/// What a classification says.
#[verifier::ext_equal]
pub struct ClassView {
    pub comment: Option<Seq<char>>,
    pub flags: Option<u64>,
    pub unknown: u64,
    pub mode: Option<CaptureMode>,
    pub status: ClassificationStatus,
}

impl View for Classification {
    type V = ClassView;

    open spec fn view(&self) -> ClassView {
        ClassView {
            comment: opt_string(self.raw_user_comment),
            flags: self.tag_flags,
            unknown: self.unknown_flags,
            mode: self.mode,
            status: self.status,
        }
    }
}

/// A classification without a comment.
pub open spec fn unclassified(status: ClassificationStatus) -> ClassView {
    ClassView { comment: None, flags: None, unknown: 0, mode: None, status }
}

impl Classification {
    /// The classification of a file that cannot be read.
    pub fn unreadable() -> (r: Self)
        ensures
            r@ == unclassified(ClassificationStatus::UnreadableImage),
    {
        Classification {
            raw_user_comment: None,
            tag_flags: None,
            unknown_flags: 0,
            mode: None,
            status: ClassificationStatus::UnreadableImage,
        }
    }

    fn missing() -> (r: Self)
        ensures
            r@ == unclassified(ClassificationStatus::MissingUserComment),
    {
        Classification {
            raw_user_comment: None,
            tag_flags: None,
            unknown_flags: 0,
            mode: None,
            status: ClassificationStatus::MissingUserComment,
        }
    }
}

// ---------------------------------------------------------------------------
// Flags
// ---------------------------------------------------------------------------

/// The letters `oplustag`.
pub const OPLUSTAG: [u8; 8] = [0x6f, 0x70, 0x6c, 0x75, 0x73, 0x74, 0x61, 0x67];

/// The prefix `Oplus_`.
pub const OPLUS_PREFIX: [u8; 6] = [0x4f, 0x70, 0x6c, 0x75, 0x73, 0x5f];

/// The prefix `Oppo_`.
pub const OPPO_PREFIX: [u8; 5] = [0x4f, 0x70, 0x70, 0x6f, 0x5f];

/// The value of the decimal digits at `p`, where there are some and it fits 64 bits.
pub open spec fn decimal_at(s: Seq<u8>, p: int) -> Option<u64> {
    let end = digits_end(s, p);
    let value = digits_value(s.subrange(p, end));
    if end > p && value <= u64::MAX {
        Some(value as u64)
    } else {
        None
    }
}

fn parse_decimal_prefix(data: &[u8], p: usize) -> (r: Option<u64>)
    requires
        p <= data.len(),
    ensures
        r == decimal_at(data@, p as int),
{
    let end: usize = find_digits_end(data, p);
    if end == p {
        return None;
    }
    parse_digits(data, p, end)
}

/// Being a colon.
pub open spec fn colon() -> spec_fn(u8) -> bool {
    is_byte(0x3a)
}

/// The number behind the first JSON key `oplustag`: behind a colon, white space and an
/// optional quote.
pub open spec fn json_flags(s: Seq<u8>) -> Option<u64> {
    match find_in_any_case(s, OPLUSTAG@, 0) {
        None => None,
        Some(key) => {
            let at = until(s, key + 8, colon());
            if at >= s.len() {
                None
            } else {
                let value = until(s, at + 1, not_space());
                if value < s.len() && s[value] == 0x22 {
                    decimal_at(s, value + 1)
                } else {
                    decimal_at(s, value)
                }
            }
        },
    }
}

fn parse_json_oplustag_bytes(data: &[u8]) -> (r: Option<u64>)
    ensures
        r == json_flags(data@),
{
    let total: usize = data.len();
    let key: usize = match find_bytes_in_any_case(data, OPLUSTAG.as_slice()) {
        None => {
            return None;
        },
        Some(k) => k,
    };
    let at: usize = find_byte(data, key + 8, 0x3a);
    if at >= total {
        return None;
    }
    let value: usize = skip_space(data, at + 1);
    if value < data.len() && data[value] == 0x22 {
        parse_decimal_prefix(data, value + 1)
    } else {
        parse_decimal_prefix(data, value)
    }
}

/// How long the tag prefix at `i` is; zero where there is none.
pub open spec fn prefix_len(s: Seq<u8>, i: int) -> int {
    if occurs_in_any_case(s, OPLUS_PREFIX@, i) {
        6
    } else if occurs_in_any_case(s, OPPO_PREFIX@, i) {
        5
    } else {
        0
    }
}

fn tag_prefix_len(data: &[u8], i: usize) -> (r: usize)
    ensures
        r == prefix_len(data@, i as int),
        r > 0 ==> i + r <= data@.len(),
{
    if matches_in_any_case(data, OPLUS_PREFIX.as_slice(), i) {
        6
    } else if matches_in_any_case(data, OPPO_PREFIX.as_slice(), i) {
        5
    } else {
        0
    }
}

/// The number behind the first tag prefix from `i` on.
pub open spec fn prefixed_flags(s: Seq<u8>, i: int) -> Option<u64>
    decreases s.len() - i,
{
    if i >= s.len() {
        None
    } else if prefix_len(s, i) > 0 {
        decimal_at(s, i + prefix_len(s, i))
    } else {
        prefixed_flags(s, i + 1)
    }
}

fn parse_prefixed_tag(data: &[u8]) -> (r: Option<u64>)
    ensures
        r == prefixed_flags(data@, 0),
{
    let mut i: usize = 0;
    while i < data.len()
        invariant
            i <= data@.len(),
            prefixed_flags(data@, 0) == prefixed_flags(data@, i as int),
        decreases data@.len() - i,
    {
        let n: usize = tag_prefix_len(data, i);
        if n > 0 {
            return parse_decimal_prefix(data, i + n);
        }
        i = i + 1;
    }
    None
}

/// The flags that a comment states.
pub open spec fn stated_flags(s: Seq<u8>) -> Option<u64> {
    match json_flags(s) {
        Some(f) => Some(f),
        None => prefixed_flags(s, 0),
    }
}

fn parse_tag_flags(raw: &str) -> (r: Option<u64>)
    ensures
        r == stated_flags(encode_utf8(raw@)),
{
    let bytes: &[u8] = raw.as_bytes();
    match parse_json_oplustag_bytes(bytes) {
        Some(f) => Some(f),
        None => parse_prefixed_tag(bytes),
    }
}

/// Having the flag of a mode.
pub open spec fn has_mode(flags: u64) -> spec_fn(CaptureMode) -> bool {
    |m: CaptureMode| flags & mode_bit(m) != 0
}

/// The first mode in order of priority whose flag is set.
pub open spec fn selected_mode(flags: u64) -> Option<CaptureMode> {
    first_where(mode_priority(), has_mode(flags))
}

fn select_mode(flags: u64) -> (r: Option<CaptureMode>)
    ensures
        r == selected_mode(flags),
{
    let order: Vec<CaptureMode> = vec![
        CaptureMode::Master,
        CaptureMode::RicohGr,
        CaptureMode::Professional,
        CaptureMode::Portrait,
        CaptureMode::Night,
        CaptureMode::Panorama,
        CaptureMode::TimeLapse,
        CaptureMode::UltraHighResolution,
        CaptureMode::IdPhoto,
        CaptureMode::Sticker,
        CaptureMode::EnhancedText,
        CaptureMode::GroupPhoto,
        CaptureMode::DoubleExposure,
        CaptureMode::Beauty,
    ];
    assert(order@ =~= mode_priority());
    let mut i: usize = 0;
    while i < order.len()
        invariant
            i <= order@.len(),
            order@ == mode_priority(),
            forall|j: int| 0 <= j < i ==> !has_mode(flags)(#[trigger] order@[j]),
        decreases order@.len() - i,
    {
        if flags & order[i].bit() != 0 {
            proof {
                lemma_first_where_at(order@, has_mode(flags), i as int);
            }
            return Some(order[i]);
        }
        i = i + 1;
    }
    proof {
        lemma_first_where_none(order@, has_mode(flags));
    }
    None
}

/// What a comment is classified as.
pub open spec fn classified(comment: Seq<char>) -> ClassView {
    match stated_flags(encode_utf8(comment)) {
        None => ClassView {
            comment: Some(comment),
            flags: None,
            unknown: 0,
            mode: None,
            status: ClassificationStatus::MalformedUserComment,
        },
        Some(flags) => {
            let unknown = flags & !KNOWN_FLAGS_MASK;
            match selected_mode(flags) {
                Some(m) => ClassView {
                    comment: Some(comment),
                    flags: Some(flags),
                    unknown,
                    mode: Some(m),
                    status: ClassificationStatus::Categorized,
                },
                None => ClassView {
                    comment: Some(comment),
                    flags: Some(flags),
                    unknown,
                    mode: if unknown != 0 {
                        None
                    } else {
                        Some(CaptureMode::Normal)
                    },
                    status: if unknown != 0 {
                        ClassificationStatus::UnknownFlags
                    } else {
                        ClassificationStatus::Categorized
                    },
                },
            }
        },
    }
}

/// What an optional comment is classified as: zero characters and white space around it
/// do not count, and an empty one is as good as none.
pub open spec fn classification(raw: Option<Seq<char>>) -> ClassView {
    match raw {
        None => unclassified(ClassificationStatus::MissingUserComment),
        Some(text) => {
            let comment = trim_text(trim_zeros(text));
            if comment.len() == 0 {
                unclassified(ClassificationStatus::MissingUserComment)
            } else {
                classified(comment)
            }
        },
    }
}

/// Classify a comment by the priority of modes and by unknown flags.
pub fn classify_user_comment(raw: Option<&str>) -> (r: Classification)
    ensures
        r@ == classification(opt_text(raw)),
{
    let text: &str = match raw {
        None => {
            return Classification::missing();
        },
        Some(t) => t,
    };
    let normalized: String = trimmed(without_zeros(text).as_str());
    proof {
        lemma_encoded_len(normalized@);
    }
    if normalized.as_str().as_bytes().len() == 0 {
        return Classification::missing();
    }
    let flags: u64 = match parse_tag_flags(normalized.as_str()) {
        None => {
            return Classification {
                raw_user_comment: Some(normalized),
                tag_flags: None,
                unknown_flags: 0,
                mode: None,
                status: ClassificationStatus::MalformedUserComment,
            };
        },
        Some(f) => f,
    };
    let unknown_flags: u64 = flags & !KNOWN_FLAGS_MASK;
    let mode: Option<CaptureMode> = select_mode(flags);
    if mode.is_none() && unknown_flags != 0 {
        return Classification {
            raw_user_comment: Some(normalized),
            tag_flags: Some(flags),
            unknown_flags,
            mode: None,
            status: ClassificationStatus::UnknownFlags,
        };
    }
    let chosen: CaptureMode = match mode {
        Some(m) => m,
        None => CaptureMode::Normal,
    };
    Classification {
        raw_user_comment: Some(normalized),
        tag_flags: Some(flags),
        unknown_flags,
        mode: Some(chosen),
        status: ClassificationStatus::Categorized,
    }
}

// ---------------------------------------------------------------------------
// Finding the comment
// ---------------------------------------------------------------------------

/// The code that marks a comment as ASCII.
pub const CODE_ASCII: [u8; 8] = [0x41, 0x53, 0x43, 0x49, 0x49, 0x00, 0x00, 0x00];

/// The code that marks a comment as Unicode.
pub const CODE_UNICODE: [u8; 8] = [0x55, 0x4e, 0x49, 0x43, 0x4f, 0x44, 0x45, 0x00];

/// The code that marks a comment as JIS.
pub const CODE_JIS: [u8; 8] = [0x4a, 0x49, 0x53, 0x00, 0x00, 0x00, 0x00, 0x00];

/// The text of a comment: without the character code, and without zero characters and
/// white space around it; none where nothing is left.
pub open spec fn comment_text(value: Seq<u8>) -> Option<Seq<char>> {
    let payload = if starts_with(value, CODE_ASCII@) || starts_with(value, CODE_UNICODE@)
        || starts_with(value, CODE_JIS@) {
        value.skip(8)
    } else {
        value
    };
    let text = trim_text(trim_zeros(lossy_text(payload)));
    if text.len() == 0 {
        None
    } else {
        Some(text)
    }
}

fn decode_user_comment(value: &[u8]) -> (r: Option<String>)
    ensures
        opt_string(r) == comment_text(value@),
{
    let from: usize = if matches_at(value, CODE_ASCII.as_slice(), 0) || matches_at(
        value,
        CODE_UNICODE.as_slice(),
        0,
    ) || matches_at(value, CODE_JIS.as_slice(), 0) {
        8
    } else {
        0
    };
    let payload: &[u8] = vstd::slice::slice_subrange(value, from, value.len());
    assert(payload@ =~= value@.skip(from as int));
    assert(value@.skip(0) =~= value@);
    let text: String = trimmed(without_zeros(decode_lossy(payload).as_str()).as_str());
    proof {
        lemma_encoded_len(text@);
    }
    if text.as_str().as_bytes().len() == 0 {
        None
    } else {
        Some(text)
    }
}

/// The value of a comment entry at `entry`: inline or at the offset that it names.
pub open spec fn comment_value(s: Seq<u8>, entry: int, little: bool) -> Option<Seq<u8>> {
    let count = int32(s, entry + 4, little);
    piece(
        s,
        if count <= 4 {
            entry + 8
        } else {
            int32(s, entry + 8, little)
        },
        count,
    )
}

/// Whether an entry at `entry` is a comment of a type that holds bytes.
pub open spec fn is_comment_entry(s: Seq<u8>, entry: int, little: bool) -> bool {
    let kind = int16(s, entry + 2, little);
    int16(s, entry, little) == 0x9286 && (kind == 1 || kind == 2 || kind == 7)
}

/// The first comment in the entries from number `i` on of the directory at `ifd`, and
/// the directories to look at next: those in `pending` and those that the entries
/// before the comment point at. `None` where a comment lies outside the data.
pub open spec fn comment_in_entries(
    s: Seq<u8>,
    ifd: int,
    i: int,
    count: int,
    little: bool,
    pending: Seq<u32>,
) -> Option<(Option<Seq<char>>, Seq<u32>)>
    decreases count - i,
{
    if i >= count {
        Some((None, pending))
    } else {
        let entry = ifd + 2 + 12 * i;
        let tag = int16(s, entry, little);
        let more = if tag == TAG_EXIF || tag == TAG_GPS {
            pending.push(int32(s, entry + 8, little) as u32)
        } else {
            pending
        };
        if is_comment_entry(s, entry, little) {
            match comment_value(s, entry, little) {
                None => None,
                Some(value) => match comment_text(value) {
                    Some(text) => Some((Some(text), more)),
                    None => comment_in_entries(s, ifd, i + 1, count, little, more),
                },
            }
        } else {
            comment_in_entries(s, ifd, i + 1, count, little, more)
        }
    }
}

/// The first comment in the directories of `pending`, the last one first, and in those
/// that they point at; each is looked at once. `budget` bounds how many directories
/// there can be.
pub open spec fn comment_in_directories(
    s: Seq<u8>,
    little: bool,
    pending: Seq<u32>,
    visited: Set<u32>,
    budget: nat,
) -> Option<Seq<char>>
    decreases budget, pending.len(),
{
    if pending.len() == 0 {
        None
    } else {
        let ifd = pending.last();
        let rest = pending.drop_last();
        if ifd == 0 || visited.contains(ifd) {
            comment_in_directories(s, little, rest, visited, budget)
        } else if ifd + 2 > s.len() {
            comment_in_directories(s, little, rest, visited.insert(ifd), budget)
        } else {
            let count = int16(s, ifd as int, little);
            if budget == 0 || count > 4096 || ifd + 2 + 12 * count > s.len() {
                None
            } else {
                match comment_in_entries(s, ifd as int, 0, count, little, rest) {
                    None => None,
                    Some((Some(text), _)) => Some(text),
                    Some((None, more)) => comment_in_directories(
                        s,
                        little,
                        more,
                        visited.insert(ifd),
                        (budget - 1) as nat,
                    ),
                }
            }
        }
    }
}

/// The comment of TIFF data.
pub open spec fn tiff_comment(s: Seq<u8>) -> Option<Seq<char>> {
    let little = tiff_little(s, 0);
    if s.len() < 8 || !tiff_mark_at(s, 0) || int16(s, 2, little) != 42 {
        None
    } else {
        comment_in_directories(
            s,
            little,
            seq![int32(s, 4, little) as u32],
            Set::empty(),
            s.len(),
        )
    }
}

fn find_comment_in_entries(tiff: &[u8], ifd: usize, count: usize, little: bool, pending: &mut Vec<u32>) -> (r: Option<
    Option<String>,
>)
    requires
        count <= 4096,
        ifd + 2 + 12 * count <= tiff.len(),
    ensures
        match r {
            None => comment_in_entries(
                tiff@,
                ifd as int,
                0,
                count as int,
                little,
                old(pending)@,
            ) is None,
            Some(t) => comment_in_entries(tiff@, ifd as int, 0, count as int, little, old(pending)@)
                == Some((opt_string(t), final(pending)@)),
        },
{
    let ghost all = comment_in_entries(tiff@, ifd as int, 0, count as int, little, pending@);
    let mut i: usize = 0;
    while i < count
        invariant
            i <= count <= 4096,
            ifd + 2 + 12 * count <= tiff.len(),
            all == comment_in_entries(tiff@, ifd as int, 0, count as int, little, old(pending)@),
            all == comment_in_entries(tiff@, ifd as int, i as int, count as int, little, pending@),
        decreases count - i,
    {
        let entry: usize = ifd + 2 + 12 * i;
        let tag: u16 = read16(tiff, entry, little);
        let kind: u16 = read16(tiff, entry + 2, little);
        let len: u32 = read32(tiff, entry + 4, little);
        let at: u32 = read32(tiff, entry + 8, little);
        if tag == TAG_EXIF || tag == TAG_GPS {
            pending.push(at);
        }
        if tag == 0x9286 && (kind == 1 || kind == 2 || kind == 7) {
            let start: usize = if len <= 4 {
                entry + 8
            } else {
                at as usize
            };
            match get_piece(tiff, start, len as usize) {
                None => {
                    return None;
                },
                Some(value) => {
                    match decode_user_comment(value) {
                        Some(text) => {
                            return Some(Some(text));
                        },
                        None => {},
                    }
                },
            }
        }
        i = i + 1;
    }
    Some(None)
}

fn extract_tiff_user_comment(tiff: &[u8]) -> (r: Option<String>)
    ensures
        opt_string(r) == tiff_comment(tiff@),
{
    if tiff.len() < 8 {
        return None;
    }
    let little: bool = match tiff_order(tiff, 0) {
        None => {
            return None;
        },
        Some(l) => l,
    };
    if read16(tiff, 2, little) != 42 {
        return None;
    }
    let mut pending: Vec<u32> = vec![read32(tiff, 4, little)];
    let mut visited: std::collections::HashSet<u32> = std::collections::HashSet::new();
    let mut budget: usize = tiff.len();
    let ghost all = tiff_comment(tiff@);
    assert(pending@ =~= seq![int32(tiff@, 4, little) as u32]);
    while pending.len() > 0
        invariant
            all == tiff_comment(tiff@),
            all == comment_in_directories(tiff@, little, pending@, visited@, budget as nat),
        decreases budget, pending@.len(),
    {
        let ghost before = pending@;
        let ifd: u32 = pending.pop().unwrap();
        assert(pending@ =~= before.drop_last());
        assert(ifd == before.last());
        if ifd == 0 || visited.contains(&ifd) {
            continue;
        }
        let total: usize = tiff.len();
        visited.insert(ifd);
        if total < 2 || ifd as u64 > (total - 2) as u64 {
            continue;
        }
        let count: usize = read16(tiff, ifd as usize, little) as usize;
        if budget == 0 || count > 4096 || 12 * count > total - 2 - ifd as usize {
            return None;
        }
        match find_comment_in_entries(tiff, ifd as usize, count, little, &mut pending) {
            None => {
                return None;
            },
            Some(Some(text)) => {
                return Some(text);
            },
            Some(None) => {},
        }
        budget = budget - 1;
    }
    None
}

/// The magic number of little-endian TIFF data.
pub const MAGIC_II: [u8; 4] = [0x49, 0x49, 0x2a, 0x00];

/// The magic number of big-endian TIFF data.
pub const MAGIC_MM: [u8; 4] = [0x4d, 0x4d, 0x00, 0x2a];

/// The comment behind the first Exif marker from `from` on that has one.
pub open spec fn marked_comment(s: Seq<u8>, from: int) -> Option<Seq<char>>
    decreases s.len() - from,
{
    match find_from(s, EXIF_MARKER@, from) {
        None => None,
        Some(p) => if p < from || p + 6 > s.len() {
            None
        } else {
            match tiff_comment(s.skip(p + 6)) {
                Some(text) => Some(text),
                None => marked_comment(s, p + 6),
            }
        },
    }
}

/// The comment in the first TIFF data from `i` on that begins with a magic number and
/// has one.
pub open spec fn magic_comment(s: Seq<u8>, i: int) -> Option<Seq<char>>
    decreases s.len() - i,
{
    if i >= s.len() {
        None
    } else if occurs_at(s, MAGIC_II@, i) || occurs_at(s, MAGIC_MM@, i) {
        match tiff_comment(s.skip(i)) {
            Some(text) => Some(text),
            None => magic_comment(s, i + 1),
        }
    } else {
        magic_comment(s, i + 1)
    }
}

/// The comment in TIFF data anywhere in a file: the file itself, data behind an Exif
/// marker, data with a magic number.
pub open spec fn embedded_comment(s: Seq<u8>) -> Option<Seq<char>> {
    let whole = if tiff_mark_at(s, 0) {
        tiff_comment(s)
    } else {
        None
    };
    match whole {
        Some(text) => Some(text),
        None => match marked_comment(s, 0) {
            Some(text) => Some(text),
            None => magic_comment(s, 0),
        },
    }
}

/// The first tag from `i` on that has digits, with its prefix in its usual form.
pub open spec fn raw_tag(s: Seq<u8>, i: int) -> Option<Seq<char>>
    decreases s.len() - i,
{
    if i >= s.len() {
        None
    } else {
        let from = i + prefix_len(s, i);
        let end = digits_end(s, from);
        if from > i && end > from {
            Some(
                ascii_text(
                    (if prefix_len(s, i) == 6 {
                        OPLUS_PREFIX@
                    } else {
                        OPPO_PREFIX@
                    }) + s.subrange(from, end),
                ),
            )
        } else {
            raw_tag(s, i + 1)
        }
    }
}

/// The comment of a file: from TIFF data, or a raw tag, or JSON in its usual form.
pub open spec fn user_comment(s: Seq<u8>) -> Option<Seq<char>> {
    match embedded_comment(s) {
        Some(text) => Some(text),
        None => match raw_tag(s, 0) {
            Some(text) => Some(text),
            None => match json_flags(s) {
                Some(flags) => Some(
                    "{\"oplustag\":\""@ + decimal_text(flags as int) + "\"}"@,
                ),
                None => None,
            },
        },
    }
}

fn find_marked_comment(data: &[u8]) -> (r: Option<String>)
    ensures
        opt_string(r) == marked_comment(data@, 0),
{
    let mut from: usize = 0;
    let total: usize = data.len();
    loop
        invariant
            total == data@.len(),
            from <= total,
            marked_comment(data@, 0) == marked_comment(data@, from as int),
        decreases total - from,
    {
        match find_bytes(data, EXIF_MARKER.as_slice(), from) {
            None => {
                return None;
            },
            Some(p) => {
                let tiff: &[u8] = vstd::slice::slice_subrange(data, p + 6, total);
                assert(tiff@ =~= data@.skip(p + 6));
                match extract_tiff_user_comment(tiff) {
                    Some(text) => {
                        return Some(text);
                    },
                    None => {},
                }
                from = p + 6;
            },
        }
    }
}

fn find_magic_comment(data: &[u8]) -> (r: Option<String>)
    ensures
        opt_string(r) == magic_comment(data@, 0),
{
    let mut i: usize = 0;
    while i < data.len()
        invariant
            i <= data@.len(),
            magic_comment(data@, 0) == magic_comment(data@, i as int),
        decreases data@.len() - i,
    {
        if matches_at(data, MAGIC_II.as_slice(), i) || matches_at(data, MAGIC_MM.as_slice(), i) {
            let tiff: &[u8] = vstd::slice::slice_subrange(data, i, data.len());
            assert(tiff@ =~= data@.skip(i as int));
            match extract_tiff_user_comment(tiff) {
                Some(text) => {
                    return Some(text);
                },
                None => {},
            }
        }
        i = i + 1;
    }
    None
}

fn find_prefixed_tag(data: &[u8]) -> (r: Option<String>)
    ensures
        opt_string(r) == raw_tag(data@, 0),
{
    let mut i: usize = 0;
    while i < data.len()
        invariant
            i <= data@.len(),
            raw_tag(data@, 0) == raw_tag(data@, i as int),
        decreases data@.len() - i,
    {
        let n: usize = tag_prefix_len(data, i);
        if n > 0 {
            let end: usize = find_digits_end(data, i + n);
            if end > i + n {
                let mut raw: Vec<u8> = Vec::new();
                if n == 6 {
                    append(&mut raw, OPLUS_PREFIX.as_slice());
                } else {
                    append(&mut raw, OPPO_PREFIX.as_slice());
                }
                let digits: &[u8] = vstd::slice::slice_subrange(data, i + n, end);
                append(&mut raw, digits);
                proof {
                    let prefix = if n == 6 {
                        OPLUS_PREFIX@
                    } else {
                        OPPO_PREFIX@
                    };
                    assert(raw@ =~= prefix + data@.subrange(i + n, end as int));
                    assert forall|k: int| 0 <= k < raw@.len() implies #[trigger] raw@[k] < 0x80 by {
                        if k >= n {
                            assert(is_digit(data@[i + k]));
                        }
                    }
                }
                return Some(ascii_string(raw.as_slice()));
            }
        }
        i = i + 1;
    }
    None
}

/// Find and decode the comment of a photo: TIFF tag 0x9286, or the known raw forms.
pub fn extract_user_comment(data: &[u8]) -> (r: Option<String>)
    ensures
        opt_string(r) == user_comment(data@),
{
    if tiff_order(data, 0).is_some() {
        match extract_tiff_user_comment(data) {
            Some(text) => {
                return Some(text);
            },
            None => {},
        }
    }
    match find_marked_comment(data) {
        Some(text) => {
            return Some(text);
        },
        None => {},
    }
    match find_magic_comment(data) {
        Some(text) => {
            return Some(text);
        },
        None => {},
    }
    match find_prefixed_tag(data) {
        Some(text) => {
            return Some(text);
        },
        None => {},
    }
    match parse_json_oplustag_bytes(data) {
        Some(flags) => Some(
            join(join("{\"oplustag\":\"", decimal(flags).as_str()).as_str(), "\"}"),
        ),
        None => None,
    }
}

/// Classify a photo.
pub fn classify_bytes(data: &[u8]) -> (r: Classification)
    ensures
        r@ == classification(user_comment(data@)),
{
    match extract_user_comment(data) {
        Some(text) => classify_user_comment(Some(text.as_str())),
        None => classify_user_comment(None),
    }
}

/// A photo counts as categorized exactly where a mode was found for it, and every photo
/// whose flags are all known is found one where its comment states flags.
pub proof fn categorized_means_mode(comment: Seq<char>)
    ensures
        classified(comment).status == ClassificationStatus::Categorized <==> classified(
            comment,
        ).mode is Some,
        classified(comment).flags is Some && classified(comment).unknown == 0 ==> classified(
            comment,
        ).mode is Some,
{
}

/// Of two modes whose flags are both set, the one that comes first in order of priority
/// is chosen.
pub proof fn earlier_mode_wins(flags: u64, i: int)
    requires
        0 <= i < mode_priority().len(),
        flags & mode_bit(mode_priority()[i]) != 0,
    ensures
        exists|j: int|
            0 <= j <= i && #[trigger] mode_priority()[j] == selected_mode(flags).unwrap()
                && selected_mode(flags) is Some,
    decreases i,
{
    let order = mode_priority();
    let p = has_mode(flags);
    if exists|j: int| 0 <= j < i && p(#[trigger] order[j]) {
        let j = choose|j: int| 0 <= j < i && p(#[trigger] order[j]);
        earlier_mode_wins(flags, j);
    } else {
        lemma_first_where_at(order, p, i);
        assert(order[i] == selected_mode(flags).unwrap());
    }
}

} // verus!
