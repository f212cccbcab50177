//! OPPO/QTI camera tails: finding them, reading their entries and deciding what
//! of them an output keeps.

pub use crate::lhdr::{extract_lhdr_from_bytes, ExtractedLhdr};
pub use crate::manifest::{parse_manifest, ManifestEntry};
use crate::bytes::{
    append, be32, copy_range, enc32_le, find_bytes, find_from, le32, lemma_find_from_some,
    lemma_mod_part, lemma_put32_low_bits, matches_at, not_space, occurs_at, opt_bytes, overwrite,
    overwritten, push32_ordered, read32, rfind, rfind_bytes, skip_space, starts_with, until,
};
use crate::exif::OppoCompat;
use crate::fourcc::{FREE, FTYP, MDAT, META, same_tag};
use crate::manifest::{ManifestView, manifest_of, name_places, parse_named_manifest, positions};
use crate::seqs::{
    first_where, flat, lemma_first_where_at, lemma_first_where_none, lemma_flat_take, views,
};
use crate::text::{decimal_ascii, decimal_bytes, same_text};
use vstd::prelude::*;
use vstd::string::*;
use vstd::utf8::*;

verus! {

// ---------------------------------------------------------------------------
// Types
// ---------------------------------------------------------------------------

/// Family classification from the LHDR metadata.
#[derive(Debug, Clone, Copy, PartialEq, Eq, Structural)]
pub enum Family {
    /// Early LHDR generation (x6)
    X6,
    /// Modern UHDR / LHDR v3+ (x7)
    X7,
}

impl Family {
    pub fn as_str(&self) -> (r: &'static str)
        ensures
            r@ == (match *self {
                Family::X6 => "x6"@,
                Family::X7 => "x7"@,
            }),
    {
        match self {
            Family::X6 => "x6",
            Family::X7 => "x7",
        }
    }
}

/// Policy controlling which OPPO camera-tail entries are copied to output.
#[derive(Debug, Clone, Copy, PartialEq, Eq, Structural)]
pub enum OppoCameraTail {
    Off,
    Watermark,
    Compact,
    Preserve,
    PreserveWithoutPortrait,
    PreserveWithoutPortraitOrPrivateHdr,
    PreserveWithoutPrivateUhdr,
    PreserveWithoutPrivateHdr,
    PreserveNoUhdr,
    PreserveNoHdr,
}

/// The policy that a number selects.
pub open spec fn tail_policy_of(value: u8) -> Option<OppoCameraTail> {
    if value == 0 {
        Some(OppoCameraTail::Off)
    } else if value == 1 {
        Some(OppoCameraTail::Watermark)
    } else if value == 2 {
        Some(OppoCameraTail::Compact)
    } else if value == 3 {
        Some(OppoCameraTail::Preserve)
    } else if value == 4 {
        Some(OppoCameraTail::PreserveWithoutPortrait)
    } else if value == 5 {
        Some(OppoCameraTail::PreserveWithoutPortraitOrPrivateHdr)
    } else if value == 6 {
        Some(OppoCameraTail::PreserveWithoutPrivateUhdr)
    } else if value == 7 {
        Some(OppoCameraTail::PreserveWithoutPrivateHdr)
    } else if value == 8 {
        Some(OppoCameraTail::PreserveNoUhdr)
    } else if value == 9 {
        Some(OppoCameraTail::PreserveNoHdr)
    } else {
        None
    }
}

/// The policy for output of a mode that names none: clean ISO removes private
/// HDR entries, OPPO-compatible output keeps the entire tail.
pub open spec fn default_tail_policy(compat: OppoCompat) -> OppoCameraTail {
    if compat != OppoCompat::Off {
        OppoCameraTail::Preserve
    } else {
        OppoCameraTail::PreserveWithoutPrivateHdr
    }
}

/// The policy that a number selects, or the default where it selects none.
pub open spec fn resolved_tail_policy(value: u8, compat: OppoCompat) -> OppoCameraTail {
    match tail_policy_of(value) {
        Some(policy) => policy,
        None => default_tail_policy(compat),
    }
}

impl OppoCameraTail {
    /// The number that asks for the default policy.
    pub const AUTOMATIC: u8 = 255;

    pub fn from_u8(value: u8) -> (r: Option<Self>)
        ensures
            r == tail_policy_of(value),
    {
        match value {
            0 => Some(OppoCameraTail::Off),
            1 => Some(OppoCameraTail::Watermark),
            2 => Some(OppoCameraTail::Compact),
            3 => Some(OppoCameraTail::Preserve),
            4 => Some(OppoCameraTail::PreserveWithoutPortrait),
            5 => Some(OppoCameraTail::PreserveWithoutPortraitOrPrivateHdr),
            6 => Some(OppoCameraTail::PreserveWithoutPrivateUhdr),
            7 => Some(OppoCameraTail::PreserveWithoutPrivateHdr),
            8 => Some(OppoCameraTail::PreserveNoUhdr),
            9 => Some(OppoCameraTail::PreserveNoHdr),
            _ => None,
        }
    }

    /// Preserve the old default: clean ISO removes private HDR entries, while
    /// OPPO-compatible output retains the entire camera tail.
    pub fn default_for_compat(oppo_compat: OppoCompat) -> (r: Self)
        ensures
            r == default_tail_policy(oppo_compat),
    {
        if oppo_compat.wants_oppo_compat() {
            OppoCameraTail::Preserve
        } else {
            OppoCameraTail::PreserveWithoutPrivateHdr
        }
    }

    pub fn resolve(value: u8, oppo_compat: OppoCompat) -> (r: Self)
        ensures
            r == resolved_tail_policy(value, oppo_compat),
    {
        match OppoCameraTail::from_u8(value) {
            Some(mode) => mode,
            None => OppoCameraTail::default_for_compat(oppo_compat),
        }
    }
}

// ---------------------------------------------------------------------------
// Constants
// ---------------------------------------------------------------------------

/// The marker that stands behind the size of the vendor extension.
pub const QTI_DEBUG: [u8; 9] = [0x51, 0x54, 0x49, 0x20, 0x44, 0x65, 0x62, 0x75, 0x67];

/// The shorter marker that stands behind the size of the vendor extension.
pub const QTI: [u8; 4] = [0x51, 0x54, 0x49, 0x20];

/// The footer of a vendor tail, in its longer form.
pub const FOOTER_JXRSQ: [u8; 6] = [0x00, 0x6a, 0x78, 0x72, 0x73, 0x71];

/// The footer of a vendor tail.
pub const FOOTER_JXRS: [u8; 5] = [0x00, 0x6a, 0x78, 0x72, 0x73];

/// The number 144 as a little-endian single-precision float.
pub const FLOAT_144: [u8; 4] = [0x00, 0x00, 0x10, 0x43];

/// What a JPEG image starts with.
pub const JPEG_START: [u8; 3] = [0xff, 0xd8, 0xff];

/// What a JPEG image ends with.
pub const JPEG_END: [u8; 2] = [0xff, 0xd9];

/// The manifest text before the length of an entry.
pub const FIELD_LENGTH: [u8; 10] = [0x7b, 0x22, 0x6c, 0x65, 0x6e, 0x67, 0x74, 0x68, 0x22, 0x3a];

/// The manifest text before the name of an entry.
pub const FIELD_NAME: [u8; 9] = [0x2c, 0x22, 0x6e, 0x61, 0x6d, 0x65, 0x22, 0x3a, 0x22];

/// The manifest text before the offset of an entry.
pub const FIELD_OFFSET: [u8; 11] = [
    0x22, 0x2c, 0x22, 0x6f, 0x66, 0x66, 0x73, 0x65, 0x74, 0x22, 0x3a,
];

/// The manifest text behind the offset of an entry.
pub const FIELD_VERSION: [u8; 13] = [
    0x2c, 0x22, 0x76, 0x65, 0x72, 0x73, 0x69, 0x6f, 0x6e, 0x22, 0x3a, 0x31, 0x7d,
];

/// The key of a display filter recipe.
pub const FILTER_KEY: [u8; 8] = [0x22, 0x66, 0x69, 0x6c, 0x74, 0x65, 0x72, 0x22];

/// The key of a disabled display filter recipe.
pub const DISABLED_KEY: [u8; 8] = [0x22, 0x66, 0x69, 0x6c, 0x74, 0x45, 0x72, 0x22];

/// The manifest name of a display filter recipe.
pub const FILTER_ENTRY: [u8; 20] = [
    0x22, 0x6e, 0x61, 0x6d, 0x65, 0x22, 0x3a, 0x22, 0x66, 0x69, 0x6c, 0x74, 0x65, 0x72, 0x2e,
    0x69, 0x6e, 0x66, 0x6f, 0x22,
];

/// The manifest name of a disabled display filter recipe.
pub const DISABLED_ENTRY: [u8; 20] = [
    0x22, 0x6e, 0x61, 0x6d, 0x65, 0x22, 0x3a, 0x22, 0x66, 0x69, 0x6c, 0x74, 0x45, 0x72, 0x2e,
    0x69, 0x6e, 0x66, 0x6f, 0x22,
];

/// What a PNG image starts with.
pub const PNG_MAGIC: [u8; 8] = [0x89, 0x50, 0x4e, 0x47, 0x0d, 0x0a, 0x1a, 0x0a];

/// The type of the first chunk of a PNG image.
pub const PNG_IHDR: [u8; 4] = [0x49, 0x48, 0x44, 0x52];

/// Whether an entry accompanies the visible watermark.
pub open spec fn is_watermark_auxiliary(name: Seq<char>) -> bool {
    ||| name == "color.space"@
    ||| name == "gr.effect.info"@
    ||| name == "master.mode.preset.info"@
    ||| name == "private.emptyspace"@
}

/// Whether an entry accompanies the visible watermark.
fn watermark_auxiliary_name(name: &str) -> (r: bool)
    ensures
        r == is_watermark_auxiliary(name@),
{
    same_text(name, "color.space")
        || same_text(name, "gr.effect.info")
        || same_text(name, "master.mode.preset.info")
        || same_text(name, "private.emptyspace")
}

/// Whether an entry serves portrait editing.
pub open spec fn is_portrait_editing(name: Seq<char>) -> bool {
    ||| name == "crop.region"@
    ||| name == "front.depth"@
    ||| name == "front.depth.config"@
    ||| name == "front.hair.mask"@
    ||| name == "front.matter.info"@
    ||| name == "front.negevimg"@
    ||| name == "front.segment"@
    ||| name == "mesh.coord"@
    ||| name == "mesh.coord.config"@
    ||| name == "rear.depth"@
    ||| name == "rear.depth.config"@
    ||| name == "rear.spotlight"@
    ||| name == "src.image"@
    ||| name == "src.image.block"@
}

/// Whether an entry serves portrait editing.
fn portrait_editing_name(name: &str) -> (r: bool)
    ensures
        r == is_portrait_editing(name@),
{
    same_text(name, "crop.region")
        || same_text(name, "front.depth")
        || same_text(name, "front.depth.config")
        || same_text(name, "front.hair.mask")
        || same_text(name, "front.matter.info")
        || same_text(name, "front.negevimg")
        || same_text(name, "front.segment")
        || same_text(name, "mesh.coord")
        || same_text(name, "mesh.coord.config")
        || same_text(name, "rear.depth")
        || same_text(name, "rear.depth.config")
        || same_text(name, "rear.spotlight")
        || same_text(name, "src.image")
        || same_text(name, "src.image.block")
}

/// Whether an entry is part of the private Ultra HDR gain map.
pub open spec fn is_private_uhdr(name: Seq<char>) -> bool {
    ||| name == "local.uhdr.gainmap.data"@
    ||| name == "local.uhdr.gainmap.info"@
}

/// Whether an entry is part of the private Ultra HDR gain map.
fn private_uhdr_name(name: &str) -> (r: bool)
    ensures
        r == is_private_uhdr(name@),
{
    same_text(name, "local.uhdr.gainmap.data")
        || same_text(name, "local.uhdr.gainmap.info")
}

/// Whether a text begins with another.
pub open spec fn text_starts(s: Seq<char>, prefix: Seq<char>) -> bool {
    starts_with(encode_utf8(s), encode_utf8(prefix))
}

/// Whether a text begins with another.
pub fn begins_with(s: &str, prefix: &str) -> (r: bool)
    ensures
        r == text_starts(s@, prefix@),
{
    matches_at(s.as_bytes(), prefix.as_bytes(), 0)
}

/// Whether an entry carries private HDR data.
pub open spec fn is_private_hdr(name: Seq<char>) -> bool {
    ||| is_private_uhdr(name)
    ||| text_starts(name, "hdr."@)
    ||| text_starts(name, "local.hdr."@)
    ||| text_starts(name, "src.local.hdr."@)
}

fn is_private_hdr_tail_entry(name: &str) -> (r: bool)
    ensures
        r == is_private_hdr(name@),
{
    private_uhdr_name(name) || begins_with(name, "hdr.") || begins_with(name, "local.hdr.")
        || begins_with(name, "src.local.hdr.")
}

/// Whether an entry belongs to the visible watermark.
pub open spec fn is_watermark(name: Seq<char>) -> bool {
    text_starts(name, "watermark."@) || is_watermark_auxiliary(name)
}

/// Whether a policy keeps an entry.
pub open spec fn keeps(name: Seq<char>, policy: OppoCameraTail) -> bool {
    match policy {
        OppoCameraTail::Off => false,
        OppoCameraTail::Watermark => is_watermark(name),
        OppoCameraTail::Compact => is_watermark(name) || is_portrait_editing(name) || name
            == "hdr.transform.data"@ || name == "src.local.hdr.linear.mask"@,
        OppoCameraTail::PreserveWithoutPortrait => !is_portrait_editing(name),
        OppoCameraTail::PreserveWithoutPortraitOrPrivateHdr => !is_portrait_editing(name)
            && !is_private_hdr(name),
        OppoCameraTail::PreserveWithoutPrivateUhdr => !is_private_uhdr(name),
        OppoCameraTail::PreserveWithoutPrivateHdr => !is_private_hdr(name),
        OppoCameraTail::Preserve | OppoCameraTail::PreserveNoUhdr | OppoCameraTail::PreserveNoHdr =>
            true,
    }
}

fn should_preserve_oppo_tail_entry(name: &str, policy: OppoCameraTail) -> (r: bool)
    ensures
        r == keeps(name@, policy),
{
    let watermark: bool = begins_with(name, "watermark.") || watermark_auxiliary_name(name);
    match policy {
        OppoCameraTail::Off => false,
        OppoCameraTail::Watermark => watermark,
        OppoCameraTail::Compact => watermark || portrait_editing_name(name) || same_text(
            name,
            "hdr.transform.data",
        ) || same_text(name, "src.local.hdr.linear.mask"),
        OppoCameraTail::PreserveWithoutPortrait => !portrait_editing_name(name),
        OppoCameraTail::PreserveWithoutPortraitOrPrivateHdr => !portrait_editing_name(name)
            && !is_private_hdr_tail_entry(name),
        OppoCameraTail::PreserveWithoutPrivateUhdr => !private_uhdr_name(name),
        OppoCameraTail::PreserveWithoutPrivateHdr => !is_private_hdr_tail_entry(name),
        OppoCameraTail::Preserve | OppoCameraTail::PreserveNoUhdr | OppoCameraTail::PreserveNoHdr =>
            true,
    }
}

/// Whether a policy makes an entry unreadable in place.
pub open spec fn neutralizes(name: Seq<char>, policy: OppoCameraTail) -> bool {
    match policy {
        OppoCameraTail::PreserveNoUhdr => is_private_uhdr(name),
        OppoCameraTail::PreserveNoHdr => is_private_hdr(name),
        _ => false,
    }
}

fn should_neutralize_oppo_tail_entry(name: &str, policy: OppoCameraTail) -> (r: bool)
    ensures
        r == neutralizes(name@, policy),
{
    match policy {
        OppoCameraTail::PreserveNoUhdr => private_uhdr_name(name),
        OppoCameraTail::PreserveNoHdr => is_private_hdr_tail_entry(name),
        _ => false,
    }
}

// ---------------------------------------------------------------------------
// Finding the tail
// ---------------------------------------------------------------------------

/// Where the size stands that precedes a marker.
pub open spec fn before_marker(s: Seq<u8>, marker: Seq<u8>) -> Option<int> {
    match find_from(s, marker, 0) {
        Some(pos) => if pos >= 4 {
            Some(pos - 4)
        } else {
            None
        },
        None => None,
    }
}

/// Where the vendor tail starts: the size before the first marker.
pub open spec fn tail_start(s: Seq<u8>) -> Option<int> {
    match before_marker(s, QTI_DEBUG@) {
        Some(p) => Some(p),
        None => before_marker(s, QTI@),
    }
}

fn find_before_marker(data: &[u8], marker: &[u8]) -> (r: Option<usize>)
    requires
        marker@.len() >= 1,
    ensures
        match r {
            Some(p) => before_marker(data@, marker@) == Some(p as int) && p + 4 <= data@.len(),
            None => before_marker(data@, marker@) is None,
        },
{
    match find_bytes(data, marker, 0) {
        Some(pos) => if pos >= 4 {
            Some(pos - 4)
        } else {
            None
        },
        None => None,
    }
}

/// Find the start of the QTI box in the data. Returns the absolute offset
/// of the 4-byte size header preceding the QTI marker.
pub fn find_qti_box_start(data: &[u8]) -> (r: Option<usize>)
    ensures
        match r {
            Some(p) => tail_start(data@) == Some(p as int) && p + 4 <= data@.len(),
            None => tail_start(data@) is None,
        },
{
    assert(QTI_DEBUG@.len() == 9);
    assert(QTI@.len() == 4);
    match find_before_marker(data, QTI_DEBUG.as_slice()) {
        Some(p) => Some(p),
        None => find_before_marker(data, QTI.as_slice()),
    }
}

/// Where the extension behind a marked box starts, if the box size is plausible.
pub open spec fn after_marker(s: Seq<u8>, marker: Seq<u8>) -> Option<int> {
    match before_marker(s, marker) {
        None => None,
        Some(p) => if 8 <= be32(s, p) <= 100_000_000 && p + be32(s, p) <= s.len() {
            Some(p + be32(s, p))
        } else {
            None
        },
    }
}

/// Where the extension region starts by its marker.
pub open spec fn extension_start(s: Seq<u8>) -> Option<int> {
    match after_marker(s, QTI_DEBUG@) {
        Some(p) => Some(p),
        None => after_marker(s, QTI@),
    }
}

fn find_after_marker(data: &[u8], marker: &[u8]) -> (r: Option<usize>)
    requires
        marker@.len() >= 1,
    ensures
        match r {
            Some(p) => after_marker(data@, marker@) == Some(p as int) && p <= data@.len(),
            None => after_marker(data@, marker@) is None,
        },
{
    match find_before_marker(data, marker) {
        None => None,
        Some(p) => {
            let size: usize = read32(data, p, false) as usize;
            if size >= 8 && size <= 100_000_000 && size <= data.len() - p {
                Some(p + size)
            } else {
                None
            }
        },
    }
}

/// Find the start of the OPPO extension region via QTI Debug marker.
///
/// The size header preceding the marker must be plausible (in-bounds and a
/// sensible box length); otherwise a `QTI ` sequence inside compressed or
/// embedded data (e.g. the HDR container in a camera JPEG) would be misread
/// as an extension header and produce an out-of-range slice.
pub fn find_extension_start(data: &[u8]) -> (r: Result<usize, String>)
    ensures
        match r {
            Ok(p) => extension_start(data@) == Some(p as int) && p <= data@.len(),
            Err(e) => extension_start(data@) is None && e@ == "QTI extension marker not found"@,
        },
{
    assert(QTI_DEBUG@.len() == 9);
    assert(QTI@.len() == 4);
    match find_after_marker(data, QTI_DEBUG.as_slice()) {
        Some(p) => Ok(p),
        None => match find_after_marker(data, QTI.as_slice()) {
            Some(p) => Ok(p),
            None => Err("QTI extension marker not found".to_string()),
        },
    }
}

/// The footer of a vendor tail: the last long form, else the last short form.
pub open spec fn footer_at(s: Seq<u8>) -> Option<int> {
    match rfind(s, FOOTER_JXRSQ@) {
        Some(p) => Some(p),
        None => rfind(s, FOOTER_JXRS@),
    }
}

/// Whether a manifest stands before the footer, no more than 8192 bytes away.
pub open spec fn has_footed_manifest(s: Seq<u8>) -> bool {
    match footer_at(s) {
        None => false,
        Some(foot) => {
            let near = if foot >= 8192 {
                foot - 8192
            } else {
                0
            };
            match rfind(s.take(foot), seq![0x5du8]) {
                None => false,
                Some(end) => end >= near && (match rfind(s.take(end), seq![0x5bu8]) {
                    None => false,
                    Some(start) => start >= near && start + 1 < end && s[start + 1] == 0x7b,
                }),
            }
        },
    }
}

/// Whether a box type belongs to the image rather than to the vendor extension.
pub open spec fn is_image_box(t: Seq<u8>) -> bool {
    t == FTYP@ || t == META@ || t == FREE@ || t == MDAT@ || t == QTI@
}

/// The first box from `pos` on whose type is not one of the image's, 0 where the
/// boxes end before one.
pub open spec fn first_foreign_box(s: Seq<u8>, pos: int) -> int
    decreases s.len() - pos,
{
    if pos + 8 > s.len() || be32(s, pos) < 8 || pos + be32(s, pos) > s.len() {
        0
    } else if !is_image_box(s.subrange(pos + 4, pos + 8)) {
        pos
    } else {
        first_foreign_box(s, pos + be32(s, pos))
    }
}

/// Where the extension region starts, which goes on to the end of the file: behind the
/// marker, else 2168 bytes into the first foreign box of a file with a footed manifest, else
/// with the file.
pub open spec fn extension_region(s: Seq<u8>) -> int {
    match extension_start(s) {
        Some(p) => p,
        None => {
            let p = first_foreign_box(s, 0);
            if has_footed_manifest(s) && p > 0 && p + 2168 < s.len() {
                p + 2168
            } else {
                0
            }
        },
    }
}

fn find_footed_manifest(data: &[u8]) -> (r: bool)
    ensures
        r == has_footed_manifest(data@),
{
    let foot: usize = match rfind_bytes(data, FOOTER_JXRSQ.as_slice()) {
        Some(p) => p,
        None => match rfind_bytes(data, FOOTER_JXRS.as_slice()) {
            Some(p) => p,
            None => {
                return false;
            },
        },
    };
    let near: usize = if foot >= 8192 {
        foot - 8192
    } else {
        0
    };
    let close: [u8; 1] = [0x5du8];
    let open: [u8; 1] = [0x5bu8];
    assert(close@ =~= seq![0x5du8]);
    assert(open@ =~= seq![0x5bu8]);
    let head: &[u8] = vstd::slice::slice_subrange(data, 0, foot);
    assert(head@ =~= data@.take(foot as int));
    let end: usize = match rfind_bytes(head, close.as_slice()) {
        Some(p) => p,
        None => {
            return false;
        },
    };
    if end < near {
        return false;
    }
    let head: &[u8] = vstd::slice::slice_subrange(data, 0, end);
    assert(head@ =~= data@.take(end as int));
    match rfind_bytes(head, open.as_slice()) {
        Some(start) => start >= near && start + 1 < end && data[start + 1] == 0x7b,
        None => false,
    }
}

fn find_foreign_box(data: &[u8]) -> (r: usize)
    ensures
        r == first_foreign_box(data@, 0),
        r <= data@.len(),
{
    let mut pos: usize = 0;
    while data.len() - pos >= 8
        invariant
            pos <= data@.len(),
            first_foreign_box(data@, 0) == first_foreign_box(data@, pos as int),
        decreases data@.len() - pos,
    {
        let size: usize = read32(data, pos, false) as usize;
        if size < 8 || size > data.len() - pos {
            return 0;
        }
        let t: [u8; 4] = [data[pos + 4], data[pos + 5], data[pos + 6], data[pos + 7]];
        assert(t@ =~= data@.subrange(pos + 4, pos + 8));
        if !(same_tag(&t, &FTYP) || same_tag(&t, &META) || same_tag(&t, &FREE) || same_tag(&t, &MDAT)
            || same_tag(&t, &QTI)) {
            return pos;
        }
        pos = pos + size;
    }
    0
}

/// Locate the OPPO extension region in the HEIC file.
///
/// Returns the offset of its first byte; the region goes on to the end of the file.
pub fn find_extension_region(data: &[u8]) -> (r: usize)
    ensures
        r == extension_region(data@),
        r <= data@.len(),
{
    match find_extension_start(data) {
        Ok(p) => {
            return p;
        },
        Err(_) => {},
    }
    if find_footed_manifest(data) {
        let p: usize = find_foreign_box(data);
        if p > 0 && data.len() - p > 2168 {
            return p + 2168;
        }
    }
    0
}

// ---------------------------------------------------------------------------
// Reading entries
// ---------------------------------------------------------------------------

/// The bytes of the extension region.
pub open spec fn extension_of(s: Seq<u8>) -> Seq<u8> {
    s.subrange(extension_region(s), s.len() as int)
}

/// Being the entry of a given name.
pub open spec fn entry_named(name: Seq<char>) -> spec_fn(ManifestView) -> bool {
    |e: ManifestView| e.name == name
}

/// The bytes of an entry: its offset counts back from the start of the manifest,
/// within 64 bits. `None` where they do not lie in `ext`.
pub open spec fn entry_bytes(ext: Seq<u8>, json_start: int, e: ManifestView) -> Option<Seq<u8>> {
    let start = (json_start - e.offset) % 0x1_0000_0000_0000_0000;
    if start + e.length > ext.len() {
        None
    } else {
        Some(ext.subrange(start, start + e.length))
    }
}

/// The bytes of a named entry of the vendor tail.
pub open spec fn tail_entry(s: Seq<u8>, name: Seq<char>) -> Option<Seq<u8>> {
    let ext = extension_of(s);
    match manifest_of(ext) {
        None => None,
        Some((entries, start, _)) => match first_where(entries, entry_named(name)) {
            None => None,
            Some(e) => entry_bytes(ext, start, e),
        },
    }
}

/// The first entry of a name.
pub fn find_entry_named<'a>(entries: &'a Vec<ManifestEntry>, name: &str) -> (r: Option<
    &'a ManifestEntry,
>)
    ensures
        match r {
            Some(e) => first_where(views(entries@), entry_named(name@)) == Some(e@),
            None => first_where(views(entries@), entry_named(name@)) is None,
        },
{
    let mut i: usize = 0;
    while i < entries.len()
        invariant
            i <= entries@.len(),
            forall|j: int| 0 <= j < i ==> (#[trigger] entries@[j]).name@ != name@,
        decreases entries@.len() - i,
    {
        if same_text(entries[i].name.as_str(), name) {
            proof {
                lemma_first_where_at(views(entries@), entry_named(name@), i as int);
            }
            return Some(&entries[i]);
        }
        i = i + 1;
    }
    proof {
        lemma_first_where_none(views(entries@), entry_named(name@));
    }
    None
}

/// The bytes of an entry, where they lie in `ext`.
pub fn read_entry(ext: &[u8], json_start: usize, e: &ManifestEntry) -> (r: Option<Vec<u8>>)
    ensures
        opt_bytes(r) == entry_bytes(ext@, json_start as int, e@),
{
    let len: u64 = ext.len() as u64;
    let start: u64 = (json_start as u64).wrapping_sub(e.offset);
    if start > len || e.length > len - start {
        return None;
    }
    Some(copy_range(ext, start as usize, start as usize + e.length as usize))
}

/// Extract a named entry payload from the OPPO/FileExtendedContainer tail
/// manifest (e.g. "rear.depth", "rear.depth.config"). Payload offsets in the
/// manifest are relative to the manifest JSON start, counting backwards.
pub fn extract_tail_entry(data: &[u8], name: &str) -> (r: Option<Vec<u8>>)
    ensures
        opt_bytes(r) == tail_entry(data@, name@),
{
    let from: usize = find_extension_region(data);
    let ext: &[u8] = vstd::slice::slice_subrange(data, from, data.len());
    match parse_manifest(ext) {
        None => None,
        Some((entries, start, _)) => match find_entry_named(&entries, name) {
            None => None,
            Some(e) => read_entry(ext, start, e),
        },
    }
}

/// The names of manifest entries.
pub open spec fn names_of(entries: Seq<ManifestView>) -> Seq<Seq<char>> {
    Seq::new(entries.len(), |i: int| entries[i].name)
}

/// The names of the entries of the vendor tail.
pub open spec fn tail_names(s: Seq<u8>) -> Seq<Seq<char>> {
    match manifest_of(extension_of(s)) {
        None => Seq::empty(),
        Some((entries, _, _)) => names_of(entries),
    }
}

/// List the tail entry names present in the manifest (diagnostics).
pub fn tail_entry_names(data: &[u8]) -> (r: Vec<String>)
    ensures
        views(r@) == tail_names(data@),
{
    let from: usize = find_extension_region(data);
    let mut names: Vec<String> = Vec::new();
    match parse_manifest(vstd::slice::slice_subrange(data, from, data.len())) {
        None => {
            assert(views(names@) =~= Seq::empty());
        },
        Some((entries, _, _)) => {
            let mut i: usize = 0;
            while i < entries.len()
                invariant
                    i <= entries@.len(),
                    names@.len() == i,
                    forall|j: int| 0 <= j < i ==> (#[trigger] names@[j])@ == entries@[j].name@,
                decreases entries@.len() - i,
            {
                names.push(entries[i].name.clone());
                i = i + 1;
            }
            assert(views(names@) =~= names_of(views(entries@)));
        },
    }
    names
}

/// Whether a name is that of the watermark or of a part of it.
pub open spec fn is_watermark_entry(name: Seq<char>) -> bool {
    name == "watermark"@ || text_starts(name, "watermark."@)
}

/// Return whether the file contains the manifest entries used by OPPO's
/// visible watermark and its layout metadata.
pub fn has_watermark_entries(data: &[u8]) -> (r: bool)
    ensures
        r == exists|i: int|
            0 <= i < tail_names(data@).len() && is_watermark_entry(#[trigger] tail_names(data@)[i]),
{
    let names: Vec<String> = tail_entry_names(data);
    let mut i: usize = 0;
    while i < names.len()
        invariant
            i <= names@.len(),
            views(names@) == tail_names(data@),
            forall|j: int| 0 <= j < i ==> !is_watermark_entry(#[trigger] tail_names(data@)[j]),
        decreases names@.len() - i,
    {
        assert(tail_names(data@)[i as int] == names@[i as int]@);
        if same_text(names[i].as_str(), "watermark") || begins_with(names[i].as_str(), "watermark.") {
            return true;
        }
        i = i + 1;
    }
    false
}

/// Remove an existing OPPO/FileExtendedContainer footer from a returned
/// photo. The returned Apple file may already contain a stale footer, so a
/// writeback must never append a second competing manifest.
pub fn strip_oppo_tail(data: &[u8]) -> (r: Vec<u8>)
    ensures
        r@ == (match tail_start(data@) {
            Some(p) => data@.take(p),
            None => data@,
        }),
{
    let end: usize = match find_qti_box_start(data) {
        Some(p) => p,
        None => data.len(),
    };
    let r: Vec<u8> = copy_range(data, 0, end);
    assert(r@ =~= data@.take(end as int));
    assert(data@.take(data@.len() as int) =~= data@);
    r
}

// ---------------------------------------------------------------------------
// Tail policies
// ---------------------------------------------------------------------------

/// The entries from the `i`-th on that a policy keeps and whose bytes lie in the
/// tail, in manifest order.
pub open spec fn kept_from(
    tail: Seq<u8>,
    entries: Seq<ManifestView>,
    json_start: int,
    policy: OppoCameraTail,
    i: int,
    acc: Seq<(int, ManifestView)>,
) -> Seq<(int, ManifestView)>
    decreases entries.len() - i,
{
    if i >= entries.len() {
        acc
    } else {
        let start = json_start - entries[i].offset;
        if keeps(entries[i].name, policy) && start >= 0 && start + entries[i].length <= tail.len() {
            kept_from(tail, entries, json_start, policy, i + 1, acc.push((start, entries[i])))
        } else {
            kept_from(tail, entries, json_start, policy, i + 1, acc)
        }
    }
}

/// `s` with `x` behind the last entry that does not start after it.
pub open spec fn inserted(s: Seq<(int, ManifestView)>, x: (int, ManifestView)) -> Seq<(int, ManifestView)>
    decreases s.len(),
{
    if s.len() == 0 || s.last().0 <= x.0 {
        s.push(x)
    } else {
        inserted(s.drop_last(), x).push(s.last())
    }
}

/// The entries by where they start, those that start together in their order.
pub open spec fn by_start(s: Seq<(int, ManifestView)>) -> Seq<(int, ManifestView)>
    decreases s.len(),
{
    if s.len() == 0 {
        s
    } else {
        inserted(by_start(s.drop_last()), s.last())
    }
}

/// The bytes of a kept entry.
pub open spec fn kept_bytes(tail: Seq<u8>) -> spec_fn((int, ManifestView)) -> Seq<u8> {
    |k: (int, ManifestView)| tail.subrange(k.0, k.0 + k.1.length)
}

/// The manifest text of the `i`-th kept entry. Its offset counts back from the
/// manifest to where its bytes start in the rebuilt payload.
pub open spec fn manifest_item(tail: Seq<u8>, kept: Seq<(int, ManifestView)>, i: int) -> Seq<u8> {
    let offset = flat(kept, kept_bytes(tail)).len() - flat(kept.take(i), kept_bytes(tail)).len();
    FIELD_LENGTH@ + decimal_ascii(kept[i].1.length as int) + FIELD_NAME@ + encode_utf8(kept[i].1.name)
        + FIELD_OFFSET@ + decimal_ascii(offset) + FIELD_VERSION@
}

/// The manifest texts of the first `n` kept entries, with commas between.
pub open spec fn manifest_items(tail: Seq<u8>, kept: Seq<(int, ManifestView)>, n: int) -> Seq<u8>
    decreases n,
{
    if n <= 0 {
        Seq::empty()
    } else {
        manifest_items(tail, kept, n - 1) + (if n > 1 {
            seq![0x2cu8]
        } else {
            Seq::empty()
        }) + manifest_item(tail, kept, n - 1)
    }
}

/// The manifest of the kept entries.
pub open spec fn manifest_text(tail: Seq<u8>, kept: Seq<(int, ManifestView)>) -> Seq<u8> {
    seq![0x5bu8] + manifest_items(tail, kept, kept.len() as int) + seq![0x5du8]
}

/// A tail rebuilt of the kept entries: their bytes, the manifest and the footer
/// with the length of the manifest.
pub open spec fn rebuilt_tail(tail: Seq<u8>, kept: Seq<(int, ManifestView)>) -> Seq<u8> {
    let manifest = manifest_text(tail, kept);
    flat(kept, kept_bytes(tail)) + manifest + FOOTER_JXRS@ + enc32_le(manifest.len() as int + 9)
}

/// Being one of the given names.
pub open spec fn one_of(names: Seq<Seq<char>>) -> spec_fn(Seq<char>) -> bool {
    |name: Seq<char>| names.contains(name)
}

/// Being a name that a policy neutralizes.
pub open spec fn neutralized_by(policy: OppoCameraTail) -> spec_fn(Seq<char>) -> bool {
    |name: Seq<char>| neutralizes(name, policy)
}

/// Whether a name that is to be neutralized begins at `i`: that of an entry whose whole name
/// has the property `p`.
pub open spec fn begins_at(
    entries: Seq<ManifestView>,
    places: Seq<int>,
    p: spec_fn(Seq<char>) -> bool,
    i: int,
) -> bool {
    exists|k: int|
        0 <= k < entries.len() && p((#[trigger] entries[k]).name) && entries[k].name.len() > 0
            && places[k] == i
}

/// `s` with `x` as the first letter of each entry's name that has the property `p`; the names
/// of the entries begin at `places`.
pub open spec fn neutralized(
    s: Seq<u8>,
    entries: Seq<ManifestView>,
    places: Seq<int>,
    p: spec_fn(Seq<char>) -> bool,
) -> Seq<u8> {
    Seq::new(
        s.len(),
        |i: int|
            if begins_at(entries, places, p, i) {
                0x78u8
            } else {
                s[i]
            },
    )
}

/// The tail with the names in its manifest neutralized that have the property `p`.
pub open spec fn without_names(tail: Seq<u8>, p: spec_fn(Seq<char>) -> bool) -> Option<Seq<u8>> {
    match manifest_of(tail) {
        None => None,
        Some((entries, start, _)) => Some(neutralized(tail, entries, name_places(tail, start), p)),
    }
}

/// What a policy makes of a tail: `None` where nothing of it is kept.
pub open spec fn tail_under(tail: Seq<u8>, policy: OppoCameraTail) -> Option<Seq<u8>> {
    match policy {
        OppoCameraTail::Off => None,
        OppoCameraTail::Preserve => Some(tail),
        OppoCameraTail::PreserveNoUhdr | OppoCameraTail::PreserveNoHdr => without_names(
            tail,
            neutralized_by(policy),
        ),
        _ => match manifest_of(tail) {
            None => None,
            Some((entries, start, _)) => {
                let kept = by_start(kept_from(tail, entries, start, policy, 0, Seq::empty()));
                if kept.len() == 0 {
                    None
                } else {
                    Some(rebuilt_tail(tail, kept))
                }
            },
        },
    }
}

/// What kept entries stand for: pairs of a start and an index of an entry.
pub open spec fn kept_view(kept: Seq<(usize, usize)>, entries: Seq<ManifestView>) -> Seq<
    (int, ManifestView),
> {
    Seq::new(kept.len(), |i: int| (kept[i].0 as int, entries[kept[i].1 as int]))
}

proof fn lemma_inserted_at(s: Seq<(int, ManifestView)>, x: (int, ManifestView), at: int)
    requires
        0 <= at <= s.len(),
        forall|j: int| at <= j < s.len() ==> (#[trigger] s[j]).0 > x.0,
        at == 0 || s[at - 1].0 <= x.0,
    ensures
        inserted(s, x) == s.insert(at, x),
    decreases s.len(),
{
    if at == s.len() {
        assert(s.insert(at, x) =~= s.push(x));
    } else {
        assert(s.last().0 > x.0);
        lemma_inserted_at(s.drop_last(), x, at);
        assert(s.insert(at, x) =~= s.drop_last().insert(at, x).push(s.last()));
    }
}

/// Whether the bytes of every kept entry lie in the tail.
pub open spec fn kept_fit(kept: Seq<(usize, usize)>, entries: Seq<ManifestView>, len: int) -> bool {
    forall|j: int|
        0 <= j < kept.len() ==> (#[trigger] kept[j]).1 < entries.len() && kept[j].0
            + entries[kept[j].1 as int].length <= len
}

fn insert_kept(kept: &mut Vec<(usize, usize)>, x: (usize, usize), entries: Ghost<Seq<ManifestView>>)
    ensures
        kept_view(final(kept)@, entries@) == inserted(
            kept_view(old(kept)@, entries@),
            (x.0 as int, entries@[x.1 as int]),
        ),
        forall|j: int|
            0 <= j < final(kept)@.len() ==> (#[trigger] final(kept)@[j]) == x || old(kept)@.contains(
                final(kept)@[j],
            ),
{
    let mut at: usize = kept.len();
    while at > 0 && kept[at - 1].0 > x.0
        invariant
            at <= kept@.len(),
            kept@ == old(kept)@,
            forall|j: int| at <= j < kept@.len() ==> (#[trigger] kept@[j]).0 > x.0,
        decreases at,
    {
        at = at - 1;
    }
    proof {
        let v = kept_view(kept@, entries@);
        assert forall|j: int| at <= j < v.len() implies (#[trigger] v[j]).0 > x.0 by {
            assert(kept@[j].0 > x.0);
        }
        lemma_inserted_at(v, (x.0 as int, entries@[x.1 as int]), at as int);
    }
    kept.insert(at, x);
    proof {
        assert(kept_view(kept@, entries@) =~= kept_view(old(kept)@, entries@).insert(
            at as int,
            (x.0 as int, entries@[x.1 as int]),
        ));
        assert forall|j: int| 0 <= j < kept@.len() implies (#[trigger] kept@[j]) == x || old(
            kept,
        )@.contains(kept@[j]) by {
            if j < at {
                assert(old(kept)@[j] == kept@[j]);
            } else if j > at {
                assert(old(kept)@[j - 1] == kept@[j]);
            }
        }
    }
}

/// Select the entries that a policy keeps, by where they start.
fn select_kept(
    tail: &[u8],
    entries: &Vec<ManifestEntry>,
    json_start: usize,
    policy: OppoCameraTail,
) -> (r: Vec<(usize, usize)>)
    requires
        json_start <= tail.len(),
    ensures
        kept_view(r@, views(entries@)) == by_start(
            kept_from(tail@, views(entries@), json_start as int, policy, 0, Seq::empty()),
        ),
        kept_fit(r@, views(entries@), tail@.len() as int),
{
    let mut kept: Vec<(usize, usize)> = Vec::new();
    let mut i: usize = 0;
    let ghost v = views(entries@);
    let ghost mut found: Seq<(int, ManifestView)> = Seq::empty();
    assert(kept_view(kept@, v) =~= by_start(found));
    while i < entries.len()
        invariant
            i <= entries@.len(),
            json_start <= tail.len(),
            v == views(entries@),
            kept_view(kept@, v) == by_start(found),
            kept_fit(kept@, v, tail@.len() as int),
            kept_from(tail@, v, json_start as int, policy, 0, Seq::empty()) == kept_from(
                tail@,
                v,
                json_start as int,
                policy,
                i as int,
                found,
            ),
        decreases entries@.len() - i,
    {
        assert(v[i as int] == entries@[i as int]@);
        let offset: u64 = entries[i].offset;
        let length: u64 = entries[i].length;
        if should_preserve_oppo_tail_entry(entries[i].name.as_str(), policy) && offset
            <= json_start as u64 {
            let start: usize = json_start - offset as usize;
            if length <= (tail.len() - start) as u64 {
                let ghost before = kept@;
                insert_kept(&mut kept, (start, i), Ghost(v));
                proof {
                    let next = found.push((start as int, v[i as int]));
                    assert(next.drop_last() =~= found);
                    found = next;
                    assert forall|j: int| 0 <= j < kept@.len() implies (#[trigger] kept@[j]).1
                        < v.len() && kept@[j].0 + v[kept@[j].1 as int].length <= tail@.len() by {
                        if kept@[j] != (start, i) {
                            let k = choose|k: int| 0 <= k < before.len() && before[k] == kept@[j];
                            assert(before[k].1 < v.len());
                        }
                    }
                }
            }
        }
        i = i + 1;
    }
    kept
}

/// Append the manifest text of one kept entry.
fn push_manifest_item(out: &mut Vec<u8>, name: &str, length: u64, offset: u64)
    ensures
        final(out)@ == old(out)@ + (FIELD_LENGTH@ + decimal_ascii(length as int) + FIELD_NAME@
            + encode_utf8(name@) + FIELD_OFFSET@ + decimal_ascii(offset as int) + FIELD_VERSION@),
{
    append(out, FIELD_LENGTH.as_slice());
    append(out, decimal_bytes(length).as_slice());
    append(out, FIELD_NAME.as_slice());
    append(out, name.as_bytes());
    append(out, FIELD_OFFSET.as_slice());
    append(out, decimal_bytes(offset).as_slice());
    append(out, FIELD_VERSION.as_slice());
    assert(out@ =~= old(out)@ + (FIELD_LENGTH@ + decimal_ascii(length as int) + FIELD_NAME@
        + encode_utf8(name@) + FIELD_OFFSET@ + decimal_ascii(offset as int) + FIELD_VERSION@));
}

/// Rebuild a tail of the kept entries.
fn rebuild_tail(tail: &[u8], entries: &Vec<ManifestEntry>, kept: &Vec<(usize, usize)>) -> (r: Vec<u8>)
    requires
        kept_fit(kept@, views(entries@), tail@.len() as int),
    ensures
        r@ == rebuilt_tail(tail@, kept_view(kept@, views(entries@))),
{
    let ghost v = views(entries@);
    let ghost k = kept_view(kept@, v);
    let ghost f = kept_bytes(tail@);
    let mut payload: Vec<u8> = Vec::new();
    let mut starts: Vec<usize> = Vec::new();
    let mut i: usize = 0;
    assert(k.take(0) =~= Seq::empty());
    assert(payload@ =~= flat(k.take(0), f));
    while i < kept.len()
        invariant
            i <= kept@.len(),
            v == views(entries@),
            k == kept_view(kept@, v),
            f == kept_bytes(tail@),
            kept_fit(kept@, v, tail@.len() as int),
            payload@ == flat(k.take(i as int), f),
            starts@.len() == i,
            forall|j: int| 0 <= j < i ==> (#[trigger] starts@[j]) == flat(k.take(j), f).len(),
            forall|j: int| 0 <= j < i ==> (#[trigger] starts@[j]) <= payload@.len(),
        decreases kept@.len() - i,
    {
        let (start, at) = kept[i];
        assert(kept@[i as int].1 < v.len());
        assert(v[at as int] == entries@[at as int]@);
        let len: usize = tail.len();
        assert(start + entries@[at as int].length <= len);
        let length: usize = entries[at].length as usize;
        starts.push(payload.len());
        append(&mut payload, vstd::slice::slice_subrange(tail, start, start + length));
        proof {
            lemma_flat_take(k, f, i as int);
        }
        i = i + 1;
    }
    assert(k.take(i as int) =~= k);
    let total: usize = payload.len();
    let mut manifest: Vec<u8> = vec![0x5bu8];
    let mut i: usize = 0;
    assert(manifest@ =~= seq![0x5bu8] + manifest_items(tail@, k, 0));
    while i < kept.len()
        invariant
            i <= kept@.len(),
            v == views(entries@),
            k == kept_view(kept@, v),
            f == kept_bytes(tail@),
            kept_fit(kept@, v, tail@.len() as int),
            total == flat(k, f).len(),
            starts@.len() == kept@.len(),
            forall|j: int| 0 <= j < kept@.len() ==> (#[trigger] starts@[j]) == flat(k.take(j), f).len(),
            forall|j: int| 0 <= j < kept@.len() ==> (#[trigger] starts@[j]) <= total,
            manifest@ == seq![0x5bu8] + manifest_items(tail@, k, i as int),
        decreases kept@.len() - i,
    {
        let ghost before = manifest@;
        if i > 0 {
            manifest.push(0x2cu8);
        }
        let (_, at) = kept[i];
        assert(kept@[i as int].1 < v.len());
        assert(v[at as int] == entries@[at as int]@);
        assert(starts@[i as int] <= total);
        let offset: usize = total - starts[i];
        push_manifest_item(
            &mut manifest,
            entries[at].name.as_str(),
            entries[at].length,
            offset as u64,
        );
        i = i + 1;
        assert(manifest@ =~= seq![0x5bu8] + manifest_items(tail@, k, i as int));
    }
    manifest.push(0x5du8);
    assert(manifest@ =~= manifest_text(tail@, k));
    append(&mut payload, manifest.as_slice());
    append(&mut payload, FOOTER_JXRS.as_slice());
    let size: u64 = (manifest.len() as u64 % 0x1_0000_0000 + 9) % 0x1_0000_0000;
    proof {
        lemma_put32_low_bits(manifest@.len() as int + 9, true);
        lemma_mod_part(manifest@.len() as int, 9);
    }
    push32_ordered(&mut payload, size as u32, true);
    assert(payload@ =~= rebuilt_tail(tail@, k));
    payload
}

/// The texts of names.
pub open spec fn texts(names: Seq<&str>) -> Seq<Seq<char>> {
    Seq::new(names.len(), |i: int| names[i]@)
}

/// Put `x` at the first letter of each marked entry's name.
fn disable_marked(
    tail: &mut [u8],
    entries: &Vec<ManifestEntry>,
    places: &Vec<usize>,
    marks: &Vec<bool>,
    Ghost(p): Ghost<spec_fn(Seq<char>) -> bool>,
)
    requires
        places@.len() == entries@.len(),
        marks@.len() == entries@.len(),
        forall|i: int| 0 <= i < places@.len() ==> #[trigger] places@[i] < old(tail)@.len(),
        forall|i: int| 0 <= i < marks@.len() ==> #[trigger] marks@[i] == p(entries@[i]@.name),
    ensures
        final(tail)@ == neutralized(old(tail)@, views(entries@), positions(places@), p),
{
    let ghost v = views(entries@);
    let ghost at = positions(places@);
    let mut k: usize = 0;
    assert(tail@ =~= neutralized(old(tail)@, v.take(0), at, p)) by {
        assert forall|i: int| !begins_at(v.take(0), at, p, i) by {}
    }
    while k < entries.len()
        invariant
            k <= entries@.len(),
            v == views(entries@),
            at == positions(places@),
            places@.len() == entries@.len(),
            marks@.len() == entries@.len(),
            tail@.len() == old(tail)@.len(),
            forall|i: int| 0 <= i < places@.len() ==> #[trigger] places@[i] < old(tail)@.len(),
            forall|i: int| 0 <= i < marks@.len() ==> #[trigger] marks@[i] == p(entries@[i]@.name),
            tail@ == neutralized(old(tail)@, v.take(k as int), at, p),
        decreases entries@.len() - k,
    {
        let ghost before = tail@;
        let name: &str = entries[k].name.as_str();
        assert(v[k as int] == entries@[k as int]@);
        let hit: bool = marks[k] && !is_empty_text(name);
        assert(hit == (p(v[k as int].name) && v[k as int].name.len() > 0));
        if hit {
            let place: usize = places[k];
            tail[place] = 0x78u8;
        }
        proof {
            let done = neutralized(old(tail)@, v.take(k + 1), at, p);
            assert forall|i: int| 0 <= i < tail@.len() implies tail@[i] == done[i] by {
                lemma_begins_step(v, at, p, k as int, i);
            }
            assert(tail@ =~= done);
        }
        k = k + 1;
    }
    assert(v.take(k as int) =~= v);
}

proof fn lemma_begins_step(
    v: Seq<ManifestView>,
    at: Seq<int>,
    p: spec_fn(Seq<char>) -> bool,
    k: int,
    i: int,
)
    requires
        0 <= k < v.len(),
    ensures
        begins_at(v.take(k + 1), at, p, i) == (begins_at(v.take(k), at, p, i) || (p(v[k].name)
            && v[k].name.len() > 0 && at[k] == i)),
{
    let a = v.take(k);
    let b = v.take(k + 1);
    if begins_at(a, at, p, i) {
        let j = choose|j: int|
            0 <= j < a.len() && p((#[trigger] a[j]).name) && a[j].name.len() > 0 && at[j] == i;
        assert(b[j] == a[j]);
    }
    if p(v[k].name) && v[k].name.len() > 0 && at[k] == i {
        assert(b[k] == v[k]);
    }
    if begins_at(b, at, p, i) {
        let j = choose|j: int|
            0 <= j < b.len() && p((#[trigger] b[j]).name) && b[j].name.len() > 0 && at[j] == i;
        if j < k {
            assert(a[j] == b[j]);
        }
    }
}

fn is_empty_text(s: &str) -> (r: bool)
    ensures
        r == (s@.len() == 0),
{
    let r: bool = same_text(s, "");
    proof {
        reveal_strlit("");
        assert(s@.len() == 0 ==> s@ =~= ""@);
    }
    r
}

fn is_one_of(name: &str, names: &[&str]) -> (r: bool)
    ensures
        r == texts(names@).contains(name@),
{
    let ghost t = texts(names@);
    let mut i: usize = 0;
    while i < names.len()
        invariant
            i <= names@.len(),
            t == texts(names@),
            forall|k: int| 0 <= k < i ==> #[trigger] t[k] != name@,
        decreases names@.len() - i,
    {
        if same_text(names[i], name) {
            assert(t[i as int] == name@);
            return true;
        }
        assert(t[i as int] != name@);
        i = i + 1;
    }
    false
}

/// Make the named entries of the manifest unreadable in place, by the first letter of their
/// names; every other entry keeps its name. `None` where there is no manifest.
pub fn neutralize_named_tail_entries(tail: &mut [u8], names: &[&str]) -> (r: Option<()>)
    ensures
        match without_names(old(tail)@, one_of(texts(names@))) {
            None => r is None && final(tail)@ == old(tail)@,
            Some(t) => r is Some && final(tail)@ == t,
        },
{
    let ghost p = one_of(texts(names@));
    let (entries, places): (Vec<ManifestEntry>, Vec<usize>) = match parse_named_manifest(tail) {
        Some((entries, places, _, _)) => (entries, places),
        None => {
            return None;
        },
    };
    let mut marks: Vec<bool> = Vec::new();
    let mut i: usize = 0;
    while i < entries.len()
        invariant
            i <= entries@.len(),
            marks@.len() == i,
            p == one_of(texts(names@)),
            forall|k: int| 0 <= k < i ==> #[trigger] marks@[k] == p(entries@[k]@.name),
        decreases entries@.len() - i,
    {
        marks.push(is_one_of(entries[i].name.as_str(), names));
        i = i + 1;
    }
    disable_marked(tail, &entries, &places, &marks, Ghost(p));
    Some(())
}

fn neutralize_oppo_tail_entries(tail: &[u8], policy: OppoCameraTail) -> (r: Option<Vec<u8>>)
    requires
        policy == OppoCameraTail::PreserveNoUhdr || policy == OppoCameraTail::PreserveNoHdr,
    ensures
        opt_bytes(r) == tail_under(tail@, policy),
{
    let ghost p = neutralized_by(policy);
    let (entries, places): (Vec<ManifestEntry>, Vec<usize>) = match parse_named_manifest(tail) {
        Some((entries, places, _, _)) => (entries, places),
        None => {
            return None;
        },
    };
    let mut marks: Vec<bool> = Vec::new();
    let mut i: usize = 0;
    while i < entries.len()
        invariant
            i <= entries@.len(),
            marks@.len() == i,
            p == neutralized_by(policy),
            forall|k: int| 0 <= k < i ==> #[trigger] marks@[k] == p(entries@[k]@.name),
        decreases entries@.len() - i,
    {
        marks.push(should_neutralize_oppo_tail_entry(entries[i].name.as_str(), policy));
        i = i + 1;
    }
    let mut result: Vec<u8> = copy_range(tail, 0, tail.len());
    assert(result@ =~= tail@);
    disable_marked(result.as_mut_slice(), &entries, &places, &marks, Ghost(p));
    Some(result)
}

/// Apply a camera-tail policy to a raw source tail.
pub fn apply_oppo_tail_policy(tail: &[u8], policy: OppoCameraTail) -> (r: Option<Vec<u8>>)
    ensures
        opt_bytes(r) == tail_under(tail@, policy),
{
    match policy {
        OppoCameraTail::Off => {
            return None;
        },
        OppoCameraTail::Preserve => {
            let whole: Vec<u8> = copy_range(tail, 0, tail.len());
            assert(whole@ =~= tail@);
            return Some(whole);
        },
        OppoCameraTail::PreserveNoUhdr | OppoCameraTail::PreserveNoHdr => {
            return neutralize_oppo_tail_entries(tail, policy);
        },
        _ => {},
    }
    let (entries, start, _): (Vec<ManifestEntry>, usize, usize) = match parse_manifest(tail) {
        Some(m) => m,
        None => {
            return None;
        },
    };
    let kept: Vec<(usize, usize)> = select_kept(tail, &entries, start, policy);
    assert(kept_view(kept@, views(entries@)).len() == kept@.len());
    if kept.len() == 0 {
        return None;
    }
    Some(rebuild_tail(tail, &entries, &kept))
}

/// The vendor tail of a file.
pub open spec fn raw_tail(s: Seq<u8>) -> Option<Seq<u8>> {
    match tail_start(s) {
        Some(p) => Some(s.skip(p)),
        None => None,
    }
}

/// What a policy keeps of the vendor tail of a file.
pub open spec fn file_tail_under(s: Seq<u8>, policy: OppoCameraTail) -> Option<Seq<u8>> {
    match raw_tail(s) {
        Some(t) => tail_under(t, policy),
        None => None,
    }
}

/// Extract the complete OPPO/QTI/FileExtendedContainer tail bytes from a
/// source HEIC file. Returns `None` if no extension region is found.
///
/// The policy supports compact watermark-only tails, portrait-editing removal,
/// private-HDR removal, and full preservation. `Off` removes the tail.
pub fn get_oppo_tail(data: &[u8], policy: OppoCameraTail) -> (r: Option<Vec<u8>>)
    ensures
        opt_bytes(r) == file_tail_under(data@, policy),
{
    match find_qti_box_start(data) {
        Some(p) => {
            let tail: &[u8] = vstd::slice::slice_subrange(data, p, data.len());
            assert(tail@ =~= data@.skip(p as int));
            apply_oppo_tail_policy(tail, policy)
        },
        None => None,
    }
}

/// The vendor tail of a file with the names of its manifest neutralized.
pub open spec fn file_tail_without(s: Seq<u8>, names: Seq<Seq<char>>) -> Option<Seq<u8>> {
    match raw_tail(s) {
        Some(t) => without_names(t, one_of(names)),
        None => None,
    }
}

fn get_oppo_tail_without(data: &[u8], names: &[&str]) -> (r: Option<Vec<u8>>)
    ensures
        opt_bytes(r) == file_tail_without(data@, texts(names@)),
{
    match find_qti_box_start(data) {
        Some(p) => {
            let mut tail: Vec<u8> = copy_range(data, p, data.len());
            assert(tail@ =~= data@.skip(p as int));
            match neutralize_named_tail_entries(tail.as_mut_slice(), names) {
                Some(_) => Some(tail),
                None => None,
            }
        },
        None => None,
    }
}

/// The entries that recolor an image when it is displayed.
pub open spec fn display_filter_names() -> Seq<Seq<char>> {
    seq![
        "filter.info"@,
        "filtEr.info"@,
        "basictone.info"@,
        "basictone.vig.table"@,
        "master.mode.preset.info"@,
    ]
}

/// The entries that recolor an image when it is displayed, and the local gain map.
pub open spec fn display_names() -> Seq<Seq<char>> {
    display_filter_names() + seq!["local.uhdr.gainmap.data"@, "local.uhdr.gainmap.info"@]
}

/// The entries that adjust an image when it is displayed: the transform of HDR too.
pub open spec fn display_adjustment_names() -> Seq<Seq<char>> {
    display_filter_names() + seq![
        "hdr.transform.data"@,
        "local.uhdr.gainmap.data"@,
        "local.uhdr.gainmap.info"@,
    ]
}

/// Preserve the OPPO container wrappers while disabling display-time recipes.
/// Rebuilding a filtered tail would drop the vendor's outer FileExtendedContainer
/// boxes, so this path neutralizes only their manifest names in place.
pub fn get_oppo_tail_without_display_adjustments(data: &[u8]) -> (r: Option<Vec<u8>>)
    ensures
        opt_bytes(r) == file_tail_without(data@, display_adjustment_names()),
{
    let names: [&str; 8] = [
        "filter.info",
        "filtEr.info",
        "basictone.info",
        "basictone.vig.table",
        "master.mode.preset.info",
        "hdr.transform.data",
        "local.uhdr.gainmap.data",
        "local.uhdr.gainmap.info",
    ];
    proof {
        assert(texts(names@) =~= display_adjustment_names());
    }
    get_oppo_tail_without(data, names.as_slice())
}

/// Keep the donor watermark/container and local HDR payload, but disable
/// only display recipes that would recolor an already-rendered returned raster.
pub fn get_oppo_tail_without_display_filter_keep_local(data: &[u8]) -> (r: Option<Vec<u8>>)
    ensures
        opt_bytes(r) == file_tail_without(data@, display_filter_names()),
{
    let names: [&str; 5] = [
        "filter.info",
        "filtEr.info",
        "basictone.info",
        "basictone.vig.table",
        "master.mode.preset.info",
    ];
    proof {
        assert(texts(names@) =~= display_filter_names());
    }
    get_oppo_tail_without(data, names.as_slice())
}

/// Keep the donor watermark/container and HDR transform, but disable only
/// display recipes that would recolor an already-rendered returned raster.
pub fn get_oppo_tail_without_display_filter(data: &[u8]) -> (r: Option<Vec<u8>>)
    ensures
        opt_bytes(r) == file_tail_without(data@, display_names()),
{
    let names: [&str; 7] = [
        "filter.info",
        "filtEr.info",
        "basictone.info",
        "basictone.vig.table",
        "master.mode.preset.info",
        "local.uhdr.gainmap.data",
        "local.uhdr.gainmap.info",
    ];
    proof {
        assert(texts(names@) =~= display_names());
    }
    get_oppo_tail_without(data, names.as_slice())
}

// ---------------------------------------------------------------------------
// Display filter recipes
// ---------------------------------------------------------------------------

/// Whether the key that ends at `p` is followed by a colon.
pub open spec fn colon_follows(s: Seq<u8>, p: int) -> bool {
    let c = until(s, p, not_space());
    c < s.len() && s[c] == 0x3a
}

/// `s` with every filter key from `from` on renamed, and how many were, added to
/// `count`.
pub open spec fn keys_disabled(s: Seq<u8>, from: int, count: int) -> (Seq<u8>, int)
    decreases s.len() - from,
{
    match find_from(s, FILTER_KEY@, from) {
        None => (s, count),
        Some(p) => if p < from || p + 8 > s.len() {
            (s, count)
        } else if colon_follows(s, p + 8) {
            keys_disabled(overwritten(s, p, DISABLED_KEY@), p + 8, count + 1)
        } else {
            keys_disabled(s, p + 8, count)
        },
    }
}

/// `s` with every manifest name of a filter from `from` on renamed, and how many
/// were, added to `count`.
pub open spec fn names_disabled(s: Seq<u8>, from: int, count: int) -> (Seq<u8>, int)
    decreases s.len() - from,
{
    match find_from(s, FILTER_ENTRY@, from) {
        None => (s, count),
        Some(p) => if p < from || p + 20 > s.len() {
            (s, count)
        } else {
            names_disabled(overwritten(s, p, DISABLED_ENTRY@), p + 20, count + 1)
        },
    }
}

/// `s` with its filter recipes disabled, and how many were.
pub open spec fn filters_disabled(s: Seq<u8>) -> (Seq<u8>, int) {
    let keys = keys_disabled(s, 0, 0);
    names_disabled(keys.0, 0, keys.1)
}

/// Whether `t` is `s` with some letters `e` turned into `E`.
pub open spec fn raised(s: Seq<u8>, t: Seq<u8>) -> bool {
    &&& t.len() == s.len()
    &&& forall|i: int| 0 <= i < s.len() ==> #[trigger] t[i] == s[i] || (s[i] == 0x65 && t[i] == 0x45)
}

pub proof fn lemma_raised_trans(a: Seq<u8>, b: Seq<u8>, c: Seq<u8>)
    requires
        raised(a, b),
        raised(b, c),
    ensures
        raised(a, c),
{
    assert forall|i: int| 0 <= i < a.len() implies #[trigger] c[i] == a[i] || (a[i] == 0x65 && c[i]
        == 0x45) by {
        assert(b[i] == a[i] || (a[i] == 0x65 && b[i] == 0x45));
    }
}

pub proof fn lemma_overwrite_raises(s: Seq<u8>, p: int, from: Seq<u8>, to: Seq<u8>)
    requires
        occurs_at(s, from, p),
        from.len() == to.len(),
        forall|i: int|
            0 <= i < from.len() ==> #[trigger] to[i] == from[i] || (from[i] == 0x65 && to[i] == 0x45),
    ensures
        raised(s, overwritten(s, p, to)),
{
    let t = overwritten(s, p, to);
    assert(t.len() == s.len());
    assert forall|i: int| 0 <= i < s.len() implies #[trigger] t[i] == s[i] || (s[i] == 0x65 && t[i]
        == 0x45) by {
        if p <= i < p + from.len() {
            assert(s.subrange(p, p + from.len())[i - p] == s[i]);
            assert(t[i] == to[i - p]);
        }
    }
}

pub proof fn lemma_keys_disabled_raises(s: Seq<u8>, from: int, count: int)
    requires
        0 <= from,
    ensures
        raised(s, keys_disabled(s, from, count).0),
        count <= keys_disabled(s, from, count).1 <= count + s.len(),
        from <= s.len() ==> keys_disabled(s, from, count).1 <= count + s.len() - from,
    decreases s.len() - from,
{
    lemma_find_from_some(s, FILTER_KEY@, from);
    match find_from(s, FILTER_KEY@, from) {
        None => {},
        Some(p) => {
            assert(FILTER_KEY@.len() == 8);
            if colon_follows(s, p + 8) {
                assert(FILTER_KEY@ =~= seq![0x22u8, 0x66, 0x69, 0x6c, 0x74, 0x65, 0x72, 0x22]);
                assert(DISABLED_KEY@ =~= seq![0x22u8, 0x66, 0x69, 0x6c, 0x74, 0x45, 0x72, 0x22]);
                lemma_overwrite_raises(s, p, FILTER_KEY@, DISABLED_KEY@);
                let t = overwritten(s, p, DISABLED_KEY@);
                lemma_keys_disabled_raises(t, p + 8, count + 1);
                lemma_raised_trans(s, t, keys_disabled(t, p + 8, count + 1).0);
            } else {
                lemma_keys_disabled_raises(s, p + 8, count);
            }
        },
    }
}

pub proof fn lemma_names_disabled_raises(s: Seq<u8>, from: int, count: int)
    requires
        0 <= from,
    ensures
        raised(s, names_disabled(s, from, count).0),
        count <= names_disabled(s, from, count).1 <= count + s.len(),
        from <= s.len() ==> names_disabled(s, from, count).1 <= count + s.len() - from,
    decreases s.len() - from,
{
    lemma_find_from_some(s, FILTER_ENTRY@, from);
    match find_from(s, FILTER_ENTRY@, from) {
        None => {},
        Some(p) => {
            assert(FILTER_ENTRY@ =~= seq![
                0x22u8,
                0x6e,
                0x61,
                0x6d,
                0x65,
                0x22,
                0x3a,
                0x22,
                0x66,
                0x69,
                0x6c,
                0x74,
                0x65,
                0x72,
                0x2e,
                0x69,
                0x6e,
                0x66,
                0x6f,
                0x22,
            ]);
            assert(DISABLED_ENTRY@ =~= FILTER_ENTRY@.update(12, 0x45u8));
            lemma_overwrite_raises(s, p, FILTER_ENTRY@, DISABLED_ENTRY@);
            let t = overwritten(s, p, DISABLED_ENTRY@);
            lemma_names_disabled_raises(t, p + 20, count + 1);
            lemma_raised_trans(s, t, names_disabled(t, p + 20, count + 1).0);
        },
    }
}

/// Disabling filter recipes keeps the length and changes nothing but letters `e`
/// into `E`.
pub proof fn disabling_filters_keeps_layout(s: Seq<u8>)
    ensures
        raised(s, filters_disabled(s).0),
{
    lemma_keys_disabled_raises(s, 0, 0);
    let keys = keys_disabled(s, 0, 0);
    lemma_names_disabled_raises(keys.0, 0, keys.1);
    lemma_raised_trans(s, keys.0, filters_disabled(s).0);
}

/// Disable Apple's display-time filter recipe after raster watermark restore.
///
/// Photos may keep the returned edit recipe in an Exif/XMP JSON payload even
/// after its rendered primary image has been replaced. If that recipe remains
/// named `filter`, Photos applies it again to the newly restored watermark.
/// Rename the JSON key and OPPO manifest entry in place so the already-rendered
/// pixels are preserved without changing ISOBMFF item offsets or lengths. This
/// is intentionally limited to the exact metadata forms and leaves ordinary
/// text values untouched.
pub fn disable_apple_filter_recipe(data: &mut [u8]) -> (r: usize)
    requires
        2 * old(data)@.len() <= usize::MAX,
    ensures
        (final(data)@, r as int) == filters_disabled(old(data)@),
{
    let ghost s = data@;
    let mut replacements: usize = 0;
    let mut offset: usize = 0;
    let len: usize = data.len();
    proof {
        lemma_keys_disabled_raises(s, 0, 0);
        assert(FILTER_KEY@.len() == 8);
        assert(DISABLED_KEY@.len() == 8);
        assert(FILTER_ENTRY@.len() == 20);
        assert(DISABLED_ENTRY@.len() == 20);
    }
    let mut done: bool = false;
    while !done
        invariant
            data@.len() == len,
            2 * len <= usize::MAX,
            offset <= len,
            replacements <= offset,
            FILTER_KEY@.len() == 8,
            DISABLED_KEY@.len() == 8,
            !done ==> keys_disabled(s, 0, 0) == keys_disabled(
                data@,
                offset as int,
                replacements as int,
            ),
            done ==> keys_disabled(s, 0, 0) == (data@, replacements as int),
        decreases len - offset, !done as int,
    {
        match find_bytes(data, FILTER_KEY.as_slice(), offset) {
            None => {
                done = true;
            },
            Some(start) => {
                let cursor: usize = skip_space(data, start + 8);
                if cursor < data.len() && data[cursor] == 0x3a {
                    overwrite(data, start, DISABLED_KEY.as_slice());
                    replacements = replacements + 1;
                }
                offset = start + 8;
            },
        }
    }
    let ghost keys = keys_disabled(s, 0, 0);
    assert(keys == (data@, replacements as int));
    let base: usize = replacements;
    offset = 0;
    done = false;
    while !done
        invariant
            data@.len() == len,
            2 * len <= usize::MAX,
            offset <= len,
            base <= len,
            base <= replacements <= base + offset,
            FILTER_ENTRY@.len() == 20,
            DISABLED_ENTRY@.len() == 20,
            !done ==> names_disabled(keys.0, 0, keys.1) == names_disabled(
                data@,
                offset as int,
                replacements as int,
            ),
            done ==> names_disabled(keys.0, 0, keys.1) == (data@, replacements as int),
        decreases len - offset, !done as int,
    {
        match find_bytes(data, FILTER_ENTRY.as_slice(), offset) {
            None => {
                done = true;
            },
            Some(start) => {
                overwrite(data, start, DISABLED_ENTRY.as_slice());
                replacements = replacements + 1;
                offset = start + 20;
            },
        }
    }
    replacements
}

// ---------------------------------------------------------------------------
// Watermark geometry
// ---------------------------------------------------------------------------

/// The larger of what fits 32 bits.
pub open spec fn sat32(v: int) -> int {
    if v > u32::MAX {
        u32::MAX as int
    } else {
        v
    }
}

/// The watermark image and its configuration, or what is missing of them.
pub open spec fn watermark_parts(s: Seq<u8>) -> Result<(Seq<u8>, Seq<u8>), Seq<char>> {
    match tail_entry(s, "watermark"@) {
        None => Err("OPPO watermark payload is missing"@),
        Some(mark) => match tail_entry(s, "watermark.config"@) {
            None => Err("OPPO watermark config is missing"@),
            Some(config) => if config.len() < 20 || mark.len() < 24 {
                Err("OPPO watermark payload or config is truncated"@)
            } else {
                Ok((mark, config))
            },
        },
    }
}

/// Whether the size of the watermark image is the configured one and fits, with
/// its insets, an image of the given size.
pub open spec fn watermark_fits(mark: Seq<u8>, config: Seq<u8>, width: u32, height: u32) -> bool {
    &&& be32(mark, 16) == le32(config, 4)
    &&& be32(mark, 20) == le32(config, 8)
    &&& sat32(le32(config, 4) + sat32(2 * le32(config, 12))) == width
    &&& sat32(le32(config, 8) + sat32(2 * le32(config, 16))) <= height
}

/// Whether a payload is a PNG image.
pub open spec fn is_png(mark: Seq<u8>) -> bool {
    starts_with(mark, PNG_MAGIC@) && occurs_at(mark, PNG_IHDR@, 12)
}

/// The canvas at the bottom of an image that is reserved for its watermark, or
/// why there is none. `None` where the insets do not fit 32 bits.
pub open spec fn canvas_rect(s: Seq<u8>, width: u32, height: u32) -> Option<
    Result<(u32, u32, u32, u32), Seq<char>>,
> {
    match watermark_parts(s) {
        Err(e) => Some(Err(e)),
        Ok((mark, config)) => if !is_png(mark) {
            Some(Err("OPPO watermark is not a PNG payload"@))
        } else if !watermark_fits(mark, config, width, height) {
            Some(Err("OPPO watermark geometry does not match image dimensions"@))
        } else {
            let canvas = le32(config, 8) + 2 * le32(config, 16);
            if canvas > u32::MAX {
                None
            } else {
                Some(Ok((0, (height - canvas) as u32, width, canvas as u32)))
            }
        },
    }
}

/// The rectangle of the watermark image inside its canvas, or why there is none.
/// `None` where the insets do not fit 32 bits.
pub open spec fn overlay_rect(s: Seq<u8>, width: u32, height: u32) -> Option<
    Result<(u32, u32, u32, u32), Seq<char>>,
> {
    match watermark_parts(s) {
        Err(e) => Some(Err(e)),
        Ok((mark, config)) => if !watermark_fits(mark, config, width, height) {
            Some(Err("OPPO watermark geometry does not match image dimensions"@))
        } else {
            let canvas = le32(config, 8) + 2 * le32(config, 16);
            if canvas > u32::MAX {
                None
            } else {
                Some(
                    Ok(
                        (
                            le32(config, 12) as u32,
                            (height - canvas + le32(config, 16)) as u32,
                            be32(mark, 16) as u32,
                            be32(mark, 20) as u32,
                        ),
                    ),
                )
            }
        },
    }
}

/// What a rectangle result says.
pub open spec fn rect_told(r: Option<Result<(u32, u32, u32, u32), String>>) -> Option<
    Result<(u32, u32, u32, u32), Seq<char>>,
> {
    match r {
        None => None,
        Some(Ok(v)) => Some(Ok(v)),
        Some(Err(e)) => Some(Err(e@)),
    }
}

fn read_watermark_parts(data: &[u8]) -> (r: Result<(Vec<u8>, Vec<u8>), String>)
    ensures
        match r {
            Ok((mark, config)) => watermark_parts(data@) == Ok::<(Seq<u8>, Seq<u8>), Seq<char>>(
                (mark@, config@),
            ) && config@.len() >= 20 && mark@.len() >= 24,
            Err(e) => watermark_parts(data@) == Err::<(Seq<u8>, Seq<u8>), Seq<char>>(e@),
        },
{
    let mark: Vec<u8> = match extract_tail_entry(data, "watermark") {
        Some(v) => v,
        None => {
            return Err("OPPO watermark payload is missing".to_string());
        },
    };
    let config: Vec<u8> = match extract_tail_entry(data, "watermark.config") {
        Some(v) => v,
        None => {
            return Err("OPPO watermark config is missing".to_string());
        },
    };
    if config.len() < 20 || mark.len() < 24 {
        return Err("OPPO watermark payload or config is truncated".to_string());
    }
    Ok((mark, config))
}

fn saturated(base: u32, inset: u32) -> (r: u32)
    ensures
        r == sat32(base + sat32(2 * inset)),
{
    let both: u64 = base as u64 + 2 * inset as u64;
    if both > u32::MAX as u64 {
        u32::MAX
    } else {
        both as u32
    }
}

fn check_watermark_fits(mark: &Vec<u8>, config: &Vec<u8>, width: u32, height: u32) -> (r: bool)
    requires
        config@.len() >= 20,
        mark@.len() >= 24,
    ensures
        r == watermark_fits(mark@, config@, width, height),
{
    let mark_width: u32 = read32(mark.as_slice(), 16, false);
    let mark_height: u32 = read32(mark.as_slice(), 20, false);
    let set_width: u32 = read32(config.as_slice(), 4, true);
    let set_height: u32 = read32(config.as_slice(), 8, true);
    let side: u32 = read32(config.as_slice(), 12, true);
    let vertical: u32 = read32(config.as_slice(), 16, true);
    mark_width == set_width && mark_height == set_height && saturated(set_width, side) == width
        && saturated(set_height, vertical) <= height
}

/// Calculate the watermark canvas; `None` where its insets do not fit 32 bits.
pub fn try_watermark_canvas_rect(data: &[u8], image_width: u32, image_height: u32) -> (r: Option<
    Result<(u32, u32, u32, u32), String>,
>)
    ensures
        rect_told(r) == canvas_rect(data@, image_width, image_height),
{
    let (mark, config): (Vec<u8>, Vec<u8>) = match read_watermark_parts(data) {
        Ok(v) => v,
        Err(e) => {
            return Some(Err(e));
        },
    };
    if !(matches_at(mark.as_slice(), PNG_MAGIC.as_slice(), 0) && matches_at(
        mark.as_slice(),
        PNG_IHDR.as_slice(),
        12,
    )) {
        return Some(Err("OPPO watermark is not a PNG payload".to_string()));
    }
    if !check_watermark_fits(&mark, &config, image_width, image_height) {
        return Some(
            Err("OPPO watermark geometry does not match image dimensions".to_string()),
        );
    }
    let canvas: u64 = read32(config.as_slice(), 8, true) as u64 + 2 * read32(
        config.as_slice(),
        16,
        true,
    ) as u64;
    if canvas > u32::MAX as u64 {
        return None;
    }
    let canvas: u32 = canvas as u32;
    Some(Ok((0, image_height - canvas, image_width, canvas)))
}

/// Calculate the complete bottom canvas reserved for OPPO's visible watermark.
/// The config stores the watermark image size and its horizontal/vertical
/// insets as little-endian u32 values at offsets 4, 8, 12 and 16.
pub fn watermark_canvas_rect(data: &[u8], image_width: u32, image_height: u32) -> (r: Result<
    (u32, u32, u32, u32),
    String,
>)
    requires
        canvas_rect(data@, image_width, image_height) is Some,
    ensures
        rect_told(Some(r)) == canvas_rect(data@, image_width, image_height),
{
    try_watermark_canvas_rect(data, image_width, image_height).unwrap()
}

/// Calculate the watermark rectangle; `None` where its insets do not fit 32 bits.
pub fn try_watermark_overlay_rect(data: &[u8], image_width: u32, image_height: u32) -> (r: Option<
    Result<(u32, u32, u32, u32), String>,
>)
    ensures
        rect_told(r) == overlay_rect(data@, image_width, image_height),
{
    let (mark, config): (Vec<u8>, Vec<u8>) = match read_watermark_parts(data) {
        Ok(v) => v,
        Err(e) => {
            return Some(Err(e));
        },
    };
    if !check_watermark_fits(&mark, &config, image_width, image_height) {
        return Some(
            Err("OPPO watermark geometry does not match image dimensions".to_string()),
        );
    }
    let vertical: u32 = read32(config.as_slice(), 16, true);
    let canvas: u64 = read32(config.as_slice(), 8, true) as u64 + 2 * vertical as u64;
    if canvas > u32::MAX as u64 {
        return None;
    }
    let canvas: u32 = canvas as u32;
    Some(
        Ok(
            (
                read32(config.as_slice(), 12, true),
                image_height - canvas + vertical,
                read32(mark.as_slice(), 16, false),
                read32(mark.as_slice(), 20, false),
            ),
        ),
    )
}

/// Return the actual PNG overlay rectangle inside the reserved watermark
/// canvas: `(x, y, width, height)`. Unlike `watermark_canvas_rect`, this
/// excludes the transparent/configured insets and is suitable for a pixel
/// mask, so callers do not overwrite the edited background around the text.
pub fn watermark_overlay_rect(data: &[u8], image_width: u32, image_height: u32) -> (r: Result<
    (u32, u32, u32, u32),
    String,
>)
    requires
        overlay_rect(data@, image_width, image_height) is Some,
    ensures
        rect_told(Some(r)) == overlay_rect(data@, image_width, image_height),
{
    try_watermark_overlay_rect(data, image_width, image_height).unwrap()
}

/// The watermark image lies inside its canvas.
pub proof fn overlay_lies_in_canvas(s: Seq<u8>, width: u32, height: u32)
    requires
        canvas_rect(s, width, height) matches Some(Ok(_)),
        overlay_rect(s, width, height) matches Some(Ok(_)),
    ensures
        ({
            let canvas = canvas_rect(s, width, height)->0->Ok_0;
            let mark = overlay_rect(s, width, height)->0->Ok_0;
            &&& canvas.1 <= mark.1
            &&& mark.1 + mark.3 <= canvas.1 + canvas.3
            &&& canvas.1 + canvas.3 == height
        }),
{
}

// ---------------------------------------------------------------------------
// JPEG images in raw bytes
// ---------------------------------------------------------------------------

/// Where a JPEG image that starts at `p` ends: behind the first end marker.
pub open spec fn jpeg_end(s: Seq<u8>, p: int) -> Option<int> {
    match find_from(s, JPEG_END@, p + 3) {
        Some(e) => Some(e + 2),
        None => None,
    }
}

/// The first JPEG image from `from` on whose length differs from the target, where
/// there is one, by less than 64: where it starts and ends.
pub open spec fn jpeg_from(s: Seq<u8>, from: int, target: Option<int>) -> Option<(int, int)>
    decreases s.len() - from,
{
    match find_from(s, JPEG_START@, from) {
        None => None,
        Some(p) => if p < from || p >= s.len() {
            None
        } else {
            match jpeg_end(s, p) {
                None => jpeg_from(s, p + 1, target),
                Some(e) => match target {
                    None => Some((p, e)),
                    Some(t) => if -64 < e - p - t < 64 {
                        Some((p, e))
                    } else if e <= from || e > s.len() {
                        None
                    } else {
                        jpeg_from(s, e, target)
                    },
                },
            }
        },
    }
}

/// Find a JPEG blob in raw bytes, optionally matching a target length.
pub fn find_jpeg_in_data(data: &[u8], target_length: Option<usize>) -> (r: Option<Vec<u8>>)
    ensures
        opt_bytes(r) == (match jpeg_from(
            data@,
            0,
            match target_length {
                Some(t) => Some(t as int),
                None => None,
            },
        ) {
            Some((p, e)) => Some(data@.subrange(p, e)),
            None => None,
        }),
{
    let ghost target = match target_length {
        Some(t) => Some(t as int),
        None => None::<int>,
    };
    assert(JPEG_START@.len() == 3);
    assert(JPEG_END@.len() == 2);
    let mut pos: usize = 0;
    let len: usize = data.len();
    loop
        invariant
            pos <= data@.len(),
            len == data@.len(),
            len == data.len(),
            JPEG_START@.len() == 3,
            JPEG_END@.len() == 2,
            target == (match target_length {
                Some(t) => Some(t as int),
                None => None::<int>,
            }),
            jpeg_from(data@, 0, target) == jpeg_from(data@, pos as int, target),
        decreases data@.len() - pos,
    {
        let start: usize = match find_bytes(data, JPEG_START.as_slice(), pos) {
            None => {
                return None;
            },
            Some(p) => p,
        };
        match find_bytes(data, JPEG_END.as_slice(), start + 3) {
            None => {
                pos = start + 1;
            },
            Some(e) => {
                let end: usize = e + 2;
                let size: usize = end - start;
                match target_length {
                    None => {
                        return Some(copy_range(data, start, end));
                    },
                    Some(t) => {
                        let difference: usize = if size >= t {
                            size - t
                        } else {
                            t - size
                        };
                        if difference < 64 {
                            return Some(copy_range(data, start, end));
                        }
                        pos = end;
                    },
                }
            },
        }
    }
}

// ---------------------------------------------------------------------------
// Gain-map metadata in the extension
// ---------------------------------------------------------------------------

/// The bytes that an entry of the extension names: `Some(None)` where they do not
/// lie in it, `None` where their end does not fit the machine.
pub open spec fn entry_slice(ext: Seq<u8>, json_start: int, e: ManifestView) -> Option<Option<Seq<u8>>> {
    let start = (json_start - e.offset) % 0x1_0000_0000_0000_0000;
    if start + e.length > usize::MAX {
        None
    } else {
        Some(entry_bytes(ext, json_start, e))
    }
}

/// The view of optional bytes that may not be had.
pub open spec fn opt_opt_bytes(b: Option<Option<Vec<u8>>>) -> Option<Option<Seq<u8>>> {
    match b {
        None => None,
        Some(v) => Some(opt_bytes(v)),
    }
}

fn read_entry_slice(ext: &[u8], json_start: usize, e: &ManifestEntry) -> (r: Option<Option<Vec<u8>>>)
    ensures
        opt_opt_bytes(r) == entry_slice(ext@, json_start as int, e@),
{
    let start: u64 = (json_start as u64).wrapping_sub(e.offset);
    if start > usize::MAX as u64 || e.length > usize::MAX as u64 - start {
        return None;
    }
    Some(read_entry(ext, json_start, e))
}

/// The Ultra HDR metadata of a file.
pub struct UhdrParts {
    /// The metadata block: at least twenty little-endian floats.
    pub info: Vec<u8>,
    /// The gain map JPEG, where it lies in the extension.
    pub gainmap: Option<Vec<u8>>,
    /// All entries of the manifest.
    pub entries: Vec<ManifestEntry>,
}

/// What the Ultra HDR metadata of a file says.
#[verifier::ext_equal]
pub struct UhdrView {
    pub info: Seq<u8>,
    pub gainmap: Option<Seq<u8>>,
    pub entries: Seq<ManifestView>,
}

impl View for UhdrParts {
    type V = UhdrView;

    open spec fn view(&self) -> UhdrView {
        UhdrView {
            info: self.info@,
            gainmap: opt_bytes(self.gainmap),
            entries: views(self.entries@),
        }
    }
}

/// The Ultra HDR metadata of a file: both of its entries must be listed and the
/// metadata block must hold twenty floats. `Some(None)` where there is none,
/// `None` where the end of an entry does not fit the machine.
pub open spec fn uhdr_of(s: Seq<u8>) -> Option<Option<UhdrView>> {
    let ext = extension_of(s);
    match manifest_of(ext) {
        None => Some(None),
        Some((entries, start, _)) => match (
            first_where(entries, entry_named("local.uhdr.gainmap.info"@)),
            first_where(entries, entry_named("local.uhdr.gainmap.data"@)),
        ) {
            (Some(info), Some(data)) => match entry_slice(ext, start, info) {
                None => None,
                Some(None) => Some(None),
                Some(Some(info)) => if info.len() < 80 {
                    Some(None)
                } else {
                    match entry_slice(ext, start, data) {
                        None => None,
                        Some(gainmap) => Some(Some(UhdrView { info, gainmap, entries })),
                    }
                },
            },
            _ => Some(None),
        },
    }
}

/// Read the Ultra HDR metadata of a file; `None` where the end of an entry does
/// not fit the machine.
pub fn extract_uhdr_parts(data: &[u8]) -> (r: Option<Option<UhdrParts>>)
    ensures
        match r {
            None => uhdr_of(data@) is None,
            Some(None) => uhdr_of(data@) == Some(None::<UhdrView>),
            Some(Some(p)) => uhdr_of(data@) == Some(Some(p@)),
        },
{
    let from: usize = find_extension_region(data);
    let ext: &[u8] = vstd::slice::slice_subrange(data, from, data.len());
    let (entries, start, _): (Vec<ManifestEntry>, usize, usize) = match parse_manifest(ext) {
        Some(m) => m,
        None => {
            return Some(None);
        },
    };
    let (info, gainmap): (Vec<u8>, Option<Vec<u8>>) = match (
        find_entry_named(&entries, "local.uhdr.gainmap.info"),
        find_entry_named(&entries, "local.uhdr.gainmap.data"),
    ) {
        (Some(info), Some(gain)) => match read_entry_slice(ext, start, info) {
            None => {
                return None;
            },
            Some(None) => {
                return Some(None);
            },
            Some(Some(info)) => {
                if info.len() < 80 {
                    return Some(None);
                }
                match read_entry_slice(ext, start, gain) {
                    None => {
                        return None;
                    },
                    Some(gainmap) => (info, gainmap),
                }
            },
        },
        _ => {
            return Some(None);
        },
    };
    Some(Some(UhdrParts { info, gainmap, entries }))
}

/// The places from `from` on where a 144-byte metadata block may start: eight
/// bytes before each float 144 with room for the block. `None` where there are
/// not eight bytes before one.
pub open spec fn blocks_from(s: Seq<u8>, from: int, acc: Seq<usize>) -> Option<Seq<usize>>
    decreases s.len() - from,
{
    match find_from(s, FLOAT_144@, from) {
        None => Some(acc),
        Some(p) => if p < 8 {
            None
        } else if p < from || p >= s.len() {
            Some(acc)
        } else if p - 8 + 144 <= s.len() {
            blocks_from(s, p + 1, acc.push((p - 8) as usize))
        } else {
            blocks_from(s, p + 1, acc)
        },
    }
}

/// Find the places where a 144-byte metadata block may start; `None` where there
/// are not eight bytes before a float 144.
pub fn float144_blocks(ext: &[u8]) -> (r: Option<Vec<usize>>)
    ensures
        match r {
            None => blocks_from(ext@, 0, Seq::empty()) is None,
            Some(v) => blocks_from(ext@, 0, Seq::empty()) == Some(v@) && forall|i: int|
                0 <= i < v@.len() ==> #[trigger] v@[i] + 144 <= ext@.len(),
        },
{
    let mut blocks: Vec<usize> = Vec::new();
    let mut off: usize = 0;
    assert(FLOAT_144@.len() == 4);
    loop
        invariant
            off <= ext@.len(),
            FLOAT_144@.len() == 4,
            blocks_from(ext@, 0, Seq::empty()) == blocks_from(ext@, off as int, blocks@),
            forall|i: int| 0 <= i < blocks@.len() ==> #[trigger] blocks@[i] + 144 <= ext@.len(),
        decreases ext@.len() - off,
    {
        match find_bytes(ext, FLOAT_144.as_slice(), off) {
            None => {
                return Some(blocks);
            },
            Some(p) => {
                if p < 8 {
                    return None;
                }
                if ext.len() - (p - 8) >= 144 {
                    blocks.push(p - 8);
                }
                off = p + 1;
            },
        }
    }
}

/// The places that the entries from the `i`-th on name as metadata blocks, up to
/// one whose offset lies before the data.
pub open spec fn named_blocks_from(
    len: int,
    entries: Seq<ManifestView>,
    json_start: int,
    i: int,
    acc: Seq<usize>,
) -> Seq<usize>
    decreases entries.len() - i,
{
    if i >= entries.len() {
        acc
    } else if entries[i].name == "local.hdr.meta.data"@ && entries[i].length >= 144 {
        let at = json_start - entries[i].offset;
        if at < 0 {
            acc
        } else if at + 144 <= len {
            named_blocks_from(len, entries, json_start, i + 1, acc.push(at as usize))
        } else {
            named_blocks_from(len, entries, json_start, i + 1, acc)
        }
    } else {
        named_blocks_from(len, entries, json_start, i + 1, acc)
    }
}

/// The places that the manifest of `s` names as metadata blocks.
pub open spec fn named_blocks(s: Seq<u8>) -> Seq<usize> {
    match manifest_of(s) {
        None => Seq::empty(),
        Some((entries, start, _)) => named_blocks_from(
            s.len() as int,
            entries,
            start,
            0,
            Seq::empty(),
        ),
    }
}

/// Find the places that the manifest names as metadata blocks.
pub fn manifest_blocks(data: &[u8]) -> (r: Vec<usize>)
    ensures
        r@ == named_blocks(data@),
        forall|i: int| 0 <= i < r@.len() ==> #[trigger] r@[i] + 144 <= data@.len(),
{
    let mut blocks: Vec<usize> = Vec::new();
    let (entries, start, _): (Vec<ManifestEntry>, usize, usize) = match parse_manifest(data) {
        Some(m) => m,
        None => {
            assert(blocks@ =~= named_blocks(data@));
            return blocks;
        },
    };
    let ghost v = views(entries@);
    let mut i: usize = 0;
    let len: usize = data.len();
    while i < entries.len()
        invariant
            i <= entries@.len(),
            v == views(entries@),
            len == data@.len(),
            start <= len,
            named_blocks(data@) == named_blocks_from(
                data@.len() as int,
                v,
                start as int,
                i as int,
                blocks@,
            ),
            forall|i: int| 0 <= i < blocks@.len() ==> #[trigger] blocks@[i] + 144 <= data@.len(),
        decreases entries@.len() - i,
    {
        assert(v[i as int] == entries@[i as int]@);
        if same_text(entries[i].name.as_str(), "local.hdr.meta.data") && entries[i].length >= 144 {
            if entries[i].offset > start as u64 {
                return blocks;
            }
            let at: usize = start - entries[i].offset as usize;
            if len - at >= 144 {
                blocks.push(at);
            }
        }
        i = i + 1;
    }
    blocks
}

/// The mask image of an LHDR file: what the manifest names, or the first JPEG
/// image where there is no manifest. `None` where the end of the entry does not
/// fit the machine.
pub open spec fn mask_of(s: Seq<u8>) -> Option<Option<Seq<u8>>> {
    let ext = extension_of(s);
    match manifest_of(ext) {
        Some((entries, start, _)) => match first_where(
            entries,
            entry_named("local.hdr.linear.mask"@),
        ) {
            None => Some(None),
            Some(e) => entry_slice(ext, start, e),
        },
        None => Some(
            match jpeg_from(ext, 0, None) {
                Some((p, e)) => Some(ext.subrange(p, e)),
                None => None,
            },
        ),
    }
}

/// Read the mask image of an LHDR file; `None` where the end of its entry does
/// not fit the machine.
pub fn extract_mask(data: &[u8]) -> (r: Option<Option<Vec<u8>>>)
    ensures
        opt_opt_bytes(r) == mask_of(data@),
{
    let from: usize = find_extension_region(data);
    let ext: &[u8] = vstd::slice::slice_subrange(data, from, data.len());
    match parse_manifest(ext) {
        Some((entries, start, _)) => match find_entry_named(&entries, "local.hdr.linear.mask") {
            None => Some(None),
            Some(e) => read_entry_slice(ext, start, e),
        },
        None => Some(find_jpeg_in_data(ext, None)),
    }
}

} // verus!
