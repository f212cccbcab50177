use crate::bytes::{
    find_from, find_in_any_case, int16, int32, is_space, lemma_find_from_some, lower, not_space,
    occurs_at, occurs_in_any_case, until,
};
use crate::categorize::{
    CODE_ASCII, CODE_JIS, CODE_UNICODE, CaptureMode, ClassView, ClassificationStatus,
    KNOWN_FLAGS_MASK, OPLUSTAG, OPLUS_PREFIX, OPPO_PREFIX, classification, classified, colon,
    comment_in_directories, comment_in_entries, comment_text, comment_value, decimal_at, has_mode,
    is_comment_entry, mode_folder, mode_key, mode_priority, prefixed_flags, selected_mode,
    stated_flags, status_text, tiff_comment, user_comment,
};
use crate::exif::{digits_end, is_digit};
use crate::live_photo::EXIF_MARKER;
use crate::makernote::{TAG_EXIF, TAG_GPS};
use crate::seqs::{lemma_first_where_at, lemma_first_where_has, lemma_first_where_none};
use crate::tail_laws::decimals_read_back;
use crate::text::{decimal_ascii, lossy_text, trim_text, trim_zeros};
use crate::tiff::{TIFF_II, TIFF_MM, tiff_little, tiff_mark_at};
use vstd::prelude::*;
use vstd::string::*;
use vstd::utf8::*;

verus! {

// ---------------------------------------------------------------------------
// Flags and modes
// ---------------------------------------------------------------------------

/// The flag that counts `unit` is set.
pub open spec fn is_set(flags: u64, unit: int) -> bool {
    (flags as int / unit) % 2 == 1
}

/// The first of the flags that count, in their order, says the mode.
pub proof fn modes_count_in_their_order(flags: u64)
    ensures
        selected_mode(flags) == if is_set(flags, 0x1_0000_0000) {
            Some(CaptureMode::Master)
        } else if is_set(flags, 0x8000_0000) {
            Some(CaptureMode::RicohGr)
        } else if is_set(flags, 0x100) {
            Some(CaptureMode::Professional)
        } else if is_set(flags, 0x10) {
            Some(CaptureMode::Portrait)
        } else if is_set(flags, 0x800) {
            Some(CaptureMode::Night)
        } else if is_set(flags, 0x4) {
            Some(CaptureMode::Panorama)
        } else if is_set(flags, 0x8) {
            Some(CaptureMode::TimeLapse)
        } else if is_set(flags, 0x2000) {
            Some(CaptureMode::UltraHighResolution)
        } else if is_set(flags, 0x4000) {
            Some(CaptureMode::IdPhoto)
        } else if is_set(flags, 0x200) {
            Some(CaptureMode::Sticker)
        } else if is_set(flags, 0x1000) {
            Some(CaptureMode::EnhancedText)
        } else if is_set(flags, 0x40_0000) {
            Some(CaptureMode::GroupPhoto)
        } else if is_set(flags, 0x8000) {
            Some(CaptureMode::DoubleExposure)
        } else if is_set(flags, 0x2) {
            Some(CaptureMode::Beauty)
        } else {
            None
        },
{
    assert({
        &&& (flags & 0x1_0000_0000 != 0) == ((flags / 0x1_0000_0000) % 2 == 1)
        &&& (flags & 0x8000_0000 != 0) == ((flags / 0x8000_0000) % 2 == 1)
        &&& (flags & 0x100 != 0) == ((flags / 0x100) % 2 == 1)
        &&& (flags & 0x10 != 0) == ((flags / 0x10) % 2 == 1)
        &&& (flags & 0x800 != 0) == ((flags / 0x800) % 2 == 1)
        &&& (flags & 0x4 != 0) == ((flags / 0x4) % 2 == 1)
        &&& (flags & 0x8 != 0) == ((flags / 0x8) % 2 == 1)
        &&& (flags & 0x2000 != 0) == ((flags / 0x2000) % 2 == 1)
        &&& (flags & 0x4000 != 0) == ((flags / 0x4000) % 2 == 1)
        &&& (flags & 0x200 != 0) == ((flags / 0x200) % 2 == 1)
        &&& (flags & 0x1000 != 0) == ((flags / 0x1000) % 2 == 1)
        &&& (flags & 0x40_0000 != 0) == ((flags / 0x40_0000) % 2 == 1)
        &&& (flags & 0x8000 != 0) == ((flags / 0x8000) % 2 == 1)
        &&& (flags & 0x2 != 0) == ((flags / 0x2) % 2 == 1)
    }) by (bit_vector);
    let order = mode_priority();
    let p = has_mode(flags);
    assert(order.len() == 14);
    lemma_first_where_has(order, p);
    if exists|i: int| 0 <= i < 14 && p(#[trigger] order[i]) {
        let i = lemma_least(order, p, 0);
        lemma_first_where_at(order, p, i);
        assert(forall|j: int| 0 <= j < i ==> !p(#[trigger] order[j]));
        assert(i > 0 ==> !p(order[0]));
        assert(i > 1 ==> !p(order[1]));
        assert(i > 2 ==> !p(order[2]));
        assert(i > 3 ==> !p(order[3]));
        assert(i > 4 ==> !p(order[4]));
        assert(i > 5 ==> !p(order[5]));
        assert(i > 6 ==> !p(order[6]));
        assert(i > 7 ==> !p(order[7]));
        assert(i > 8 ==> !p(order[8]));
        assert(i > 9 ==> !p(order[9]));
        assert(i > 10 ==> !p(order[10]));
        assert(i > 11 ==> !p(order[11]));
        assert(i > 12 ==> !p(order[12]));
    } else {
        lemma_first_where_none(order, p);
        assert(!p(order[0]) && !p(order[1]) && !p(order[2]) && !p(order[3]) && !p(order[4]) && !p(order[5])
            && !p(order[6]) && !p(order[7]) && !p(order[8]) && !p(order[9]) && !p(order[10]) && !p(order[11])
            && !p(order[12]) && !p(order[13]));
    }
}

proof fn lemma_least<T>(s: Seq<T>, p: spec_fn(T) -> bool, from: int) -> (i: int)
    requires
        0 <= from,
        forall|j: int| 0 <= j < from ==> !p(#[trigger] s[j]),
        exists|j: int| 0 <= j < s.len() && p(#[trigger] s[j]),
    ensures
        0 <= i < s.len(),
        p(s[i]),
        forall|j: int| 0 <= j < i ==> !p(#[trigger] s[j]),
    decreases s.len() - from,
{
    if from < s.len() && p(s[from]) {
        from
    } else {
        lemma_least(s, p, from + 1)
    }
}

/// Flags 0 to 32 and 62 are known. A comment with flags has the mode that they say; without one it is
/// normal where all its flags are known, and of no mode else.
pub proof fn unknown_flags_are_told(comment: Seq<char>, flags: u64)
    requires
        stated_flags(encode_utf8(comment)) == Some(flags),
    ensures
        ({
            let c = classified(comment);
            let unknown = (flags as int / 0x2_0000_0000) % 0x2000_0000 != 0 || flags >= 0x8000_0000_0000_0000;
            &&& c.comment == Some(comment)
            &&& c.flags == Some(flags)
            &&& c.unknown + flags as int % 0x2_0000_0000 + (if is_set(flags, 0x4000_0000_0000_0000) {
                0x4000_0000_0000_0000int
            } else {
                0
            }) == flags
            &&& c.unknown != 0 <==> unknown
            &&& selected_mode(flags) is Some ==> c.mode == selected_mode(flags) && c.status
                == ClassificationStatus::Categorized
            &&& selected_mode(flags) is None && !unknown ==> c.mode == Some(CaptureMode::Normal) && c.status
                == ClassificationStatus::Categorized
            &&& selected_mode(flags) is None && unknown ==> c.mode is None && c.status
                == ClassificationStatus::UnknownFlags
        }),
{
    let mask: u64 = 0x4000_0001_ffff_ffff;
    let rest: u64 = flags & !mask;
    assert((flags & !0x4000_0001_ffff_ffffu64) as int + (flags % 0x2_0000_0000) as int + (if (flags
        / 0x4000_0000_0000_0000) % 2 == 1 {
        0x4000_0000_0000_0000u64
    } else {
        0u64
    }) as int == flags as int && ((flags & !0x4000_0001_ffff_ffffu64) != 0) == ((flags / 0x2_0000_0000)
        % 0x2000_0000 != 0 || flags >= 0x8000_0000_0000_0000)) by (bit_vector);
    assert(KNOWN_FLAGS_MASK == 0x4000_0001_ffff_ffff);
}

/// A comment without flags is malformed, and one that is nothing but zero characters and white space
/// is missing, as none is.
pub proof fn comments_without_flags_have_no_mode(text: Seq<char>)
    ensures
        classification(None) == (ClassView {
            comment: None,
            flags: None,
            unknown: 0,
            mode: None,
            status: ClassificationStatus::MissingUserComment,
        }),
        trim_text(trim_zeros(text)).len() == 0 ==> classification(Some(text)) == classification(None),
        trim_text(trim_zeros(text)).len() > 0 && stated_flags(encode_utf8(trim_text(trim_zeros(text)))) is None
            ==> classification(Some(text)) == (ClassView {
            comment: Some(trim_text(trim_zeros(text))),
            flags: None,
            unknown: 0,
            mode: None,
            status: ClassificationStatus::MalformedUserComment,
        }),
        trim_text(trim_zeros(text)).len() > 0 ==> classification(Some(text)) == classified(
            trim_text(trim_zeros(text)),
        ),
{
}

/// The names of a mode.
pub open spec fn is_named(m: CaptureMode, key: Seq<char>, folder: Seq<char>) -> bool {
    mode_key(m) == key && mode_folder(m) == folder
}

/// Each mode has its key and its folder, and each status its name.
pub proof fn modes_have_their_names()
    ensures
        is_named(CaptureMode::Master, "master"@, "大师模式"@),
        is_named(CaptureMode::RicohGr, "ricoh-gr"@, "RICOH GR"@),
        is_named(CaptureMode::Professional, "professional"@, "专业模式"@),
        is_named(CaptureMode::Portrait, "portrait"@, "人像"@),
        is_named(CaptureMode::Night, "night"@, "夜景"@),
        is_named(CaptureMode::Panorama, "panorama"@, "全景"@),
        is_named(CaptureMode::TimeLapse, "time-lapse"@, "延时摄影"@),
        is_named(CaptureMode::UltraHighResolution, "ultra-high-resolution"@, "超清"@),
        is_named(CaptureMode::IdPhoto, "id-photo"@, "证件照"@),
        is_named(CaptureMode::Sticker, "sticker"@, "贴纸"@),
        is_named(CaptureMode::EnhancedText, "enhanced-text"@, "超级文本"@),
        is_named(CaptureMode::GroupPhoto, "group-photo"@, "合影"@),
        is_named(CaptureMode::DoubleExposure, "double-exposure"@, "双重曝光"@),
        is_named(CaptureMode::Beauty, "beauty"@, "美颜"@),
        is_named(CaptureMode::Normal, "normal"@, "普通拍照"@),
        status_text(ClassificationStatus::Categorized) == "categorized"@,
        status_text(ClassificationStatus::MissingUserComment) == "missing-user-comment"@,
        status_text(ClassificationStatus::MalformedUserComment) == "malformed-user-comment"@,
        status_text(ClassificationStatus::UnknownFlags) == "unknown-flags"@,
        status_text(ClassificationStatus::UnreadableImage) == "unreadable-image"@,
{
}

// ---------------------------------------------------------------------------
// Stated flags
// ---------------------------------------------------------------------------

/// A letter of a word, whatever its case.
pub open spec fn reads(b: u8, small: u8) -> bool {
    b == small || 0x61 <= small <= 0x7a && b == small - 0x20
}

/// The key `oplustag` stands at `i`, whatever the case.
pub open spec fn key_at(s: Seq<u8>, i: int) -> bool {
    &&& 0 <= i && i + 8 <= s.len()
    &&& reads(s[i], 0x6f) && reads(s[i + 1], 0x70) && reads(s[i + 2], 0x6c) && reads(s[i + 3], 0x75)
    &&& reads(s[i + 4], 0x73) && reads(s[i + 5], 0x74) && reads(s[i + 6], 0x61) && reads(s[i + 7], 0x67)
}

/// The prefix `oplus_` stands at `i`, whatever the case.
pub open spec fn oplus_at(s: Seq<u8>, i: int) -> bool {
    &&& 0 <= i && i + 6 <= s.len()
    &&& reads(s[i], 0x6f) && reads(s[i + 1], 0x70) && reads(s[i + 2], 0x6c) && reads(s[i + 3], 0x75)
    &&& reads(s[i + 4], 0x73) && s[i + 5] == 0x5f
}

/// The prefix `oppo_` stands at `i`, whatever the case.
pub open spec fn oppo_at(s: Seq<u8>, i: int) -> bool {
    &&& 0 <= i && i + 5 <= s.len()
    &&& reads(s[i], 0x6f) && reads(s[i + 1], 0x70) && reads(s[i + 2], 0x70) && reads(s[i + 3], 0x6f)
    &&& s[i + 4] == 0x5f
}

/// The number stands at `p` in decimal digits, all that are there.
pub open spec fn number_at(s: Seq<u8>, p: int, n: int) -> bool {
    let d = decimal_ascii(n);
    &&& 0 <= p && p + d.len() <= s.len()
    &&& s.subrange(p, p + d.len()) == d
    &&& p + d.len() < s.len() ==> !(0x30 <= s[p + d.len()] <= 0x39)
}

proof fn lemma_words(s: Seq<u8>, i: int)
    ensures
        occurs_in_any_case(s, OPLUSTAG@, i) <==> key_at(s, i),
        occurs_in_any_case(s, OPLUS_PREFIX@, i) <==> oplus_at(s, i),
        occurs_in_any_case(s, OPPO_PREFIX@, i) <==> oppo_at(s, i),
{
    let a = OPLUSTAG@;
    let b = OPLUS_PREFIX@;
    let c = OPPO_PREFIX@;
    assert(a.len() == 8 && b.len() == 6 && c.len() == 5);
    if occurs_in_any_case(s, a, i) {
        assert(lower(a[0]) == lower(s[i + 0]) && lower(a[1]) == lower(s[i + 1]) && lower(a[2]) == lower(s[i + 2])
            && lower(a[3]) == lower(s[i + 3]) && lower(a[4]) == lower(s[i + 4]) && lower(a[5]) == lower(s[i + 5])
            && lower(a[6]) == lower(s[i + 6]) && lower(a[7]) == lower(s[i + 7]));
    }
    if occurs_in_any_case(s, b, i) {
        assert(lower(b[0]) == lower(s[i + 0]) && lower(b[1]) == lower(s[i + 1]) && lower(b[2]) == lower(s[i + 2])
            && lower(b[3]) == lower(s[i + 3]) && lower(b[4]) == lower(s[i + 4]) && lower(b[5]) == lower(s[i + 5]));
    }
    if occurs_in_any_case(s, c, i) {
        assert(lower(c[0]) == lower(s[i + 0]) && lower(c[1]) == lower(s[i + 1]) && lower(c[2]) == lower(s[i + 2])
            && lower(c[3]) == lower(s[i + 3]) && lower(c[4]) == lower(s[i + 4]));
    }
}

proof fn lemma_number(s: Seq<u8>, p: int, n: int)
    requires
        0 <= n <= u64::MAX,
        number_at(s, p, n),
    ensures
        decimal_at(s, p) == Some(n as u64),
{
    decimals_read_back(n);
    let d = decimal_ascii(n);
    assert forall|i: int| p <= i < p + d.len() implies is_digit(#[trigger] s[i]) by {
        assert(s.subrange(p, p + d.len())[i - p] == s[i]);
        assert(is_digit(d[i - p]));
    }
    lemma_all_digits(s, p, p + d.len());
}

proof fn lemma_all_digits(s: Seq<u8>, p: int, end: int)
    requires
        0 <= p <= end <= s.len(),
        forall|i: int| p <= i < end ==> is_digit(#[trigger] s[i]),
        end < s.len() ==> !is_digit(s[end]),
    ensures
        digits_end(s, p) == end,
    decreases end - p,
{
    if p < end {
        lemma_all_digits(s, p + 1, end);
    }
}

proof fn lemma_no_key(s: Seq<u8>, from: int)
    requires
        0 <= from,
        forall|i: int| from <= i ==> !#[trigger] key_at(s, i),
    ensures
        find_in_any_case(s, OPLUSTAG@, from) is None,
    decreases s.len() + 1 - from,
{
    lemma_words(s, from);
    if from + 8 <= s.len() {
        assert(!key_at(s, from));
        lemma_no_key(s, from + 1);
    }
}

proof fn lemma_first_key(s: Seq<u8>, from: int, k: int)
    requires
        0 <= from <= k,
        key_at(s, k),
        forall|i: int| from <= i < k ==> !#[trigger] key_at(s, i),
    ensures
        find_in_any_case(s, OPLUSTAG@, from) == Some(k),
    decreases k - from,
{
    lemma_words(s, from);
    if from < k {
        assert(!key_at(s, from));
        lemma_first_key(s, from + 1, k);
    }
}

#[verifier::rlimit(40)]
proof fn lemma_first_prefix(s: Seq<u8>, from: int, k: int)
    requires
        0 <= from <= k <= s.len(),
        k < s.len() ==> oplus_at(s, k) || oppo_at(s, k),
        forall|i: int| from <= i < k ==> !(#[trigger] oplus_at(s, i)) && !oppo_at(s, i),
    ensures
        k == s.len() ==> prefixed_flags(s, from) is None,
        k < s.len() ==> prefixed_flags(s, from) == decimal_at(
            s,
            k + if oplus_at(s, k) {
                6int
            } else {
                5
            },
        ),
    decreases k - from,
{
    lemma_words(s, from);
    if from < k {
        assert(!oplus_at(s, from));
        assert forall|i: int| from + 1 <= i < k implies !(#[trigger] oplus_at(s, i)) && !oppo_at(s, i) by {
            assert(from <= i < k);
        }
        lemma_first_prefix(s, from + 1, k);
    }
}

/// A number behind the first prefix, `oplus_` or `oppo_` in any case, is the flags of a comment that
/// has no key. Without a prefix either there are no flags.
pub proof fn prefixed_numbers_are_flags(s: Seq<u8>, k: int, n: u64)
    requires
        forall|i: int| 0 <= i ==> !#[trigger] key_at(s, i),
        0 <= k <= s.len(),
        forall|i: int| 0 <= i < k ==> !(#[trigger] oplus_at(s, i)) && !oppo_at(s, i),
    ensures
        oplus_at(s, k) && number_at(s, k + 6, n as int) ==> stated_flags(s) == Some(n),
        oppo_at(s, k) && number_at(s, k + 5, n as int) ==> stated_flags(s) == Some(n),
        k == s.len() ==> stated_flags(s) is None,
{
    lemma_no_key(s, 0);
    if oplus_at(s, k) || oppo_at(s, k) || k == s.len() {
        lemma_first_prefix(s, 0, k);
    }
    if oplus_at(s, k) && number_at(s, k + 6, n as int) {
        lemma_number(s, k + 6, n as int);
    }
    if oppo_at(s, k) && number_at(s, k + 5, n as int) {
        lemma_number(s, k + 5, n as int);
    }
}

proof fn lemma_colon(s: Seq<u8>, from: int, c: int)
    requires
        0 <= from <= c < s.len(),
        s[c] == 0x3a,
        forall|i: int| from <= i < c ==> #[trigger] s[i] != 0x3a,
    ensures
        until(s, from, colon()) == c,
    decreases c - from,
{
    if from < c {
        assert(s[from] != 0x3a);
        lemma_colon(s, from + 1, c);
    }
}

proof fn lemma_blank(s: Seq<u8>, from: int, v: int)
    requires
        0 <= from <= v < s.len(),
        !is_space(s[v]),
        forall|i: int| from <= i < v ==> is_space(#[trigger] s[i]),
    ensures
        until(s, from, not_space()) == v,
    decreases v - from,
{
    if from < v {
        assert(is_space(s[from]));
        lemma_blank(s, from + 1, v);
    }
}

/// A number behind the first key `oplustag`, in any case, is the flags of a comment: behind the next
/// colon and white space, with or without a quote before it.
pub proof fn keyed_numbers_are_flags(s: Seq<u8>, k: int, c: int, v: int, n: u64)
    requires
        key_at(s, k),
        forall|i: int| 0 <= i < k ==> !#[trigger] key_at(s, i),
        k + 8 <= c < v < s.len(),
        s[c] == 0x3a,
        forall|i: int| k + 8 <= i < c ==> #[trigger] s[i] != 0x3a,
        forall|i: int| c < i < v ==> #[trigger] s[i] == 0x20,
        s[v] == 0x22 && number_at(s, v + 1, n as int) || number_at(s, v, n as int),
    ensures
        stated_flags(s) == Some(n),
{
    lemma_first_key(s, 0, k);
    lemma_colon(s, k + 8, c);
    decimals_read_back(n as int);
    if s[v] != 0x22 {
        assert(s.subrange(v, v + decimal_ascii(n as int).len())[0] == s[v]);
        assert(is_digit(decimal_ascii(n as int)[0]));
        assert(is_digit(s[v]));
    }
    if number_at(s, v, n as int) {
        assert(s.subrange(v, v + decimal_ascii(n as int).len())[0] == s[v]);
        assert(is_digit(decimal_ascii(n as int)[0]));
        lemma_number(s, v, n as int);
    } else {
        lemma_number(s, v + 1, n as int);
    }
    lemma_blank(s, c + 1, v);
}

// ---------------------------------------------------------------------------
// Comments in TIFF data
// ---------------------------------------------------------------------------

/// The text of a comment is what stands behind one of the codes for ASCII, Unicode and JIS, or the
/// whole value without a code, without zero characters and white space around it.
pub proof fn comments_are_read_behind_their_code(value: Seq<u8>, text: Seq<u8>)
    ensures
        ({
            let plain = trim_text(trim_zeros(lossy_text(text)));
            let told = if plain.len() == 0 {
                None
            } else {
                Some(plain)
            };
            let ascii = seq![0x41u8, 0x53, 0x43, 0x49, 0x49, 0, 0, 0];
            let unicode = seq![0x55u8, 0x4e, 0x49, 0x43, 0x4f, 0x44, 0x45, 0];
            let jis = seq![0x4au8, 0x49, 0x53, 0, 0, 0, 0, 0];
            &&& value == ascii + text || value == unicode + text || value == jis + text ==> comment_text(value)
                == told
            &&& value == text && (text.len() < 8 || text.take(8) != ascii && text.take(8) != unicode && text.take(8)
                != jis) ==> comment_text(value) == told
        }),
{
    let ascii = seq![0x41u8, 0x53, 0x43, 0x49, 0x49, 0, 0, 0];
    let unicode = seq![0x55u8, 0x4e, 0x49, 0x43, 0x4f, 0x44, 0x45, 0];
    let jis = seq![0x4au8, 0x49, 0x53, 0, 0, 0, 0, 0];
    assert(CODE_ASCII@ =~= ascii && CODE_UNICODE@ =~= unicode && CODE_JIS@ =~= jis);
    if value == ascii + text || value == unicode + text || value == jis + text {
        assert(value.skip(8) =~= text);
        if value == ascii + text {
            assert(value.subrange(0, 8) =~= ascii);
        } else if value == unicode + text {
            assert(value.subrange(0, 8) =~= unicode);
        } else {
            assert(value.subrange(0, 8) =~= jis);
        }
    } else if text.len() >= 8 {
        assert(text.subrange(0, 8) =~= text.take(8));
    }
}

/// Entry `i` of the directory at `d` is a comment of bytes, of text, or of no stated type.
pub open spec fn is_comment(s: Seq<u8>, little: bool, d: int, i: int) -> bool {
    let kind = int16(s, d + 2 + 12 * i + 2, little);
    int16(s, d + 2 + 12 * i, little) == 0x9286 && (kind == 1 || kind == 2 || kind == 7)
}

/// Entry `i` of the directory at `d` points at the directory of the camera or of the place.
pub open spec fn is_pointer(s: Seq<u8>, little: bool, d: int, i: int) -> bool {
    int16(s, d + 2 + 12 * i, little) == 0x8769 || int16(s, d + 2 + 12 * i, little) == 0x8825
}

/// The value of entry `i` of the directory at `d`: up to four bytes stand in the entry, more where it
/// says.
pub open spec fn value_is(s: Seq<u8>, little: bool, d: int, i: int, value: Seq<u8>) -> bool {
    let at = d + 2 + 12 * i;
    let from = if value.len() <= 4 {
        at + 8
    } else {
        int32(s, at + 8, little)
    };
    &&& int32(s, at + 4, little) == value.len()
    &&& from + value.len() <= s.len()
    &&& s.subrange(from, from + value.len()) == value
}

/// A directory of a number of entries stands at `d`.
pub open spec fn directory_at(s: Seq<u8>, little: bool, d: int, count: int) -> bool {
    &&& 0 < d
    &&& d + 2 + 12 * count <= s.len()
    &&& int16(s, d, little) == count
    &&& count <= 4096
}

/// TIFF data begin with their byte order, the number 42 and the place of a directory.
pub open spec fn tiff_begins(s: Seq<u8>, little: bool, d: int) -> bool {
    &&& s.len() >= 8
    &&& little ==> s[0] == 0x49 && s[1] == 0x49
    &&& !little ==> s[0] == 0x4d && s[1] == 0x4d
    &&& int16(s, 2, little) == 42
    &&& int32(s, 4, little) == d
}

pub proof fn lemma_tiff_begins(s: Seq<u8>, little: bool, d: int)
    requires
        tiff_begins(s, little, d),
    ensures
        tiff_mark_at(s, 0),
        tiff_little(s, 0) == little,
{
    let m = s.subrange(0, 2);
    assert(m[0] == s[0] && m[1] == s[1]);
    if little {
        assert(m =~= TIFF_II@);
    } else {
        assert(m =~= TIFF_MM@);
        assert(TIFF_II@[0] == 0x49);
    }
}

proof fn lemma_entry_comment(
    s: Seq<u8>,
    d: int,
    j: int,
    count: int,
    little: bool,
    pending: Seq<u32>,
    i: int,
    value: Seq<u8>,
    text: Seq<char>,
)
    requires
        0 <= j <= i < count,
        0 <= d,
        d + 2 + 12 * count <= s.len(),
        forall|k: int| j <= k < i ==> !#[trigger] is_comment(s, little, d, k),
        is_comment(s, little, d, i),
        value_is(s, little, d, i, value),
        comment_text(value) == Some(text),
    ensures
        comment_in_entries(s, d, j, count, little, pending) matches Some((Some(t), _)) && t == text,
    decreases i - j,
{
    let entry = d + 2 + 12 * j;
    let tag = int16(s, entry, little);
    let more = if tag == TAG_EXIF || tag == TAG_GPS {
        pending.push(int32(s, entry + 8, little) as u32)
    } else {
        pending
    };
    if j < i {
        assert(!is_comment(s, little, d, j));
        assert(!is_comment_entry(s, entry, little));
        lemma_entry_comment(s, d, j + 1, count, little, more, i, value, text);
    } else {
        assert(comment_value(s, entry, little) == Some(value));
    }
}

proof fn lemma_no_entry_comment(s: Seq<u8>, d: int, j: int, count: int, little: bool, pending: Seq<u32>, k: int)
    requires
        0 <= j <= count,
        forall|i: int| j <= i < count ==> !#[trigger] is_comment(s, little, d, i),
        forall|i: int| j <= i < count && i != k ==> !#[trigger] is_pointer(s, little, d, i),
        j <= k < count ==> is_pointer(s, little, d, k),
    ensures
        comment_in_entries(s, d, j, count, little, pending) == Some(
            (
                None::<Seq<char>>,
                if j <= k < count {
                    pending.push(int32(s, d + 2 + 12 * k + 8, little) as u32)
                } else {
                    pending
                },
            ),
        ),
    decreases count - j,
{
    if j < count {
        let entry = d + 2 + 12 * j;
        assert(!is_comment(s, little, d, j));
        assert(!is_comment_entry(s, entry, little));
        let tag = int16(s, entry, little);
        let more = if tag == TAG_EXIF || tag == TAG_GPS {
            pending.push(int32(s, entry + 8, little) as u32)
        } else {
            pending
        };
        if j != k {
            assert(!is_pointer(s, little, d, j));
        }
        lemma_no_entry_comment(s, d, j + 1, count, little, more, k);
    }
}

/// The first comment of the first directory is the comment of TIFF data. Where that directory has none
/// and points at just one other, it is the first comment of this one.
pub proof fn first_comments_are_read(
    s: Seq<u8>,
    little: bool,
    d: int,
    count: int,
    k: int,
    e: int,
    n: int,
    i: int,
    value: Seq<u8>,
    text: Seq<char>,
)
    requires
        tiff_begins(s, little, d),
        directory_at(s, little, d, count),
        comment_text(value) == Some(text),
    ensures
        0 <= i < count && is_comment(s, little, d, i) && value_is(s, little, d, i, value) && (forall|j: int|
            0 <= j < i ==> !#[trigger] is_comment(s, little, d, j)) ==> tiff_comment(s) == Some(text),
        ({
            &&& forall|j: int| 0 <= j < count ==> !#[trigger] is_comment(s, little, d, j)
            &&& 0 <= k < count && is_pointer(s, little, d, k)
            &&& forall|j: int| 0 <= j < count && j != k ==> !#[trigger] is_pointer(s, little, d, j)
            &&& e == int32(s, d + 2 + 12 * k + 8, little) && e != d
            &&& directory_at(s, little, e, n)
            &&& 0 <= i < n && is_comment(s, little, e, i) && value_is(s, little, e, i, value)
            &&& forall|j: int| 0 <= j < i ==> !#[trigger] is_comment(s, little, e, j)
        }) ==> tiff_comment(s) == Some(text),
{
    lemma_tiff_begins(s, little, d);
    let start = seq![d as u32];
    assert(start.drop_last() =~= Seq::<u32>::empty());
    assert(start.last() == d as u32);
    if 0 <= i < count && is_comment(s, little, d, i) && value_is(s, little, d, i, value) && (forall|j: int|
        0 <= j < i ==> !#[trigger] is_comment(s, little, d, j)) {
        lemma_entry_comment(s, d, 0, count, little, Seq::empty(), i, value, text);
    }
    if {
        &&& forall|j: int| 0 <= j < count ==> !#[trigger] is_comment(s, little, d, j)
        &&& 0 <= k < count && is_pointer(s, little, d, k)
        &&& forall|j: int| 0 <= j < count && j != k ==> !#[trigger] is_pointer(s, little, d, j)
        &&& e == int32(s, d + 2 + 12 * k + 8, little) && e != d
        &&& directory_at(s, little, e, n)
        &&& 0 <= i < n && is_comment(s, little, e, i) && value_is(s, little, e, i, value)
        &&& forall|j: int| 0 <= j < i ==> !#[trigger] is_comment(s, little, e, j)
    } {
        lemma_no_entry_comment(s, d, 0, count, little, Seq::empty(), k);
        let next = Seq::<u32>::empty().push(e as u32);
        assert(next.drop_last() =~= Seq::<u32>::empty());
        assert(next.last() == e as u32);
        lemma_entry_comment(s, e, 0, n, little, Seq::empty(), i, value, text);
        let visited = Set::<u32>::empty().insert(d as u32);
        assert(!visited.contains(e as u32));
        assert(comment_in_directories(s, little, next, visited, (s.len() - 1) as nat) == Some(text));
        assert(comment_in_directories(s, little, start, Set::empty(), s.len()) == comment_in_directories(
            s,
            little,
            next,
            visited,
            (s.len() - 1) as nat,
        ));
    }
}

/// The comment of a file is that of the TIFF data that it begins with, or behind its first Exif marker.
pub proof fn comments_are_found_in_exif(s: Seq<u8>, p: int, text: Seq<char>)
    requires
        0 <= p,
        p + 6 <= s.len(),
    ensures
        s[0] == s[1] && (s[0] == 0x49 || s[0] == 0x4d) && tiff_comment(s) == Some(text) ==> user_comment(s)
            == Some(text),
        ({
            &&& !(s[0] == s[1] && (s[0] == 0x49 || s[0] == 0x4d))
            &&& exif_at(s, p)
            &&& forall|i: int| 0 <= i < p ==> !#[trigger] exif_at(s, i)
            &&& tiff_comment(s.skip(p + 6)) == Some(text)
        }) ==> user_comment(s) == Some(text),
{
    let m = s.subrange(0, 2);
    assert(m[0] == s[0] && m[1] == s[1]);
    assert(s[0] == 0x49 && s[1] == 0x49 ==> m =~= TIFF_II@);
    assert(s[0] == 0x4d && s[1] == 0x4d ==> m =~= TIFF_MM@);
    assert(TIFF_II@[0] == 0x49 && TIFF_II@[1] == 0x49 && TIFF_MM@[0] == 0x4d && TIFF_MM@[1] == 0x4d);
    lemma_find_from_some(s, EXIF_MARKER@, 0);
    if exif_at(s, p) {
        lemma_exif_at(s, p);
        let q = find_from(s, EXIF_MARKER@, 0)->0;
        lemma_exif_at(s, q);
        if q < p {
            assert(exif_at(s, q));
        }
    }
}

/// The Exif marker stands at `i`.
pub open spec fn exif_at(s: Seq<u8>, i: int) -> bool {
    &&& 0 <= i && i + 6 <= s.len()
    &&& s[i] == 0x45 && s[i + 1] == 0x78 && s[i + 2] == 0x69 && s[i + 3] == 0x66 && s[i + 4] == 0 && s[i + 5] == 0
}

proof fn lemma_exif_at(s: Seq<u8>, i: int)
    ensures
        occurs_at(s, EXIF_MARKER@, i) <==> exif_at(s, i),
{
    if 0 <= i && i + 6 <= s.len() {
        let t = s.subrange(i, i + 6);
        assert(t[0] == s[i] && t[1] == s[i + 1] && t[2] == s[i + 2] && t[3] == s[i + 3] && t[4] == s[i + 4] && t[5]
            == s[i + 5]);
        if exif_at(s, i) {
            assert(t =~= EXIF_MARKER@);
        }
    }
}

} // verus!
