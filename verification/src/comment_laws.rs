//! What is read back of a user comment whose tag-flags were adjusted.

use crate::bytes::{be32, int16, int32, occurs_at, overwritten, pad4, put32, zeros};
use crate::exif::{
    OppoCompat, OppoUserCommentPatch, PREFIX_ASCII_OPLUS, PREFIX_ASCII_OPPO, PREFIX_LOWER_OPLUS,
    PREFIX_OPLUS, PREFIX_OPPO, TagFlagView, adjusted_comment, adjusted_digits, adjusted_extent,
    comment_range, digits_end, digits_value, exif_with_comment, is_digit, patched_media, prefix_at,
    scan_ifd, tag_flags_from, target_flags, target_flags_settle, user_comment_entry,
};
use crate::isobmff::IlocView;
use crate::round_trip::lemma_byte;
use crate::tail_laws::decimals_read_back;
use crate::text::{decimal_ascii, padded_ascii};
use crate::tiff::{int16_at, tiff_little};
use crate::tiff_laws::ordered_32_bits_read_back;
use vstd::prelude::*;
use vstd::string::*;

verus! {

// ---------------------------------------------------------------------------
// Digits
// ---------------------------------------------------------------------------

/// Leading zeros do not count.
proof fn lemma_leading_zeros(k: nat, d: Seq<u8>)
    ensures
        digits_value(Seq::new(k, |i: int| 0x30u8) + d) == digits_value(d),
    decreases k + d.len(),
{
    let z = Seq::new(k, |i: int| 0x30u8);
    let s = z + d;
    if d.len() > 0 {
        assert(s.drop_last() =~= z + d.drop_last());
        lemma_leading_zeros(k, d.drop_last());
    } else if k > 0 {
        let y = Seq::new((k - 1) as nat, |i: int| 0x30u8);
        assert(s.drop_last() =~= y + d);
        lemma_leading_zeros((k - 1) as nat, d);
    } else {
        assert(s =~= d);
    }
}

/// A number that was written with leading zeros is read back.
pub proof fn padded_decimals_read_back(n: int, width: int)
    requires
        0 <= n,
    ensures
        digits_value(padded_ascii(n, width)) == n,
        padded_ascii(n, width).len() > 0,
        padded_ascii(n, width).len() >= width,
        forall|i: int|
            0 <= i < padded_ascii(n, width).len() ==> is_digit(#[trigger] padded_ascii(n, width)[i]),
{
    let d = decimal_ascii(n);
    decimals_read_back(n);
    if d.len() < width {
        lemma_leading_zeros((width - d.len()) as nat, d);
        let p = padded_ascii(n, width);
        let k = width - d.len();
        assert forall|i: int| 0 <= i < p.len() implies is_digit(#[trigger] p[i]) by {
            if i >= k {
                assert(p[i] == d[i - k]);
            }
        }
    }
}

/// The digits that an adjusted tag-flag gets say the flags that the mode asks for, and
/// there are as many as before at least.
pub proof fn adjusted_digits_read_back(tag: TagFlagView, mode: OppoCompat)
    requires
        adjusted_digits(tag, mode) is Some,
    ensures
        digits_value(adjusted_digits(tag, mode)->0) == target_flags(tag.value, mode),
        adjusted_digits(tag, mode)->0.len() >= tag.digits_end - tag.digits_start,
{
    padded_decimals_read_back(
        target_flags(tag.value, mode) as int,
        tag.digits_end - tag.digits_start,
    );
}

// ---------------------------------------------------------------------------
// Tag-flags
// ---------------------------------------------------------------------------

/// Whether `p` is one of the prefixes.
spec fn is_prefix(p: Seq<u8>) -> bool {
    ||| p == PREFIX_ASCII_OPLUS@
    ||| p == PREFIX_ASCII_OPPO@
    ||| p == PREFIX_OPLUS@
    ||| p == PREFIX_LOWER_OPLUS@
    ||| p == PREFIX_OPPO@
}

/// No prefix holds a digit.
proof fn lemma_prefix_letters(p: Seq<u8>)
    requires
        is_prefix(p),
    ensures
        5 <= p.len() <= 11,
        forall|i: int| 0 <= i < p.len() ==> !is_digit(#[trigger] p[i]),
{
}

/// A run of digits lies in the data and ends where no digit stands.
proof fn lemma_digit_run(s: Seq<u8>, p: int)
    requires
        0 <= p <= s.len(),
    ensures
        p <= digits_end(s, p) <= s.len(),
        forall|i: int| p <= i < digits_end(s, p) ==> is_digit(#[trigger] s[i]),
        digits_end(s, p) < s.len() ==> !is_digit(s[digits_end(s, p)]),
    decreases s.len() - p,
{
    if p < s.len() && is_digit(s[p]) {
        lemma_digit_run(s, p + 1);
    }
}

/// A run of digits ends at the first byte that is none.
proof fn lemma_digit_run_ends(s: Seq<u8>, p: int, e: int)
    requires
        0 <= p <= e <= s.len(),
        forall|i: int| p <= i < e ==> is_digit(#[trigger] s[i]),
        e < s.len() ==> !is_digit(s[e]),
    ensures
        digits_end(s, p) == e,
    decreases e - p,
{
    if p < e {
        lemma_digit_run_ends(s, p + 1, e);
    }
}

/// What is found behind `acc` does not depend on it.
proof fn lemma_tags_behind(s: Seq<u8>, pos: int, acc: Seq<TagFlagView>)
    requires
        0 <= pos,
    ensures
        tag_flags_from(s, pos, acc) == acc + tag_flags_from(s, pos, Seq::empty()),
    decreases s.len() - pos,
{
    let none = Seq::<TagFlagView>::empty();
    if pos >= s.len() {
        assert(acc + none =~= acc);
    } else {
        match prefix_at(s, pos) {
            None => lemma_tags_behind(s, pos + 1, acc),
            Some((prefix, len)) => {
                let start = pos + len;
                let end = digits_end(s, start);
                let value = digits_value(s.subrange(start, end));
                if end > start && value <= u32::MAX {
                    let t = TagFlagView {
                        prefix,
                        offset: pos,
                        digits_start: start,
                        digits_end: end,
                        value: value as u32,
                    };
                    lemma_tags_behind(s, start, acc.push(t));
                    lemma_tags_behind(s, start, none.push(t));
                    let rest = tag_flags_from(s, start, none);
                    assert(acc.push(t) + rest =~= acc + (none.push(t) + rest));
                } else {
                    lemma_tags_behind(s, start, acc);
                }
            },
        }
    }
}

/// Whether `t` is a tag-flag of `s`.
pub open spec fn stands_in(t: TagFlagView, s: Seq<u8>) -> bool {
    &&& 0 <= t.offset < s.len()
    &&& prefix_at(s, t.offset) == Some((t.prefix, t.digits_start - t.offset))
    &&& t.digits_end == digits_end(s, t.digits_start)
    &&& t.digits_end > t.digits_start
    &&& t.value == digits_value(s.subrange(t.digits_start, t.digits_end))
}

/// The first tag-flag that is found stands in the data.
proof fn lemma_first_tag_stands(s: Seq<u8>, pos: int)
    requires
        0 <= pos,
        tag_flags_from(s, pos, Seq::empty()).len() > 0,
    ensures
        pos <= tag_flags_from(s, pos, Seq::empty())[0].offset,
        stands_in(tag_flags_from(s, pos, Seq::empty())[0], s),
    decreases s.len() - pos,
{
    match prefix_at(s, pos) {
        None => lemma_first_tag_stands(s, pos + 1),
        Some((prefix, len)) => {
            let start = pos + len;
            let end = digits_end(s, start);
            let value = digits_value(s.subrange(start, end));
            if end > start && value <= u32::MAX {
                let t = TagFlagView {
                    prefix,
                    offset: pos,
                    digits_start: start,
                    digits_end: end,
                    value: value as u32,
                };
                lemma_digit_run(s, start);
                lemma_digits_sum(s.subrange(start, end));
                lemma_tags_behind(s, start, Seq::empty().push(t));
            } else {
                lemma_first_tag_stands(s, start);
            }
        },
    }
}

proof fn lemma_digits_sum(d: Seq<u8>)
    requires
        forall|i: int| 0 <= i < d.len() ==> is_digit(#[trigger] d[i]),
    ensures
        digits_value(d) >= 0,
    decreases d.len(),
{
    if d.len() > 0 {
        assert(is_digit(d[d.len() - 1]));
        lemma_digits_sum(d.drop_last());
    }
}

/// Data with the digits of a tag-flag replaced.
pub open spec fn with_digits(s: Seq<u8>, t: TagFlagView, d: Seq<u8>) -> Seq<u8> {
    s.take(t.digits_start) + d + s.skip(t.digits_end)
}

/// A tag-flag with other digits.
pub open spec fn retold(t: TagFlagView, d: Seq<u8>) -> TagFlagView {
    TagFlagView {
        digits_end: t.digits_start + d.len(),
        value: digits_value(d) as u32,
        ..t
    }
}

/// Whether `d` can stand for the digits of a tag-flag.
pub open spec fn are_digits(d: Seq<u8>) -> bool {
    &&& d.len() > 0
    &&& forall|i: int| 0 <= i < d.len() ==> is_digit(#[trigger] d[i])
    &&& digits_value(d) <= u32::MAX
}

/// A prefix stands before the digits as it stood before they were replaced.
proof fn lemma_prefix_kept(s: Seq<u8>, t: TagFlagView, d: Seq<u8>, p: Seq<u8>, pos: int)
    requires
        stands_in(t, s),
        t.digits_start <= s.len(),
        t.digits_end <= s.len(),
        are_digits(d),
        is_prefix(p),
        0 <= pos < t.digits_start,
    ensures
        occurs_at(with_digits(s, t, d), p, pos) == occurs_at(s, p, pos),
{
    let v = with_digits(s, t, d);
    let at = t.digits_start;
    lemma_prefix_letters(p);
    lemma_digit_run(s, at);
    assert(is_digit(v[at])) by {
        assert(v[at] == d[0]);
    }
    assert(is_digit(s[at]));
    if pos + p.len() > at {
        if occurs_at(v, p, pos) {
            lemma_byte(v, p, pos, at - pos);
        }
        if occurs_at(s, p, pos) {
            lemma_byte(s, p, pos, at - pos);
        }
    } else {
        assert(v.subrange(pos, pos + p.len()) =~= s.subrange(pos, pos + p.len()));
    }
}

proof fn lemma_prefixes_kept(s: Seq<u8>, t: TagFlagView, d: Seq<u8>, pos: int)
    requires
        stands_in(t, s),
        t.digits_start <= s.len(),
        t.digits_end <= s.len(),
        are_digits(d),
        0 <= pos < t.digits_start,
    ensures
        prefix_at(with_digits(s, t, d), pos) == prefix_at(s, pos),
{
    lemma_prefix_kept(s, t, d, PREFIX_ASCII_OPLUS@, pos);
    lemma_prefix_kept(s, t, d, PREFIX_ASCII_OPPO@, pos);
    lemma_prefix_kept(s, t, d, PREFIX_OPLUS@, pos);
    lemma_prefix_kept(s, t, d, PREFIX_LOWER_OPLUS@, pos);
    lemma_prefix_kept(s, t, d, PREFIX_OPPO@, pos);
}

/// A prefix that was found lies in the data and begins with a letter.
proof fn lemma_prefix_found(s: Seq<u8>, pos: int)
    requires
        prefix_at(s, pos) is Some,
    ensures
        0 <= pos,
        5 <= (prefix_at(s, pos)->0).1 <= 11,
        pos + (prefix_at(s, pos)->0).1 <= s.len(),
        !is_digit(s[pos]),
{
    if occurs_at(s, PREFIX_ASCII_OPLUS@, pos) {
        lemma_byte(s, PREFIX_ASCII_OPLUS@, pos, 0);
    } else if occurs_at(s, PREFIX_ASCII_OPPO@, pos) {
        lemma_byte(s, PREFIX_ASCII_OPPO@, pos, 0);
    } else if occurs_at(s, PREFIX_OPLUS@, pos) {
        lemma_byte(s, PREFIX_OPLUS@, pos, 0);
    } else if occurs_at(s, PREFIX_LOWER_OPLUS@, pos) {
        lemma_byte(s, PREFIX_LOWER_OPLUS@, pos, 0);
    } else {
        lemma_byte(s, PREFIX_OPPO@, pos, 0);
    }
}

/// The replaced digits are read where the digits stood.
proof fn lemma_replaced_stands(s: Seq<u8>, t: TagFlagView, d: Seq<u8>)
    requires
        stands_in(t, s),
        are_digits(d),
    ensures
        stands_in(retold(t, d), with_digits(s, t, d)),
{
    let v = with_digits(s, t, d);
    lemma_prefix_found(s, t.offset);
    lemma_digit_run(s, t.digits_start);
    lemma_prefixes_kept(s, t, d, t.offset);
    let e = t.digits_start + d.len();
    assert(v.len() == e + s.len() - t.digits_end);
    assert forall|i: int| t.digits_start <= i < e implies is_digit(#[trigger] v[i]) by {
        assert(v[i] == d[i - t.digits_start]);
    }
    if e < v.len() {
        assert(v[e] == s[t.digits_end]);
    }
    lemma_digit_run_ends(v, t.digits_start, e);
    assert(v.subrange(t.digits_start, e) =~= d);
    lemma_digits_sum(d);
}

/// Where the first tag-flag found from `pos` on gets other digits, it is found again.
proof fn lemma_first_tag_retold(s: Seq<u8>, pos: int, t: TagFlagView, d: Seq<u8>)
    requires
        0 <= pos,
        tag_flags_from(s, pos, Seq::empty()).len() > 0,
        t == tag_flags_from(s, pos, Seq::empty())[0],
        are_digits(d),
    ensures
        tag_flags_from(with_digits(s, t, d), pos, Seq::empty()).len() > 0,
        tag_flags_from(with_digits(s, t, d), pos, Seq::empty())[0] == retold(t, d),
    decreases s.len() - pos,
{
    let v = with_digits(s, t, d);
    lemma_first_tag_stands(s, pos);
    lemma_prefix_found(s, t.offset);
    lemma_digit_run(s, t.digits_start);
    lemma_prefixes_kept(s, t, d, pos);
    match prefix_at(s, pos) {
        None => lemma_first_tag_retold(s, pos + 1, t, d),
        Some((prefix, len)) => {
            lemma_prefix_found(s, pos);
            let start = pos + len;
            let end = digits_end(s, start);
            let value = digits_value(s.subrange(start, end));
            if end > start && value <= u32::MAX {
                let u = TagFlagView {
                    prefix,
                    offset: pos,
                    digits_start: start,
                    digits_end: end,
                    value: value as u32,
                };
                lemma_tags_behind(s, start, Seq::empty().push(u));
                assert(t == u);
                lemma_replaced_stands(s, t, d);
                lemma_tags_behind(v, start, Seq::empty().push(retold(t, d)));
            } else {
                lemma_first_tag_stands(s, start);
                lemma_digit_run(s, start);
                assert(end <= t.offset);
                assert forall|i: int| start <= i < end implies is_digit(#[trigger] v[i]) by {
                    assert(v[i] == s[i]);
                }
                assert(v[end] == s[end]);
                lemma_digit_run_ends(v, start, end);
                assert(v.subrange(start, end) =~= s.subrange(start, end));
                lemma_first_tag_retold(s, start, t, d);
            }
        },
    }
}

/// The first tag-flag of an adjusted comment stands where it stood, behind the same prefix,
/// and says the flags that the mode asks for; adjusting the comment again changes nothing.
pub proof fn adjusted_comments_carry_the_target(value: Seq<u8>, mode: OppoCompat)
    requires
        adjusted_comment(value, mode) is Some,
    ensures
        ({
            let old = tag_flags_from(value, 0, Seq::empty());
            let new = tag_flags_from(adjusted_comment(value, mode)->0, 0, Seq::empty());
            &&& new.len() > 0
            &&& new[0].prefix == old[0].prefix
            &&& new[0].offset == old[0].offset
            &&& new[0].value == target_flags(old[0].value, mode)
        }),
        adjusted_comment(adjusted_comment(value, mode)->0, mode) is None,
{
    let t = tag_flags_from(value, 0, Seq::empty())[0];
    let d = adjusted_digits(t, mode)->0;
    lemma_first_tag_stands(value, 0);
    padded_decimals_read_back(target_flags(t.value, mode) as int, t.digits_end - t.digits_start);
    lemma_first_tag_retold(value, 0, t, d);
    target_flags_settle(t.value, mode);
}

// ---------------------------------------------------------------------------
// Exif payloads
// ---------------------------------------------------------------------------

/// Where the user comment of an Exif payload is adjusted: the start of its TIFF data, its
/// byte order, the comment's entry and the comment.
pub open spec fn comment_of(x: Seq<u8>) -> Option<(int, bool, int, Seq<u8>)> {
    let start = 4 + be32(x, 0);
    let little = tiff_little(x, start);
    match user_comment_entry(
        x,
        start,
        little,
        seq![int32(x, start + 4, little) as u32],
        Set::empty(),
        x.len(),
    ) {
        None => None,
        Some(entry) => match comment_range(x, start, entry, little) {
            None => None,
            Some((from, to)) => Some((start, little, entry, x.subrange(from, to))),
        },
    }
}

proof fn lemma_scanned_within(
    s: Seq<u8>,
    ifd: int,
    i: int,
    n: int,
    little: bool,
    pending: Seq<u32>,
)
    requires
        0 <= ifd,
        0 <= i,
    ensures
        scan_ifd(s, ifd, i, n, little, pending) matches Some((Some(e), _)) ==> 0 <= e && e + 12
            <= s.len(),
    decreases n - i,
{
    let entry = ifd + 2 + 12 * i;
    if i < n && entry + 12 <= s.len() {
        let tag = int16(s, entry, little);
        if tag == 0x8769 || tag == 0x8825 {
            let more = pending.push(int32(s, entry + 8, little) as u32);
            lemma_scanned_within(s, ifd, i + 1, n, little, more);
        } else if tag != 0x9286 {
            lemma_scanned_within(s, ifd, i + 1, n, little, pending);
        }
    }
}

/// The entry of a comment lies in the data.
proof fn lemma_entry_within(
    s: Seq<u8>,
    start: int,
    little: bool,
    pending: Seq<u32>,
    visited: Set<u32>,
    budget: nat,
)
    requires
        0 <= start,
    ensures
        user_comment_entry(s, start, little, pending, visited, budget) matches Some(e) ==> 0 <= e
            && e + 12 <= s.len(),
    decreases budget, pending.len(),
{
    if pending.len() > 0 {
        let ifd = start + pending.last();
        let rest = pending.drop_last();
        if visited.contains(pending.last()) {
            lemma_entry_within(s, start, little, rest, visited, budget);
        } else if budget > 0 {
            match int16_at(s, ifd, little) {
                None => {},
                Some(n) => if n <= 4096 {
                    lemma_scanned_within(s, ifd, 0, n, little, rest);
                    match scan_ifd(s, ifd, 0, n, little, rest) {
                        Some((None, more)) => lemma_entry_within(
                            s,
                            start,
                            little,
                            more,
                            visited.insert(pending.last()),
                            (budget - 1) as nat,
                        ),
                        _ => {},
                    }
                },
            }
        }
    }
}

/// An adjusted comment is longer than what fits into its entry.
proof fn lemma_adjusted_len(value: Seq<u8>, mode: OppoCompat)
    requires
        adjusted_comment(value, mode) is Some,
    ensures
        adjusted_comment(value, mode)->0.len() > 4,
{
    let t = tag_flags_from(value, 0, Seq::empty())[0];
    lemma_first_tag_stands(value, 0);
    lemma_prefix_found(value, t.offset);
    lemma_digit_run(value, t.digits_start);
}

/// An Exif payload with a value behind it that the entry at `entry` names.
spec fn renamed(x: Seq<u8>, start: int, little: bool, entry: int, value: Seq<u8>) -> Seq<u8> {
    let padded = x + zeros(pad4(x.len() as int) as nat);
    overwritten(
        padded + value,
        entry + 4,
        put32(value.len() as int, little) + put32(padded.len() - start, little),
    )
}

proof fn lemma_renamed_bytes(x: Seq<u8>, start: int, little: bool, entry: int, value: Seq<u8>)
    requires
        0 <= entry,
        entry + 12 <= x.len(),
    ensures
        ({
            let y = renamed(x, start, little, entry, value);
            let at = x.len() + pad4(x.len() as int);
            &&& y.len() == at + value.len()
            &&& forall|i: int|
                0 <= i < x.len() && !(entry + 4 <= i < entry + 12) ==> #[trigger] y[i] == x[i]
            &&& occurs_at(y, put32(value.len() as int, little), entry + 4)
            &&& occurs_at(y, put32(at - start, little), entry + 8)
            &&& occurs_at(y, value, at)
        }),
{
    let y = renamed(x, start, little, entry, value);
    let at = x.len() + pad4(x.len() as int);
    let a = put32(value.len() as int, little);
    let b = put32(at - start, little);
    assert(a.len() == 4 && b.len() == 4);
    assert(y.subrange(entry + 4, entry + 8) =~= a);
    assert(y.subrange(entry + 8, entry + 12) =~= b);
    assert(y.subrange(at, at + value.len()) =~= value);
}

proof fn lemma_renamed(x: Seq<u8>, start: int, little: bool, entry: int, value: Seq<u8>, y: Seq<u8>)
    requires
        0 <= entry,
        entry + 12 <= x.len(),
        0 <= start <= x.len(),
        4 < value.len(),
        int16(x, entry + 2, little) == 7,
        y.len() == x.len() + pad4(x.len() as int) + value.len(),
        y.len() <= u32::MAX,
        forall|i: int|
            0 <= i < x.len() && !(entry + 4 <= i < entry + 12) ==> #[trigger] y[i] == x[i],
        occurs_at(y, put32(value.len() as int, little), entry + 4),
        occurs_at(y, put32(x.len() + pad4(x.len() as int) - start, little), entry + 8),
    ensures
        comment_range(y, start, entry, little) == Some(
            (
                x.len() + pad4(x.len() as int),
                x.len() + pad4(x.len() as int) + value.len(),
            ),
        ),
{
    ordered_32_bits_read_back(y, entry + 4, value.len() as int, little);
    ordered_32_bits_read_back(y, entry + 8, x.len() + pad4(x.len() as int) - start, little);
    assert(int16(y, entry + 2, little) == int16(x, entry + 2, little)) by {
        assert(y[entry + 2] == x[entry + 2]);
        assert(y[entry + 3] == x[entry + 3]);
    }
}

proof fn lemma_adjusted_form(x: Seq<u8>, mode: OppoCompat, y: Seq<u8>)
    requires
        exif_with_comment(x, mode) == Some(y),
    ensures
        comment_of(x) is Some,
        ({
            let (start, little, entry, comment) = comment_of(x)->0;
            &&& 0 <= start <= x.len()
            &&& 0 <= entry && entry + 12 <= x.len()
            &&& int16(x, entry + 2, little) == 7
            &&& adjusted_comment(comment, mode) is Some
            &&& y == renamed(x, start, little, entry, adjusted_comment(comment, mode)->0)
        }),
{
    let (start, little, entry, comment) = comment_of(x)->0;
    lemma_entry_within(
        x,
        start,
        little,
        seq![int32(x, start + 4, little) as u32],
        Set::empty(),
        x.len(),
    );
}

/// An Exif payload with an adjusted comment keeps all of its bytes but the length and the
/// place that the comment's entry names, and there the entry names the adjusted comment,
/// which stands behind the old payload.
pub proof fn adjusted_exif_names_the_comment(x: Seq<u8>, mode: OppoCompat, y: Seq<u8>)
    requires
        exif_with_comment(x, mode) == Some(y),
        y.len() <= u32::MAX,
    ensures
        comment_of(x) is Some,
        ({
            let (start, little, entry, comment) = comment_of(x)->0;
            let value = adjusted_comment(comment, mode)->0;
            let at = x.len() + pad4(x.len() as int);
            &&& y.len() == at + value.len()
            &&& forall|i: int|
                0 <= i < x.len() && !(entry + 4 <= i < entry + 12) ==> #[trigger] y[i] == x[i]
            &&& comment_range(y, start, entry, little) == Some((at, at + value.len()))
            &&& y.subrange(at, at + value.len()) == value
        }),
{
    lemma_adjusted_form(x, mode, y);
    let (start, little, entry, comment) = comment_of(x)->0;
    let value = adjusted_comment(comment, mode)->0;
    lemma_adjusted_len(comment, mode);
    lemma_renamed_bytes(x, start, little, entry, value);
    lemma_renamed(x, start, little, entry, value, y);
}

/// An Exif payload grows where its comment is adjusted.
proof fn lemma_adjusted_exif_grows(x: Seq<u8>, mode: OppoCompat, y: Seq<u8>)
    requires
        exif_with_comment(x, mode) == Some(y),
    ensures
        x.len() < y.len(),
{
    lemma_adjusted_form(x, mode, y);
    let (start, little, entry, comment) = comment_of(x)->0;
    lemma_adjusted_len(comment, mode);
}

/// The extents of items follow the media when the comment of the Exif item is adjusted: an
/// extent apart from the Exif item names the same bytes as before, one around it grows with
/// it, and any other has no place.
pub proof fn adjusted_extents_follow_the_media(
    media: Seq<u8>,
    start: usize,
    e: IlocView,
    mode: OppoCompat,
    new: Seq<u8>,
    patch: OppoUserCommentPatch,
    offset: u64,
    length: u64,
)
    requires
        patched_media(media, start as int, e, mode) == Some((new, patch)),
        start + new.len() <= isize::MAX,
        start <= offset,
        0 < length,
        offset + length <= start + media.len(),
    ensures
        ({
            let (from, to) = patch.source_range;
            let end = offset + length;
            if end <= from || to <= offset {
                adjusted_extent(offset, length, Some(patch)) matches Some((o, l)) && {
                    &&& l == length
                    &&& start <= o
                    &&& o + l <= start + new.len()
                    &&& new.subrange(o - start, o + l - start) == media.subrange(
                        offset - start,
                        end - start,
                    )
                }
            } else if offset <= from && to <= end {
                &&& patch.delta == new.len() - media.len()
                &&& adjusted_extent(offset, length, Some(patch)) == Some(
                    (offset, (length + patch.delta) as u64),
                )
            } else {
                adjusted_extent(offset, length, Some(patch)) is None
            }
        }),
        adjusted_extent(offset, length, None) == Some((offset, length)),
{
    let (a, b, x) = lemma_patch_parts(media, start, e, mode, new, patch);
    lemma_extent_follows(media, start as int, a, b, x, patch, offset, length);
}

/// The media before and behind an Exif item that was adjusted stay, and the patch says how
/// the item grew.
proof fn lemma_patch_parts(
    media: Seq<u8>,
    start: usize,
    e: IlocView,
    mode: OppoCompat,
    new: Seq<u8>,
    patch: OppoUserCommentPatch,
) -> (r: (int, int, Seq<u8>))
    requires
        patched_media(media, start as int, e, mode) == Some((new, patch)),
        start + new.len() <= isize::MAX,
    ensures
        ({
            let (a, b, x) = r;
            &&& 0 <= a < b <= media.len()
            &&& b - a < x.len()
            &&& new == media.take(a) + x + media.skip(b)
            &&& patch.delta == x.len() - (b - a)
            &&& patch.source_range.0 == start + a
            &&& patch.source_range.1 == start + b
        }),
{
    let (at, len) = e.extents[0];
    let a = at - start;
    let b = a + len;
    let x = exif_with_comment(media.subrange(a, b), mode)->0;
    lemma_adjusted_exif_grows(media.subrange(a, b), mode, x);
    assert(new.len() == media.len() + x.len() - len);
    (a, b, x)
}

proof fn lemma_extent_follows(
    media: Seq<u8>,
    start: int,
    a: int,
    b: int,
    x: Seq<u8>,
    patch: OppoUserCommentPatch,
    offset: u64,
    length: u64,
)
    requires
        0 <= start,
        0 <= a < b <= media.len(),
        b - a < x.len(),
        patch.delta == x.len() - (b - a),
        patch.source_range.0 == start + a,
        patch.source_range.1 == start + b,
        start + media.len() + x.len() - (b - a) <= isize::MAX,
        start <= offset,
        0 < length,
        offset + length <= start + media.len(),
    ensures
        ({
            let new = media.take(a) + x + media.skip(b);
            let end = offset + length;
            if end <= start + a || start + b <= offset {
                adjusted_extent(offset, length, Some(patch)) matches Some((o, l)) && {
                    &&& l == length
                    &&& start <= o
                    &&& o + l <= start + new.len()
                    &&& new.subrange(o - start, o + l - start) == media.subrange(
                        offset - start,
                        end - start,
                    )
                }
            } else if offset <= start + a && start + b <= end {
                &&& patch.delta == new.len() - media.len()
                &&& adjusted_extent(offset, length, Some(patch)) == Some(
                    (offset, (length + patch.delta) as u64),
                )
            } else {
                adjusted_extent(offset, length, Some(patch)) is None
            }
        }),
{
    let new = media.take(a) + x + media.skip(b);
    let end = offset + length;
    let o = offset + patch.delta;
    assert(o % 0x1_0000_0000_0000_0000 == o);
    assert((length + patch.delta) % 0x1_0000_0000_0000_0000 == length + patch.delta);
    if end <= start + a {
        assert(new.subrange(offset - start, end - start) =~= media.subrange(
            offset - start,
            end - start,
        ));
    } else if start + b <= offset {
        assert(new.subrange(o - start, o + length - start) =~= media.subrange(
            offset - start,
            end - start,
        ));
    }
}

} // verus!
