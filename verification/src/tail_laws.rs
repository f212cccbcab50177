//! What is read back of vendor tails that were stripped, filtered or neutralized.

use crate::bytes::{
    contains_bytes, enc32_le, find_from, is_byte, is_space, lemma_find_from_some, not_space,
    occurs_at, rfind_from, until,
};
use crate::container::{
    FIELD_LENGTH, FIELD_NAME, FIELD_OFFSET, FIELD_VERSION, FOOTER_JXRS, OppoCameraTail, QTI,
    QTI_DEBUG, before_marker, by_start, entry_bytes, inserted, keeps, kept_bytes, kept_from,
    manifest_item, manifest_items, manifest_text, raw_tail, rebuilt_tail, tail_start, tail_under,
};
use crate::exif::{digits_end, digits_value, is_digit};
use crate::manifest::{
    FieldView, FieldsView, MANIFEST_START, ManifestView, ends_number, ends_value, entry_of,
    field_at, field_set, fields_from, manifest_of, objects_from, starts_field, unsigned_of, utf8_of,
    value_at,
};
use crate::round_trip::{lemma_byte, lemma_parts};
use crate::seqs::{flat, lemma_flat_add, lemma_flat_take};
use crate::text::decimal_ascii;
use vstd::prelude::*;
use vstd::string::*;
use vstd::utf8::*;

verus! {

// ---------------------------------------------------------------------------
// Numbers and texts
// ---------------------------------------------------------------------------

/// A number that was written in decimal is read back.
pub proof fn decimals_read_back(n: int)
    requires
        0 <= n,
    ensures
        digits_value(decimal_ascii(n)) == n,
        decimal_ascii(n).len() > 0,
        forall|i: int| 0 <= i < decimal_ascii(n).len() ==> is_digit(#[trigger] decimal_ascii(n)[i]),
    decreases n,
{
    let d = decimal_ascii(n);
    if n < 10 {
        assert(d.drop_last() =~= Seq::empty());
        reveal_with_fuel(digits_value, 2);
    } else {
        decimals_read_back(n / 10);
        let front = decimal_ascii(n / 10);
        assert(d.drop_last() =~= front);
        assert forall|i: int| 0 <= i < d.len() implies is_digit(#[trigger] d[i]) by {
            if i < front.len() {
                assert(d[i] == front[i]);
            }
        }
    }
}

proof fn lemma_digits_end(s: Seq<u8>, p: int)
    requires
        0 <= p <= s.len(),
        forall|i: int| p <= i < s.len() ==> is_digit(#[trigger] s[i]),
    ensures
        digits_end(s, p) == s.len(),
    decreases s.len() - p,
{
    if p < s.len() {
        lemma_digits_end(s, p + 1);
    }
}

proof fn lemma_unsigned(n: int)
    requires
        0 <= n <= u64::MAX,
    ensures
        unsigned_of(decimal_ascii(n)) == Some(n as u64),
{
    let d = decimal_ascii(n);
    decimals_read_back(n);
    assert(is_digit(d[0]));
    lemma_digits_end(d, 0);
}

/// The first byte that is looked for is found where it stands.
proof fn lemma_until(s: Seq<u8>, p: int, e: int, stop: spec_fn(u8) -> bool)
    requires
        0 <= p <= e < s.len(),
        forall|i: int| p <= i < e ==> !stop(#[trigger] s[i]),
        stop(s[e]),
    ensures
        until(s, p, stop) == e,
    decreases e - p,
{
    if p < e {
        lemma_until(s, p + 1, e, stop);
    }
}

proof fn lemma_until_none(s: Seq<u8>, p: int, stop: spec_fn(u8) -> bool)
    requires
        0 <= p <= s.len(),
        forall|i: int| p <= i < s.len() ==> !stop(#[trigger] s[i]),
    ensures
        until(s, p, stop) == s.len(),
    decreases s.len() - p,
{
    if p < s.len() {
        lemma_until_none(s, p + 1, stop);
    }
}

/// Bytes that encode a text are read as that text.
proof fn lemma_read_text(t: Seq<char>)
    ensures
        utf8_of(encode_utf8(t)) == Some(t),
{
    encode_utf8_valid_utf8(t);
    encode_utf8_decode_utf8(t);
}

proof fn lemma_keys()
    ensures
        utf8_of(FIELD_LENGTH@.subrange(2, 8)) == Some("length"@),
        utf8_of(FIELD_NAME@.subrange(2, 6)) == Some("name"@),
        utf8_of(FIELD_OFFSET@.subrange(3, 9)) == Some("offset"@),
        utf8_of(FIELD_VERSION@.subrange(2, 9)) == Some("version"@),
        "length"@ != "name"@,
        "length"@ != "offset"@,
        "offset"@ != "name"@,
        "version"@ != "name"@,
        "version"@ != "offset"@,
        "version"@ != "length"@,
{
    reveal_strlit("length");
    reveal_strlit("name");
    reveal_strlit("offset");
    reveal_strlit("version");
    assert("length"@[0] == 'l' && "name"@[0] == 'n' && "offset"@[0] == 'o' && "version"@[0] == 'v');
    lemma_ascii_bytes("length"@, FIELD_LENGTH@.subrange(2, 8));
    lemma_ascii_bytes("name"@, FIELD_NAME@.subrange(2, 6));
    lemma_ascii_bytes("offset"@, FIELD_OFFSET@.subrange(3, 9));
    lemma_ascii_bytes("version"@, FIELD_VERSION@.subrange(2, 9));
}

proof fn lemma_ascii_bytes(t: Seq<char>, b: Seq<u8>)
    requires
        t.len() == b.len(),
        is_ascii_chars(t),
        forall|i: int| 0 <= i < t.len() ==> (#[trigger] t[i]) as u8 == b[i],
    ensures
        encode_utf8(t) == b,
        utf8_of(b) == Some(t),
{
    is_ascii_chars_encode_utf8(t);
    let e = encode_utf8(t);
    assert forall|i: int| 0 <= i < b.len() implies e[i] == b[i] by {
        assert(t[i] as u8 == b[i]);
    }
    assert(e =~= b);
    lemma_read_text(t);
}

// ---------------------------------------------------------------------------
// Manifest entries
// ---------------------------------------------------------------------------

/// A key between quotes, with a colon behind it.
pub open spec fn quoted_key(key: Seq<u8>) -> Seq<u8> {
    seq![0x22u8] + key + seq![0x22u8, 0x3au8]
}

/// Whether bytes hold no quote.
pub open spec fn has_no_quote(b: Seq<u8>) -> bool {
    forall|i: int| 0 <= i < b.len() ==> #[trigger] b[i] != 0x22
}

/// A key is read, and its value starts behind its colon.
proof fn lemma_key(o: Seq<u8>, q: int, key: Seq<u8>, text: Seq<char>)
    requires
        occurs_at(o, quoted_key(key), q),
        has_no_quote(key),
        utf8_of(key) == Some(text),
        q + key.len() + 3 < o.len(),
        !is_space(o[q + key.len() + 3]),
    ensures
        field_at(o, q) == (match value_at(o, q + key.len() + 3, text) {
            None => None,
            Some((field, end)) => Some((field, until(o, end, starts_field()))),
        }),
        o[q] == 0x22,
{
    let a = seq![0x22u8];
    let b = seq![0x22u8, 0x3au8];
    lemma_parts(o, a + key, b, q);
    lemma_parts(o, a, key, q);
    lemma_byte(o, a, q, 0);
    let e = q + 1 + key.len();
    lemma_byte(o, b, e, 0);
    lemma_byte(o, b, e, 1);
    assert forall|i: int| q + 1 <= i < e implies !is_byte(0x22)(#[trigger] o[i]) by {
        lemma_byte(o, key, q + 1, i - (q + 1));
        assert(key[i - (q + 1)] != 0x22);
    }
    lemma_until(o, q + 1, e, is_byte(0x22));
    assert(o.subrange(q + 1, e) =~= key);
    lemma_until(o, e + 1, e + 1, is_byte(0x3a));
    lemma_until(o, e + 2, e + 2, not_space());
}

/// A number is read up to the comma behind it.
proof fn lemma_number(o: Seq<u8>, v: int, n: int)
    requires
        0 <= n <= u64::MAX,
        occurs_at(o, decimal_ascii(n), v),
        v + decimal_ascii(n).len() + 1 < o.len(),
        o[v + decimal_ascii(n).len()] == 0x2c,
        o[v + decimal_ascii(n).len() + 1] == 0x22,
    ensures
        ({
            let end = v + decimal_ascii(n).len();
            &&& value_at(o, v, "offset"@) == Some((FieldView::Offset(n as u64), end))
            &&& value_at(o, v, "length"@) == Some((FieldView::Length(n as u64), end))
            &&& until(o, end, starts_field()) == end + 1
            &&& !is_space(o[v])
        }),
{
    let d = decimal_ascii(n);
    let end = v + d.len();
    decimals_read_back(n);
    lemma_unsigned(n);
    lemma_keys();
    assert forall|i: int| v <= i < end implies is_digit(#[trigger] o[i]) by {
        lemma_byte(o, d, v, i - v);
        assert(is_digit(d[i - v]));
    }
    assert(is_digit(o[v]));
    assert forall|i: int| v <= i < end implies !ends_number()(#[trigger] o[i]) by {
        assert(is_digit(o[i]));
    }
    lemma_until(o, v, end, ends_number());
    assert(o.subrange(v, end) =~= d);
    lemma_until(o, end, end + 1, starts_field());
}

/// The text of a manifest entry.
pub open spec fn entry_text(length: int, name: Seq<char>, offset: int) -> Seq<u8> {
    FIELD_LENGTH@ + decimal_ascii(length) + FIELD_NAME@ + encode_utf8(name) + FIELD_OFFSET@
        + decimal_ascii(offset) + FIELD_VERSION@
}

/// Where the parts of the text of an entry stand.
proof fn lemma_entry_parts(length: int, name: Seq<char>, offset: int)
    ensures
        ({
            let o = entry_text(length, name, offset);
            let d1 = decimal_ascii(length);
            let d2 = decimal_ascii(offset);
            let b = encode_utf8(name);
            let a1 = 10int + d1.len();
            let a2 = a1 + 9 + b.len();
            let a3 = a2 + 11 + d2.len();
            &&& occurs_at(o, FIELD_LENGTH@, 0)
            &&& occurs_at(o, d1, 10)
            &&& occurs_at(o, FIELD_NAME@, a1)
            &&& occurs_at(o, b, a1 + 9)
            &&& occurs_at(o, FIELD_OFFSET@, a2)
            &&& occurs_at(o, d2, a2 + 11)
            &&& occurs_at(o, FIELD_VERSION@, a3)
            &&& o.len() == a3 + 13
        }),
{
    let o = entry_text(length, name, offset);
    let d1 = decimal_ascii(length);
    let d2 = decimal_ascii(offset);
    let b = encode_utf8(name);
    assert(o.subrange(0, o.len() as int) =~= o);
    let p1 = FIELD_LENGTH@ + d1;
    let p2 = p1 + FIELD_NAME@;
    let p3 = p2 + b;
    let p4 = p3 + FIELD_OFFSET@;
    let p5 = p4 + d2;
    lemma_parts(o, p5, FIELD_VERSION@, 0);
    lemma_parts(o, p4, d2, 0);
    lemma_parts(o, p3, FIELD_OFFSET@, 0);
    lemma_parts(o, p2, b, 0);
    lemma_parts(o, p1, FIELD_NAME@, 0);
    lemma_parts(o, FIELD_LENGTH@, d1, 0);
}

/// Four bytes and more of a constant.
proof fn lemma_field_bytes()
    ensures
        FIELD_LENGTH@ == seq![0x7bu8] + quoted_key(FIELD_LENGTH@.subrange(2, 8)),
        has_no_quote(FIELD_LENGTH@.subrange(2, 8)),
        FIELD_NAME@ == seq![0x2cu8] + quoted_key(FIELD_NAME@.subrange(2, 6)) + seq![0x22u8],
        has_no_quote(FIELD_NAME@.subrange(2, 6)),
        FIELD_OFFSET@ == seq![0x22u8, 0x2cu8] + quoted_key(FIELD_OFFSET@.subrange(3, 9)),
        has_no_quote(FIELD_OFFSET@.subrange(3, 9)),
        FIELD_VERSION@ == seq![0x2cu8] + quoted_key(FIELD_VERSION@.subrange(2, 9)) + seq![
            0x31u8,
            0x7du8,
        ],
        has_no_quote(FIELD_VERSION@.subrange(2, 9)),
{
    assert(FIELD_LENGTH@ =~= seq![0x7bu8] + quoted_key(FIELD_LENGTH@.subrange(2, 8)));
    assert(FIELD_NAME@ =~= seq![0x2cu8] + quoted_key(FIELD_NAME@.subrange(2, 6)) + seq![0x22u8]);
    assert(FIELD_OFFSET@ =~= seq![0x22u8, 0x2cu8] + quoted_key(FIELD_OFFSET@.subrange(3, 9)));
    assert(FIELD_VERSION@ =~= seq![0x2cu8] + quoted_key(FIELD_VERSION@.subrange(2, 9)) + seq![
        0x31u8,
        0x7du8,
    ]);
}

/// The first field of an entry is its length.
proof fn lemma_length_field(length: int, name: Seq<char>, offset: int)
    requires
        0 <= length <= u64::MAX,
    ensures
        ({
            let o = entry_text(length, name, offset);
            let a1 = 10int + decimal_ascii(length).len();
            &&& until(o, 0, is_byte(0x22)) == 1
            &&& field_at(o, 1) == Some((FieldView::Length(length as u64), a1 + 1))
            &&& o[a1 + 1] == 0x22
        }),
{
    let o = entry_text(length, name, offset);
    let d1 = decimal_ascii(length);
    let a1 = (10 + d1.len()) as int;
    let key = FIELD_LENGTH@.subrange(2, 8);
    lemma_entry_parts(length, name, offset);
    lemma_field_bytes();
    lemma_keys();
    decimals_read_back(length);
    lemma_byte(o, FIELD_LENGTH@, 0, 0);
    lemma_byte(o, FIELD_LENGTH@, 0, 1);
    lemma_until(o, 0, 1, is_byte(0x22));
    lemma_parts(o, seq![0x7bu8], quoted_key(key), 0);
    lemma_byte(o, FIELD_NAME@, a1, 0);
    lemma_byte(o, FIELD_NAME@, a1, 1);
    lemma_number(o, 10, length);
    lemma_key(o, 1, key, "length"@);
}

/// The second field of an entry is its name.
proof fn lemma_name_field(length: int, name: Seq<char>, offset: int)
    requires
        has_no_quote(encode_utf8(name)),
    ensures
        ({
            let o = entry_text(length, name, offset);
            let a1 = 10int + decimal_ascii(length).len();
            let a2 = a1 + 9 + encode_utf8(name).len();
            &&& until(o, a1 + 1, is_byte(0x22)) == a1 + 1
            &&& field_at(o, a1 + 1) == Some((FieldView::Name(name), a2 + 2))
            &&& o[a2 + 2] == 0x22
        }),
{
    let o = entry_text(length, name, offset);
    let b = encode_utf8(name);
    let a1 = (10 + decimal_ascii(length).len()) as int;
    let a2 = a1 + 9 + b.len();
    let key = FIELD_NAME@.subrange(2, 6);
    lemma_entry_parts(length, name, offset);
    lemma_field_bytes();
    lemma_keys();
    lemma_byte(o, FIELD_NAME@, a1, 1);
    lemma_byte(o, FIELD_NAME@, a1, 8);
    lemma_until(o, a1 + 1, a1 + 1, is_byte(0x22));
    lemma_parts(o, seq![0x2cu8] + quoted_key(key), seq![0x22u8], a1);
    lemma_parts(o, seq![0x2cu8], quoted_key(key), a1);
    lemma_key(o, a1 + 1, key, "name"@);
    lemma_byte(o, FIELD_OFFSET@, a2, 0);
    lemma_byte(o, FIELD_OFFSET@, a2, 1);
    lemma_byte(o, FIELD_OFFSET@, a2, 2);
    assert forall|i: int| a1 + 9 <= i < a2 implies !is_byte(0x22)(#[trigger] o[i]) by {
        lemma_byte(o, b, a1 + 9, i - (a1 + 9));
        assert(b[i - (a1 + 9)] != 0x22);
    }
    lemma_until(o, a1 + 9, a2, is_byte(0x22));
    assert(o.subrange(a1 + 9, a2) =~= b);
    lemma_read_text(name);
    lemma_until(o, a2 + 1, a2 + 2, starts_field());
}

/// The third field of an entry is its offset.
proof fn lemma_offset_field(length: int, name: Seq<char>, offset: int)
    requires
        0 <= offset <= u64::MAX,
    ensures
        ({
            let o = entry_text(length, name, offset);
            let a2 = 19int + decimal_ascii(length).len() + encode_utf8(name).len();
            let a3 = a2 + 11 + decimal_ascii(offset).len();
            &&& until(o, a2 + 2, is_byte(0x22)) == a2 + 2
            &&& field_at(o, a2 + 2) == Some((FieldView::Offset(offset as u64), a3 + 1))
            &&& o[a3 + 1] == 0x22
        }),
{
    let o = entry_text(length, name, offset);
    let d2 = decimal_ascii(offset);
    let a2 = (19 + decimal_ascii(length).len() + encode_utf8(name).len()) as int;
    let a3 = a2 + 11 + d2.len();
    let key = FIELD_OFFSET@.subrange(3, 9);
    lemma_entry_parts(length, name, offset);
    lemma_field_bytes();
    lemma_keys();
    decimals_read_back(offset);
    lemma_byte(o, FIELD_OFFSET@, a2, 2);
    lemma_until(o, a2 + 2, a2 + 2, is_byte(0x22));
    lemma_parts(o, seq![0x22u8, 0x2cu8], quoted_key(key), a2);
    lemma_byte(o, FIELD_VERSION@, a3, 0);
    lemma_byte(o, FIELD_VERSION@, a3, 1);
    lemma_number(o, a2 + 11, offset);
    lemma_key(o, a2 + 2, key, "offset"@);
}

/// The last field of an entry sets nothing.
proof fn lemma_version_field(length: int, name: Seq<char>, offset: int)
    ensures
        ({
            let o = entry_text(length, name, offset);
            let a3 = 30int + decimal_ascii(length).len() + encode_utf8(name).len() + decimal_ascii(
                offset,
            ).len();
            &&& until(o, a3 + 1, is_byte(0x22)) == a3 + 1
            &&& field_at(o, a3 + 1) == Some((FieldView::Other, a3 + 12))
            &&& until(o, a3 + 12, is_byte(0x22)) == o.len()
            &&& o.len() == a3 + 13
        }),
{
    let o = entry_text(length, name, offset);
    let a3 = (30 + decimal_ascii(length).len() + encode_utf8(name).len() + decimal_ascii(
        offset,
    ).len()) as int;
    let key = FIELD_VERSION@.subrange(2, 9);
    lemma_entry_parts(length, name, offset);
    lemma_field_bytes();
    lemma_keys();
    lemma_byte(o, FIELD_VERSION@, a3, 1);
    lemma_byte(o, FIELD_VERSION@, a3, 11);
    lemma_byte(o, FIELD_VERSION@, a3, 12);
    lemma_until(o, a3 + 1, a3 + 1, is_byte(0x22));
    lemma_parts(o, seq![0x2cu8] + quoted_key(key), seq![0x31u8, 0x7du8], a3);
    lemma_parts(o, seq![0x2cu8], quoted_key(key), a3);
    lemma_key(o, a3 + 1, key, "version"@);
    lemma_until(o, a3 + 11, a3 + 12, ends_value());
    lemma_until(o, a3 + 12, a3 + 12, starts_field());
    lemma_until_none(o, a3 + 12, is_byte(0x22));
}

/// A manifest entry is read back from its text: its name, its offset and its length.
pub proof fn entries_read_back(length: int, name: Seq<char>, offset: int)
    requires
        0 <= length <= u64::MAX,
        0 <= offset <= u64::MAX,
        has_no_quote(encode_utf8(name)),
    ensures
        entry_of(entry_text(length, name, offset)) == Some(
            ManifestView { name, offset: offset as u64, length: length as u64 },
        ),
{
    let o = entry_text(length, name, offset);
    let a1 = 10int + decimal_ascii(length).len();
    let a2 = a1 + 9 + encode_utf8(name).len();
    let a3 = a2 + 11 + decimal_ascii(offset).len();
    lemma_length_field(length, name, offset);
    lemma_name_field(length, name, offset);
    lemma_offset_field(length, name, offset);
    lemma_version_field(length, name, offset);
    let f0 = FieldsView { name: None, offset: None, length: None };
    let f1 = field_set(f0, FieldView::Length(length as u64));
    let f2 = field_set(f1, FieldView::Name(name));
    let f3 = field_set(f2, FieldView::Offset(offset as u64));
    assert(fields_from(o, 0, f0) == fields_from(o, a1 + 1, f1));
    assert(fields_from(o, a1 + 1, f1) == fields_from(o, a2 + 2, f2));
    assert(fields_from(o, a2 + 2, f2) == fields_from(o, a3 + 1, f3));
    assert(fields_from(o, a3 + 1, f3) == fields_from(o, a3 + 12, f3));
    assert(fields_from(o, a3 + 12, f3) == Some(f3));
}

// ---------------------------------------------------------------------------
// Manifests
// ---------------------------------------------------------------------------

/// Whether a name holds no quote, no brace and no closing bracket.
pub open spec fn is_plain_name(name: Seq<char>) -> bool {
    let b = encode_utf8(name);
    forall|i: int|
        0 <= i < b.len() ==> #[trigger] b[i] != 0x22 && b[i] != 0x5d && b[i] != 0x7b && b[i] != 0x7d
}

/// Whether a byte opens or closes an object or closes an array.
pub open spec fn is_structural(b: u8) -> bool {
    b == 0x5d || b == 0x7b || b == 0x7d
}

/// The text of an entry is one object: it opens with its first byte, closes with its last
/// and has no brace and no closing bracket between.
proof fn lemma_entry_is_object(length: int, name: Seq<char>, offset: int)
    requires
        0 <= length,
        0 <= offset,
        is_plain_name(name),
    ensures
        ({
            let o = entry_text(length, name, offset);
            &&& o.len() >= 43
            &&& o[0] == 0x7b
            &&& o[o.len() - 1] == 0x7d
            &&& forall|i: int| 0 < i < o.len() - 1 ==> !is_structural(#[trigger] o[i])
        }),
{
    let o = entry_text(length, name, offset);
    let d1 = decimal_ascii(length);
    let d2 = decimal_ascii(offset);
    let b = encode_utf8(name);
    let a1 = 10int + d1.len();
    let a2 = a1 + 9 + b.len();
    let a3 = a2 + 11 + d2.len();
    lemma_entry_parts(length, name, offset);
    lemma_byte(o, FIELD_LENGTH@, 0, 0);
    lemma_byte(o, FIELD_VERSION@, a3, 12);
    assert forall|i: int| 0 < i < o.len() - 1 implies !is_structural(#[trigger] o[i]) by {
        if i < 10 {
            lemma_byte(o, FIELD_LENGTH@, 0, i);
        } else if i < a1 {
            lemma_byte(o, d1, 10, i - 10);
            decimals_read_back(length);
            assert(is_digit(d1[i - 10]));
        } else if i < a1 + 9 {
            lemma_byte(o, FIELD_NAME@, a1, i - a1);
        } else if i < a2 {
            lemma_byte(o, b, a1 + 9, i - (a1 + 9));
            assert(!is_structural(b[i - (a1 + 9)]));
        } else if i < a2 + 11 {
            lemma_byte(o, FIELD_OFFSET@, a2, i - a2);
        } else if i < a3 {
            lemma_byte(o, d2, a2 + 11, i - (a2 + 11));
            decimals_read_back(offset);
            assert(is_digit(d2[i - (a2 + 11)]));
        } else {
            lemma_byte(o, FIELD_VERSION@, a3, i - a3);
        }
    }
}

/// Bytes that are no braces change nothing.
proof fn lemma_skip(
    s: Seq<u8>,
    p: int,
    q: int,
    end: int,
    depth: int,
    start: int,
    acc: Seq<ManifestView>,
)
    requires
        0 <= p <= q <= end <= s.len(),
        forall|i: int| p <= i < q ==> #[trigger] s[i] != 0x7b && s[i] != 0x7d,
    ensures
        objects_from(s, p, end, depth, start, acc) == objects_from(s, q, end, depth, start, acc),
    decreases q - p,
{
    if p < q {
        assert(s[p] != 0x7b && s[p] != 0x7d);
        lemma_skip(s, p + 1, q, end, depth, start, acc);
    }
}

/// The text of an entry is read as one entry.
proof fn lemma_object(
    s: Seq<u8>,
    a: int,
    end: int,
    start: int,
    acc: Seq<ManifestView>,
    length: int,
    name: Seq<char>,
    offset: int,
)
    requires
        0 <= length <= u64::MAX,
        0 <= offset <= u64::MAX,
        is_plain_name(name),
        occurs_at(s, entry_text(length, name, offset), a),
        a + entry_text(length, name, offset).len() <= end <= s.len(),
    ensures
        objects_from(s, a, end, 0, start, acc) == objects_from(
            s,
            a + entry_text(length, name, offset).len(),
            end,
            0,
            a,
            acc.push(ManifestView { name, offset: offset as u64, length: length as u64 }),
        ),
{
    let o = entry_text(length, name, offset);
    let last = a + o.len() - 1;
    lemma_entry_is_object(length, name, offset);
    entries_read_back(length, name, offset);
    lemma_byte(s, o, a, 0);
    lemma_byte(s, o, a, o.len() - 1);
    assert forall|i: int| a + 1 <= i < last implies #[trigger] s[i] != 0x7b && s[i] != 0x7d by {
        lemma_byte(s, o, a, i - a);
        assert(!is_structural(o[i - a]));
    }
    lemma_skip(s, a + 1, last, end, 1, a, acc);
    assert(s.subrange(a, last + 1) =~= o);
}

/// An entry of a rebuilt manifest.
pub open spec fn rebuilt_entry(tail: Seq<u8>, kept: Seq<(int, ManifestView)>, i: int) -> ManifestView {
    ManifestView {
        name: kept[i].1.name,
        offset: (flat(kept, kept_bytes(tail)).len() - flat(kept.take(i), kept_bytes(tail)).len()) as u64,
        length: kept[i].1.length,
    }
}

/// The entries of a rebuilt manifest: the kept ones, each counting back to its new place.
pub open spec fn rebuilt_entries(tail: Seq<u8>, kept: Seq<(int, ManifestView)>) -> Seq<ManifestView> {
    Seq::new(kept.len(), |i: int| rebuilt_entry(tail, kept, i))
}

/// Whether the kept entries can be written: their names are plain and their bytes lie in
/// the tail.
pub open spec fn kept_well(tail: Seq<u8>, kept: Seq<(int, ManifestView)>) -> bool {
    &&& forall|i: int|
        0 <= i < kept.len() ==> is_plain_name((#[trigger] kept[i]).1.name) && 0 <= kept[i].0
            && kept[i].0 + kept[i].1.length <= tail.len()
    &&& flat(kept, kept_bytes(tail)).len() <= u64::MAX
}

proof fn lemma_flat_grows(tail: Seq<u8>, kept: Seq<(int, ManifestView)>, i: int)
    requires
        0 <= i <= kept.len(),
    ensures
        flat(kept.take(i), kept_bytes(tail)).len() <= flat(kept, kept_bytes(tail)).len(),
{
    assert(kept =~= kept.take(i) + kept.skip(i));
    lemma_flat_add(kept.take(i), kept.skip(i), kept_bytes(tail));
}

/// The texts of the entries are read one after the other.
proof fn lemma_objects(
    s: Seq<u8>,
    p: int,
    end: int,
    tail: Seq<u8>,
    kept: Seq<(int, ManifestView)>,
    n: int,
) -> (start: int)
    requires
        kept_well(tail, kept),
        0 <= n <= kept.len(),
        occurs_at(s, manifest_items(tail, kept, n), p),
        p + manifest_items(tail, kept, n).len() <= end <= s.len(),
    ensures
        objects_from(s, p, end, 0, p, Seq::empty()) == objects_from(
            s,
            p + manifest_items(tail, kept, n).len(),
            end,
            0,
            start,
            rebuilt_entries(tail, kept).take(n),
        ),
        forall|i: int|
            0 <= i < manifest_items(tail, kept, n).len() ==> #[trigger] manifest_items(
                tail,
                kept,
                n,
            )[i] != 0x5d,
        forall|i: int|
            0 < i < manifest_items(tail, kept, n).len() && #[trigger] manifest_items(
                tail,
                kept,
                n,
            )[i] == 0x7b ==> manifest_items(tail, kept, n)[i - 1] == 0x2c,
        n > 0 ==> manifest_items(tail, kept, n).len() > 0 && manifest_items(tail, kept, n)[0]
            == 0x7b,
        valid_utf8(manifest_items(tail, kept, n)),
    decreases n,
{
    let all = rebuilt_entries(tail, kept);
    let text = manifest_items(tail, kept, n);
    if n == 0 {
        assert(all.take(0) =~= Seq::empty());
        p
    } else {
        let before = manifest_items(tail, kept, n - 1);
        let comma: Seq<u8> = if n > 1 {
            seq![0x2cu8]
        } else {
            Seq::empty()
        };
        let e = kept[n - 1].1;
        let offset = flat(kept, kept_bytes(tail)).len() - flat(
            kept.take(n - 1),
            kept_bytes(tail),
        ).len();
        let item = manifest_item(tail, kept, n - 1);
        assert(item == entry_text(e.length as int, e.name, offset));
        lemma_parts(s, before + comma, item, p);
        lemma_parts(s, before, comma, p);
        let start = lemma_objects(s, p, end, tail, kept, n - 1);
        lemma_flat_grows(tail, kept, n - 1);
        let q = p + before.len();
        let a = q + comma.len();
        if n > 1 {
            lemma_byte(s, comma, q, 0);
        }
        lemma_skip(s, q, a, end, 0, start, all.take(n - 1));
        lemma_object(s, a, end, start, all.take(n - 1), e.length as int, e.name, offset);
        assert(all.take(n - 1).push(all[n - 1]) =~= all.take(n));
        lemma_entry_is_object(e.length as int, e.name, offset);
        assert(text == before + comma + item);
        assert forall|i: int| 0 <= i < text.len() implies #[trigger] text[i] != 0x5d by {
            if i < before.len() {
                assert(before[i] != 0x5d);
            } else if i < before.len() + comma.len() {
            } else {
                let j = i - before.len() - comma.len();
                assert(text[i] == item[j]);
                if 0 < j < item.len() - 1 {
                    assert(!is_structural(item[j]));
                }
            }
        }
        assert forall|i: int| 0 < i < text.len() && #[trigger] text[i] == 0x7b implies text[i - 1]
            == 0x2c by {
            if i < before.len() {
                assert(before[i] == 0x7b);
                assert(before[i - 1] == 0x2c);
            } else if i < before.len() + comma.len() {
            } else {
                let j = i - before.len() - comma.len();
                assert(text[i] == item[j]);
                if 0 < j < item.len() - 1 {
                    assert(!is_structural(item[j]));
                }
                assert(j == 0);
            }
        }
        if n > 1 {
            assert(text[0] == before[0]);
        } else {
            assert(text[0] == item[0]);
        }
        lemma_entry_utf8(e.length as int, e.name, offset);
        lemma_ascii_valid(comma);
        valid_utf8_concat(before, comma);
        valid_utf8_concat(before + comma, item);
        a
    }
}

/// ASCII is UTF-8.
proof fn lemma_ascii_valid(b: Seq<u8>)
    requires
        forall|i: int| 0 <= i < b.len() ==> #[trigger] b[i] < 0x80,
    ensures
        valid_utf8(b),
{
    assert(b.subrange(0, 0) =~= Seq::empty());
    assert(partial_valid_utf8(b, 0));
    assert forall|i: int| 0 <= i < b.len() implies #[trigger] is_leading_byte_width_1(b[i]) by {
        assert(b[i] < 0x80);
    }
    partial_valid_utf8_extend_ascii_block(b, 0, b.len() as int);
    assert(b.subrange(0, b.len() as int) =~= b);
}

proof fn lemma_entry_utf8(length: int, name: Seq<char>, offset: int)
    requires
        0 <= length,
        0 <= offset,
    ensures
        valid_utf8(entry_text(length, name, offset)),
{
    let d1 = decimal_ascii(length);
    let d2 = decimal_ascii(offset);
    let b = encode_utf8(name);
    decimals_read_back(length);
    decimals_read_back(offset);
    assert forall|i: int| 0 <= i < d1.len() implies #[trigger] d1[i] < 0x80 by {
        assert(is_digit(d1[i]));
    }
    assert forall|i: int| 0 <= i < d2.len() implies #[trigger] d2[i] < 0x80 by {
        assert(is_digit(d2[i]));
    }
    lemma_ascii_valid(d1);
    lemma_ascii_valid(d2);
    lemma_ascii_valid(FIELD_LENGTH@);
    lemma_ascii_valid(FIELD_NAME@);
    lemma_ascii_valid(FIELD_OFFSET@);
    lemma_ascii_valid(FIELD_VERSION@);
    encode_utf8_valid_utf8(name);
    let p1 = FIELD_LENGTH@ + d1;
    let p2 = p1 + FIELD_NAME@;
    let p3 = p2 + b;
    let p4 = p3 + FIELD_OFFSET@;
    let p5 = p4 + d2;
    valid_utf8_concat(FIELD_LENGTH@, d1);
    valid_utf8_concat(p1, FIELD_NAME@);
    valid_utf8_concat(p2, b);
    valid_utf8_concat(p3, FIELD_OFFSET@);
    valid_utf8_concat(p4, d2);
    valid_utf8_concat(p5, FIELD_VERSION@);
}

pub proof fn lemma_rfind(s: Seq<u8>, needle: Seq<u8>, at: int, p: int)
    requires
        p <= at,
        occurs_at(s, needle, p),
        forall|j: int| p < j <= at ==> !#[trigger] occurs_at(s, needle, j),
    ensures
        rfind_from(s, needle, at) == Some(p),
    decreases at - p,
{
    if p < at {
        lemma_rfind(s, needle, at - 1, p);
    }
}

/// Whether the length that a tail ends with could be taken for the start of a manifest.
pub open spec fn length_reads_as_start(tail: Seq<u8>, kept: Seq<(int, ManifestView)>) -> bool {
    contains_bytes(enc32_le(manifest_text(tail, kept).len() as int + 9), MANIFEST_START@)
}

/// No manifest starts behind the start of the one that was written.
proof fn lemma_no_later_start(r: Seq<u8>, p: int, items: Seq<u8>, len: Seq<u8>)
    requires
        0 <= p,
        items.len() > 0,
        items[0] == 0x7b,
        forall|i: int| 0 < i < items.len() && #[trigger] items[i] == 0x7b ==> items[i - 1] == 0x2c,
        occurs_at(r, items, p + 1),
        r[p + 1 + items.len()] == 0x5d,
        occurs_at(r, FOOTER_JXRS@, p + 2 + items.len()),
        occurs_at(r, len, p + 7 + items.len()),
        r.len() == p + 7 + items.len() + len.len(),
        !contains_bytes(len, MANIFEST_START@),
    ensures
        forall|j: int| p < j <= r.len() - 2 ==> !#[trigger] occurs_at(r, MANIFEST_START@, j),
{
    assert forall|j: int| p < j <= r.len() - 2 implies !#[trigger] occurs_at(
        r,
        MANIFEST_START@,
        j,
    ) by {
        if occurs_at(r, MANIFEST_START@, j) {
            lemma_start_is_early(r, p, items, len, j);
        }
    }
}

proof fn lemma_start_is_early(r: Seq<u8>, p: int, items: Seq<u8>, len: Seq<u8>, j: int)
    requires
        0 <= p <= j <= r.len() - 2,
        items.len() > 0,
        forall|i: int| 0 < i < items.len() && #[trigger] items[i] == 0x7b ==> items[i - 1] == 0x2c,
        occurs_at(r, items, p + 1),
        r[p + 1 + items.len()] == 0x5d,
        occurs_at(r, FOOTER_JXRS@, p + 2 + items.len()),
        occurs_at(r, len, p + 7 + items.len()),
        r.len() == p + 7 + items.len() + len.len(),
        !contains_bytes(len, MANIFEST_START@),
        occurs_at(r, MANIFEST_START@, j),
    ensures
        j == p,
{
    let end = p + 1 + items.len();
    let foot = end + 1;
    lemma_byte(r, MANIFEST_START@, j, 0);
    lemma_byte(r, MANIFEST_START@, j, 1);
    assert(r[j] == 0x5b && r[j + 1] == 0x7b);
    if j == p {
    } else if j + 1 < end {
        lemma_byte(r, items, p + 1, j - p);
        assert(items[j - p] == 0x7b);
        lemma_byte(r, items, p + 1, j - p - 1);
        assert(items[j - p - 1] == 0x2c);
    } else if j + 1 == end {
    } else if j == end {
    } else if j + 1 < foot + 5 {
        lemma_byte(r, FOOTER_JXRS@, foot, j + 1 - foot);
    } else if j < foot + 5 {
        lemma_byte(r, FOOTER_JXRS@, foot, j - foot);
    } else {
        let k = j - (foot + 5);
        lemma_byte(r, len, foot + 5, k);
        lemma_byte(r, len, foot + 5, k + 1);
        assert(len.subrange(k, k + 2) =~= MANIFEST_START@);
        assert(occurs_at(len, MANIFEST_START@, k));
    }
}

/// The manifest of a rebuilt tail is the one that was written.
#[verifier::rlimit(60)]
proof fn lemma_rebuilt_manifest(tail: Seq<u8>, kept: Seq<(int, ManifestView)>)
    requires
        kept_well(tail, kept),
        kept.len() > 0,
        !length_reads_as_start(tail, kept),
    ensures
        ({
            let r = rebuilt_tail(tail, kept);
            let p = flat(kept, kept_bytes(tail)).len() as int;
            manifest_of(r) == Some(
                (rebuilt_entries(tail, kept), p, p + manifest_text(tail, kept).len()),
            )
        }),
{
    let r = rebuilt_tail(tail, kept);
    let data = flat(kept, kept_bytes(tail));
    let p = data.len() as int;
    let n = kept.len() as int;
    let items = manifest_items(tail, kept, n);
    let text = manifest_text(tail, kept);
    let len = enc32_le(text.len() as int + 9);
    let open = seq![0x5bu8];
    let close = seq![0x5du8];
    assert(r.subrange(0, r.len() as int) =~= r);
    lemma_parts(r, data + text + FOOTER_JXRS@, len, 0);
    lemma_parts(r, data + text, FOOTER_JXRS@, 0);
    lemma_parts(r, data, text, 0);
    lemma_parts(r, open + items, close, p);
    lemma_parts(r, open, items, p);
    let end = p + 1 + items.len();
    lemma_byte(r, open, p, 0);
    lemma_byte(r, close, end, 0);
    let start = lemma_objects(r, p + 1, end, tail, kept, n);
    lemma_byte(r, items, p + 1, 0);
    assert(r.subrange(p, p + 2) =~= MANIFEST_START@);
    assert(occurs_at(r, MANIFEST_START@, p));
    lemma_no_later_start(r, p, items, len);
    lemma_rfind(r, MANIFEST_START@, r.len() - 2, p);
    assert forall|i: int| p <= i < end implies !is_byte(0x5d)(#[trigger] r[i]) by {
        if i > p {
            lemma_byte(r, items, p + 1, i - p - 1);
            assert(items[i - p - 1] != 0x5d);
        }
    }
    lemma_until(r, p, end, is_byte(0x5d));
    assert(r.subrange(p, end + 1) =~= open + items + close);
    lemma_ascii_valid(open);
    lemma_ascii_valid(close);
    valid_utf8_concat(open, items);
    valid_utf8_concat(open + items, close);
    assert(rebuilt_entries(tail, kept).take(n) =~= rebuilt_entries(tail, kept));
}

/// A tail that was rebuilt of kept entries has a manifest of exactly these entries, in
/// order, and every one of them is read back from it byte for byte.
#[verifier::rlimit(60)]
pub proof fn rebuilt_tails_read_back(tail: Seq<u8>, kept: Seq<(int, ManifestView)>, i: int)
    requires
        kept_well(tail, kept),
        !length_reads_as_start(tail, kept),
        0 <= i < kept.len(),
    ensures
        ({
            let r = rebuilt_tail(tail, kept);
            manifest_of(r) matches Some((entries, start, _)) && {
                &&& entries == rebuilt_entries(tail, kept)
                &&& entries[i].name == kept[i].1.name
                &&& entries[i].length == kept[i].1.length
                &&& entry_bytes(r, start, entries[i]) == Some(
                    tail.subrange(kept[i].0, kept[i].0 + kept[i].1.length),
                )
            }
        }),
{
    let r = rebuilt_tail(tail, kept);
    let f = kept_bytes(tail);
    let data = flat(kept, f);
    lemma_rebuilt_manifest(tail, kept);
    lemma_flat_grows(tail, kept, i);
    lemma_flat_grows(tail, kept, i + 1);
    lemma_flat_take(kept, f, i);
    assert(kept =~= kept.take(i + 1) + kept.skip(i + 1));
    lemma_flat_add(kept.take(i + 1), kept.skip(i + 1), f);
    let before = flat(kept.take(i), f);
    let own = f(kept[i]);
    let rest = manifest_text(tail, kept) + FOOTER_JXRS@ + enc32_le(
        manifest_text(tail, kept).len() as int + 9,
    );
    assert(r =~= before + own + (flat(kept.skip(i + 1), f) + rest));
    assert(kept[i].0 + kept[i].1.length <= tail.len());
    let at = before.len() as int;
    assert(r.subrange(at, at + own.len()) =~= own);
    let e = rebuilt_entry(tail, kept, i);
    assert(data.len() - e.offset == at);
}

// ---------------------------------------------------------------------------
// Policies
// ---------------------------------------------------------------------------

/// Whether `x` is among `s`.
pub open spec fn is_among(s: Seq<(int, ManifestView)>, x: (int, ManifestView)) -> bool {
    exists|i: int| 0 <= i < s.len() && #[trigger] s[i] == x
}

proof fn lemma_inserted(s: Seq<(int, ManifestView)>, x: (int, ManifestView), y: (int, ManifestView))
    ensures
        is_among(inserted(s, x), y) <==> is_among(s, y) || y == x,
    decreases s.len(),
{
    if s.len() == 0 || s.last().0 <= x.0 {
        let r = s.push(x);
        if is_among(s, y) {
            let i = choose|i: int| 0 <= i < s.len() && #[trigger] s[i] == y;
            assert(r[i] == y);
        }
        assert(r[s.len() as int] == x);
        if is_among(r, y) {
            let i = choose|i: int| 0 <= i < r.len() && #[trigger] r[i] == y;
            if i < s.len() {
                assert(s[i] == y);
            }
        }
    } else {
        let rest = s.drop_last();
        let mid = inserted(rest, x);
        let r = mid.push(s.last());
        lemma_inserted(rest, x, y);
        assert(r[mid.len() as int] == s.last());
        if is_among(r, y) {
            let i = choose|i: int| 0 <= i < r.len() && #[trigger] r[i] == y;
            if i < mid.len() {
                assert(mid[i] == y);
                if y != x {
                    let j = choose|j: int| 0 <= j < rest.len() && #[trigger] rest[j] == y;
                    assert(s[j] == y);
                }
            } else {
                assert(s[s.len() - 1] == y);
            }
        }
        if is_among(s, y) || y == x {
            if y != x {
                let i = choose|i: int| 0 <= i < s.len() && #[trigger] s[i] == y;
                if i < rest.len() {
                    assert(rest[i] == y);
                }
            }
            if is_among(mid, y) {
                let i = choose|i: int| 0 <= i < mid.len() && #[trigger] mid[i] == y;
                assert(r[i] == y);
            }
        }
    }
}

/// Ordering entries by where they start loses none and adds none.
proof fn lemma_by_start(s: Seq<(int, ManifestView)>, y: (int, ManifestView))
    ensures
        is_among(by_start(s), y) <==> is_among(s, y),
    decreases s.len(),
{
    if s.len() > 0 {
        let rest = s.drop_last();
        lemma_by_start(rest, y);
        lemma_inserted(by_start(rest), s.last(), y);
        if is_among(s, y) {
            let i = choose|i: int| 0 <= i < s.len() && #[trigger] s[i] == y;
            if i < rest.len() {
                assert(rest[i] == y);
            }
        }
        if is_among(rest, y) {
            let i = choose|i: int| 0 <= i < rest.len() && #[trigger] rest[i] == y;
            assert(s[i] == y);
        }
        assert(s[s.len() - 1] == s.last());
    }
}

/// Whether a policy keeps an entry: it wants its name, and its bytes lie in the tail.
pub open spec fn keeps_entry(
    tail: Seq<u8>,
    json_start: int,
    policy: OppoCameraTail,
    e: ManifestView,
) -> bool {
    keeps(e.name, policy) && 0 <= json_start - e.offset && json_start - e.offset + e.length
        <= tail.len()
}

proof fn lemma_kept_from(
    tail: Seq<u8>,
    entries: Seq<ManifestView>,
    json_start: int,
    policy: OppoCameraTail,
    i: int,
    acc: Seq<(int, ManifestView)>,
    y: (int, ManifestView),
)
    requires
        0 <= i <= entries.len(),
    ensures
        is_among(kept_from(tail, entries, json_start, policy, i, acc), y) <==> is_among(acc, y)
            || exists|k: int|
            i <= k < entries.len() && y == (json_start - entries[k].offset, #[trigger] entries[k])
                && keeps_entry(tail, json_start, policy, entries[k]),
    decreases entries.len() - i,
{
    if i < entries.len() {
        let x = (json_start - entries[i].offset, entries[i]);
        let next = if keeps_entry(tail, json_start, policy, entries[i]) {
            acc.push(x)
        } else {
            acc
        };
        lemma_kept_from(tail, entries, json_start, policy, i + 1, next, y);
        if is_among(acc, y) {
            let k = choose|k: int| 0 <= k < acc.len() && #[trigger] acc[k] == y;
            assert(next[k] == y);
        }
        if keeps_entry(tail, json_start, policy, entries[i]) {
            assert(next[acc.len() as int] == x);
        }
        if is_among(next, y) {
            let k = choose|k: int| 0 <= k < next.len() && #[trigger] next[k] == y;
            if k < acc.len() {
                assert(acc[k] == y);
            } else {
                assert(y == x);
                assert(entries[i] == y.1);
            }
        }
        if exists|k: int|
            i <= k < entries.len() && y == (json_start - entries[k].offset, #[trigger] entries[k])
                && keeps_entry(tail, json_start, policy, entries[k]) {
            let k = choose|k: int|
                i <= k < entries.len() && y == (
                    json_start - entries[k].offset,
                    #[trigger] entries[k],
                ) && keeps_entry(tail, json_start, policy, entries[k]);
            if k == i {
                assert(y == x);
            }
        }
    }
}

/// Whether a policy rebuilds a tail of the entries that it keeps.
pub open spec fn rebuilds(policy: OppoCameraTail) -> bool {
    policy != OppoCameraTail::Off && policy != OppoCameraTail::Preserve && policy
        != OppoCameraTail::PreserveNoUhdr && policy != OppoCameraTail::PreserveNoHdr
}

/// The entries that a policy keeps of a tail, by where they start.
pub open spec fn kept_entries(tail: Seq<u8>, policy: OppoCameraTail) -> Seq<(int, ManifestView)> {
    match manifest_of(tail) {
        None => Seq::empty(),
        Some((entries, start, _)) => by_start(
            kept_from(tail, entries, start, policy, 0, Seq::empty()),
        ),
    }
}

/// Whether the names of a manifest are plain.
pub open spec fn names_are_plain(tail: Seq<u8>) -> bool {
    manifest_of(tail) matches Some((entries, _, _)) ==> forall|i: int|
        0 <= i < entries.len() ==> is_plain_name((#[trigger] entries[i]).name)
}

proof fn lemma_kept_entries(tail: Seq<u8>, policy: OppoCameraTail)
    requires
        names_are_plain(tail),
        flat(kept_entries(tail, policy), kept_bytes(tail)).len() <= u64::MAX,
    ensures
        kept_well(tail, kept_entries(tail, policy)),
        forall|i: int|
            0 <= i < kept_entries(tail, policy).len() ==> keeps(
                (#[trigger] kept_entries(tail, policy)[i]).1.name,
                policy,
            ),
{
    let kept = kept_entries(tail, policy);
    match manifest_of(tail) {
        None => {},
        Some((entries, start, _)) => {
            let all = kept_from(tail, entries, start, policy, 0, Seq::empty());
            assert forall|i: int| 0 <= i < kept.len() implies is_plain_name(
                (#[trigger] kept[i]).1.name,
            ) && 0 <= kept[i].0 && kept[i].0 + kept[i].1.length <= tail.len() && keeps(
                kept[i].1.name,
                policy,
            ) by {
                let y = kept[i];
                assert(is_among(kept, y));
                lemma_by_start(all, y);
                lemma_kept_from(tail, entries, start, policy, 0, Seq::empty(), y);
                let k = choose|k: int|
                    0 <= k < entries.len() && y == (start - entries[k].offset, #[trigger] entries[k])
                        && keeps_entry(tail, start, policy, entries[k]);
                assert(is_plain_name(entries[k].name));
            }
        },
    }
}

/// A tail that a policy rebuilds lists only entries whose names the policy keeps, and every
/// entry that it lists can be read.
pub proof fn filtered_tails_list_kept_names(tail: Seq<u8>, policy: OppoCameraTail, r: Seq<u8>, i: int)
    requires
        rebuilds(policy),
        tail_under(tail, policy) == Some(r),
        names_are_plain(tail),
        flat(kept_entries(tail, policy), kept_bytes(tail)).len() <= u64::MAX,
        !length_reads_as_start(tail, kept_entries(tail, policy)),
    ensures
        manifest_of(r) matches Some((entries, start, _)) && {
            &&& entries.len() == kept_entries(tail, policy).len()
            &&& 0 <= i < entries.len() ==> keeps(entries[i].name, policy) && entry_bytes(
                r,
                start,
                entries[i],
            ) is Some
        },
{
    let kept = kept_entries(tail, policy);
    lemma_kept_entries(tail, policy);
    assert(r == rebuilt_tail(tail, kept));
    rebuilt_tails_read_back(tail, kept, 0);
    if 0 <= i < kept.len() {
        rebuilt_tails_read_back(tail, kept, i);
        assert(keeps(kept[i].1.name, policy));
    }
}

/// A tail that a policy rebuilds holds every entry that the policy keeps: under the same
/// name, and with the same bytes.
pub proof fn filtered_tails_hold_kept_entries(
    tail: Seq<u8>,
    policy: OppoCameraTail,
    r: Seq<u8>,
    entries: Seq<ManifestView>,
    start: int,
    end: int,
    k: int,
) -> (i: int)
    requires
        rebuilds(policy),
        tail_under(tail, policy) == Some(r),
        names_are_plain(tail),
        flat(kept_entries(tail, policy), kept_bytes(tail)).len() <= u64::MAX,
        !length_reads_as_start(tail, kept_entries(tail, policy)),
        manifest_of(tail) == Some((entries, start, end)),
        0 <= k < entries.len(),
        keeps_entry(tail, start, policy, entries[k]),
    ensures
        manifest_of(r) matches Some((new, from, _)) && {
            &&& 0 <= i < new.len()
            &&& new[i].name == entries[k].name
            &&& new[i].length == entries[k].length
            &&& entry_bytes(r, from, new[i]) == Some(
                tail.subrange(
                    start - entries[k].offset,
                    start - entries[k].offset + entries[k].length,
                ),
            )
        },
{
    let kept = kept_entries(tail, policy);
    let all = kept_from(tail, entries, start, policy, 0, Seq::empty());
    let y = (start - entries[k].offset, entries[k]);
    lemma_kept_entries(tail, policy);
    lemma_kept_from(tail, entries, start, policy, 0, Seq::empty(), y);
    lemma_by_start(all, y);
    assert(is_among(kept, y));
    let i = choose|i: int| 0 <= i < kept.len() && #[trigger] kept[i] == y;
    rebuilt_tails_read_back(tail, kept, i);
    i
}

/// A file is what is left of it without its tail, and its tail.
pub proof fn stripped_files_and_tails_are_whole(s: Seq<u8>)
    ensures
        match (tail_start(s), raw_tail(s)) {
            (Some(p), Some(tail)) => s.take(p) + tail == s,
            (None, None) => true,
            _ => false,
        },
{
    match tail_start(s) {
        Some(p) => {
            lemma_find_from_some(s, QTI_DEBUG@, 0);
            lemma_find_from_some(s, QTI@, 0);
            assert(s.take(p) + s.skip(p) =~= s);
        },
        None => {},
    }
}

/// A file whose tail was found by its debug marker holds no such marker once it was
/// stripped: no second tail can be read in it by that marker.
pub proof fn stripped_files_hold_no_debug_marker(s: Seq<u8>, p: int)
    requires
        before_marker(s, QTI_DEBUG@) == Some(p),
    ensures
        tail_start(s) == Some(p),
        before_marker(s.take(p), QTI_DEBUG@) is None,
{
    lemma_find_from_some(s, QTI_DEBUG@, 0);
    let t = s.take(p);
    lemma_find_from_some(t, QTI_DEBUG@, 0);
    match find_from(t, QTI_DEBUG@, 0) {
        Some(i) => {
            assert(s.subrange(i, i + 9) =~= t.subrange(i, i + 9));
            assert(occurs_at(s, QTI_DEBUG@, i));
        },
        None => {},
    }
}

} // verus!
