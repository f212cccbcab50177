//! What is read of a vendor tail whose names were neutralized in place.

use crate::bytes::{is_byte, not_space, rfind_from, until};
use crate::container::{
    OppoCameraTail, begins_at, display_adjustment_names, display_filter_names, display_names,
    file_tail_without, neutralized, neutralized_by, neutralizes, one_of, raw_tail, tail_under,
    text_starts, without_names,
};
use crate::manifest::{
    FieldView, FieldsView, MANIFEST_START, ManifestView, ends_number, ends_value, entry_of,
    field_at, field_set, fields_from, manifest_of, name_place, name_place_from, name_places,
    objects_from, places_from, starts_field, utf8_of, value_at, value_place,
};
use vstd::prelude::*;
use vstd::string::*;
use vstd::utf8::*;

verus! {

// ---------------------------------------------------------------------------
// Bytes that differ in letters alone
// ---------------------------------------------------------------------------

/// Whether a byte is an ASCII letter.
pub open spec fn is_letter(b: u8) -> bool {
    0x41 <= b <= 0x5a || 0x61 <= b <= 0x7a
}

/// Whether a name begins with an ASCII letter.
pub open spec fn is_lettered(name: Seq<char>) -> bool {
    name.len() > 0 && name[0] as u32 <= 0x7a && is_letter(name[0] as u8)
}

/// Whether two runs of bytes have a letter each wherever they differ.
pub open spec fn alike(a: Seq<u8>, b: Seq<u8>) -> bool {
    &&& a.len() == b.len()
    &&& forall|i: int|
        0 <= i < a.len() ==> (#[trigger] a[i] == b[i] || is_letter(a[i]) && is_letter(b[i]))
}

/// Whether a property holds of every letter or of none.
pub open spec fn letters_agree(stop: spec_fn(u8) -> bool) -> bool {
    forall|x: u8| is_letter(x) ==> #[trigger] stop(x) == stop(0x78u8)
}

proof fn lemma_until_alike(a: Seq<u8>, b: Seq<u8>, p: int, stop: spec_fn(u8) -> bool)
    requires
        alike(a, b),
        0 <= p,
        letters_agree(stop),
    ensures
        until(a, p, stop) == until(b, p, stop),
    decreases a.len() - p,
{
    if p < a.len() {
        assert(a[p] == b[p] || is_letter(a[p]) && is_letter(b[p]));
        assert(stop(a[p]) == stop(b[p]));
        lemma_until_alike(a, b, p + 1, stop);
    }
}

proof fn lemma_stops()
    ensures
        letters_agree(is_byte(0x22)),
        letters_agree(is_byte(0x3a)),
        letters_agree(is_byte(0x5d)),
        letters_agree(not_space()),
        letters_agree(ends_number()),
        letters_agree(ends_value()),
        letters_agree(starts_field()),
{
}

proof fn lemma_until_bounds(s: Seq<u8>, p: int, stop: spec_fn(u8) -> bool)
    requires
        0 <= p <= s.len(),
    ensures
        p <= until(s, p, stop) <= s.len(),
        until(s, p, stop) < s.len() ==> stop(s[until(s, p, stop)]),
    decreases s.len() - p,
{
    if p < s.len() && !stop(s[p]) {
        lemma_until_bounds(s, p + 1, stop);
    }
}

/// Valid UTF-8 stays valid where letters change.
proof fn lemma_valid_alike(a: Seq<u8>, b: Seq<u8>)
    requires
        alike(a, b),
        valid_utf8(a),
    ensures
        valid_utf8(b),
    decreases a.len(),
{
    if a.len() > 0 {
        let n = length_of_first_scalar(a);
        assert(a[0] == b[0] || is_letter(a[0]) && is_letter(b[0]));
        if a[0] < 0x80 {
            assert(b[0] < 0x80);
            assert(is_leading_byte_width_1(a[0]));
            assert(is_leading_byte_width_1(b[0]));
            assert(not_surrogate(decode_first_codepoint(b))) by {
                let x = b[0];
                assert(x & 0x7f <= 0x7f) by (bit_vector);
            }
        } else {
            assert forall|i: int| 0 <= i < n implies #[trigger] a[i] == b[i] by {
                assert(a[i] >= 0x80);
            }
        }
        assert(valid_first_scalar(b));
        assert(length_of_first_scalar(b) == n);
        let x = pop_first_scalar(a);
        let y = pop_first_scalar(b);
        assert(alike(x, y)) by {
            assert forall|i: int| 0 <= i < x.len() implies (#[trigger] x[i] == y[i] || is_letter(x[i])
                && is_letter(y[i])) by {
                assert(x[i] == a[i + n] && y[i] == b[i + n]);
            }
        }
        lemma_valid_alike(x, y);
    }
}

/// The first letter of a text stands at the beginning of its bytes, where another may take
/// its place.
proof fn lemma_first_letter(s: Seq<u8>, text: Seq<char>)
    requires
        utf8_of(s) == Some(text),
        is_lettered(text),
    ensures
        s.len() > 0,
        s[0] == text[0] as u8,
        utf8_of(s.update(0, 0x78u8)) == Some(text.update(0, 'x')),
{
    decode_utf8_encode_utf8(s);
    let new = text.update(0, 'x');
    assert(new.drop_first() =~= text.drop_first());
    let rest = encode_utf8(text.drop_first());
    assert(s == encode_scalar(text[0] as u32) + rest);
    lemma_one_byte(text[0]);
    lemma_one_byte('x');
    assert(encode_utf8(new) == encode_scalar('x' as u32) + rest);
    assert(s.update(0, 0x78u8) =~= encode_utf8(new));
    encode_utf8_valid_utf8(new);
    encode_utf8_decode_utf8(new);
}

proof fn lemma_one_byte(c: char)
    requires
        c as u32 <= 0x7f,
    ensures
        encode_scalar(c as u32) == seq![c as u8],
{
    let t = seq![c];
    is_ascii_chars_encode_utf8(t);
    assert(t.drop_first() =~= Seq::empty());
    assert(encode_utf8(t.drop_first()) =~= Seq::empty());
    assert(encode_utf8(t) == encode_scalar(t[0] as u32) + encode_utf8(t.drop_first()));
    assert(encode_utf8(t) =~= encode_scalar(c as u32));
    assert(encode_utf8(t)[0] == t[0] as u8);
    assert(encode_scalar(c as u32) =~= seq![c as u8]);
}

// ---------------------------------------------------------------------------
// Fields
// ---------------------------------------------------------------------------

/// The parts of a field follow each other.
proof fn lemma_field_bounds(o: Seq<u8>, q: int)
    requires
        0 <= q < o.len(),
    ensures
        field_at(o, q) matches Some((field, next)) ==> {
            let key_end = until(o, q + 1, is_byte(0x22));
            let colon = until(o, key_end + 1, is_byte(0x3a));
            let v = value_place(o, q);
            &&& q < key_end < colon < v <= next <= o.len()
            &&& field is Name ==> v + 1 < next
        },
{
    let key_end = until(o, q + 1, is_byte(0x22));
    lemma_until_bounds(o, q + 1, is_byte(0x22));
    if field_at(o, q) is Some {
        lemma_until_bounds(o, key_end + 1, is_byte(0x3a));
        let colon = until(o, key_end + 1, is_byte(0x3a));
        lemma_until_bounds(o, colon + 1, not_space());
        let v = until(o, colon + 1, not_space());
        if v < o.len() {
            lemma_until_bounds(o, v + 1, is_byte(0x22));
        }
        lemma_until_bounds(o, v, ends_number());
        lemma_until_bounds(o, v, ends_value());
        let key = utf8_of(o.subrange(q + 1, key_end))->0;
        if let Some((_, end)) = value_at(o, v, key) {
            lemma_until_bounds(o, end, starts_field());
        }
    }
}

/// A value is read as it was where the letter that changes is not part of it.
proof fn lemma_value_alike(o: Seq<u8>, u: Seq<u8>, at: int, v: int, key: Seq<char>)
    requires
        alike(o, u),
        u == o.update(at, 0x78u8),
        0 <= v <= o.len(),
        0 <= at < o.len(),
        at < v || (value_at(o, v, key) matches Some((_, end)) && end <= at),
    ensures
        value_at(u, v, key) == value_at(o, v, key),
{
    lemma_stops();
    lemma_until_alike(o, u, v + 1, is_byte(0x22));
    lemma_until_alike(o, u, v, ends_number());
    lemma_until_alike(o, u, v, ends_value());
    lemma_until_bounds(o, v, ends_number());
    if v < o.len() {
        lemma_until_bounds(o, v + 1, is_byte(0x22));
        assert(o[v] == u[v] || is_letter(o[v]) && is_letter(u[v]));
    }
    let close = until(o, v + 1, is_byte(0x22));
    let end = until(o, v, ends_number());
    if at < v || close <= at {
        if close <= o.len() {
            assert(u.subrange(v + 1, close) =~= o.subrange(v + 1, close));
        }
    }
    if at < v || end <= at {
        assert(u.subrange(v, end) =~= o.subrange(v, end));
    }
}

/// A field is read as it was where the letter that changes is not part of it.
proof fn lemma_field_alike(o: Seq<u8>, u: Seq<u8>, at: int, q: int)
    requires
        alike(o, u),
        u == o.update(at, 0x78u8),
        0 <= q < o.len(),
        0 <= at < o.len(),
        at < q || (field_at(o, q) matches Some((_, next)) && next <= at),
    ensures
        field_at(u, q) == field_at(o, q),
        value_place(u, q) == value_place(o, q),
{
    lemma_stops();
    lemma_field_bounds(o, q);
    lemma_until_bounds(o, q + 1, is_byte(0x22));
    lemma_until_alike(o, u, q + 1, is_byte(0x22));
    let key_end = until(o, q + 1, is_byte(0x22));
    lemma_until_alike(o, u, key_end + 1, is_byte(0x3a));
    if key_end < o.len() {
        assert(u.subrange(q + 1, key_end) =~= o.subrange(q + 1, key_end));
        lemma_until_bounds(o, key_end + 1, is_byte(0x3a));
    }
    let colon = until(o, key_end + 1, is_byte(0x3a));
    assert(colon >= 0) by {
        if key_end >= o.len() {
            assert(colon == key_end + 1);
        }
    }
    lemma_until_alike(o, u, colon + 1, not_space());
    if key_end < o.len() && colon < o.len() && utf8_of(o.subrange(q + 1, key_end)) is Some {
        lemma_until_bounds(o, colon + 1, not_space());
        let v = until(o, colon + 1, not_space());
        let key = utf8_of(o.subrange(q + 1, key_end))->0;
        if let Some((_, end)) = value_at(o, v, key) {
            lemma_end_bounds(o, v, key);
            lemma_until_bounds(o, end, starts_field());
            lemma_until_alike(o, u, end, starts_field());
        }
        lemma_value_alike(o, u, at, v, key);
    }
}

proof fn lemma_end_bounds(o: Seq<u8>, v: int, key: Seq<char>)
    requires
        0 <= v <= o.len(),
    ensures
        value_at(o, v, key) matches Some((_, end)) ==> v <= end <= o.len(),
{
    lemma_until_bounds(o, v, ends_number());
    lemma_until_bounds(o, v, ends_value());
    if v < o.len() {
        lemma_until_bounds(o, v + 1, is_byte(0x22));
    }
}

/// The first letter of a name stands behind the quote that opens it.
proof fn lemma_named_field(o: Seq<u8>, q: int, text: Seq<char>, next: int)
    requires
        0 <= q < o.len(),
        field_at(o, q) == Some((FieldView::Name(text), next)),
        is_lettered(text),
    ensures
        o[value_place(o, q) + 1] == text[0] as u8,
{
    lemma_field_bounds(o, q);
    let v = value_place(o, q);
    let close = until(o, v + 1, is_byte(0x22));
    lemma_until_bounds(o, v + 1, is_byte(0x22));
    lemma_first_letter(o.subrange(v + 1, close), text);
}

/// A name whose first letter changes is read with that letter.
proof fn lemma_renamed_field(o: Seq<u8>, u: Seq<u8>, q: int, text: Seq<char>, next: int)
    requires
        0 <= q < o.len(),
        field_at(o, q) == Some((FieldView::Name(text), next)),
        is_lettered(text),
        u == o.update(value_place(o, q) + 1, 0x78u8),
        alike(o, u),
    ensures
        field_at(u, q) == Some((FieldView::Name(text.update(0, 'x')), next)),
{
    lemma_stops();
    lemma_field_bounds(o, q);
    let key_end = until(o, q + 1, is_byte(0x22));
    let colon = until(o, key_end + 1, is_byte(0x3a));
    let v = value_place(o, q);
    let close = until(o, v + 1, is_byte(0x22));
    lemma_until_bounds(o, v + 1, is_byte(0x22));
    lemma_until_alike(o, u, q + 1, is_byte(0x22));
    lemma_until_alike(o, u, key_end + 1, is_byte(0x3a));
    lemma_until_alike(o, u, colon + 1, not_space());
    lemma_until_alike(o, u, v + 1, is_byte(0x22));
    lemma_until_alike(o, u, close + 1, starts_field());
    lemma_first_letter(o.subrange(v + 1, close), text);
    assert(u.subrange(q + 1, key_end) =~= o.subrange(q + 1, key_end));
    assert(u.subrange(v + 1, close) =~= o.subrange(v + 1, close).update(0, 0x78u8));
}

// ---------------------------------------------------------------------------
// Objects
// ---------------------------------------------------------------------------

/// Where fields set no name, the name is what it was; else it begins behind them.
proof fn lemma_last_name(o: Seq<u8>, pos: int, found: int, f: FieldsView, name: Option<Seq<char>>)
    requires
        0 <= found <= pos,
        fields_from(o, pos, f) is Some,
    ensures
        ({
            let at = name_place_from(o, pos, found);
            let g = fields_from(o, pos, f)->0;
            if at == found {
                &&& g.name == f.name
                &&& fields_from(o, pos, FieldsView { name, ..f }) == Some(FieldsView { name, ..g })
            } else {
                pos < at < o.len()
            }
        }),
    decreases o.len() - pos,
{
    let q = until(o, pos, is_byte(0x22));
    if pos <= o.len() {
        lemma_until_bounds(o, pos, is_byte(0x22));
    }
    if q < o.len() {
        lemma_field_bounds(o, q);
        if let Some((field, next)) = field_at(o, q) {
            let place = if field is Name {
                value_place(o, q) + 1
            } else {
                found
            };
            lemma_last_name(o, next, place, field_set(f, field), name);
            if !(field is Name) {
                assert(field_set(FieldsView { name, ..f }, field) == (FieldsView {
                    name,
                    ..field_set(f, field)
                }));
            }
        }
    }
}

/// Fields behind the letter that changes are read as they were.
proof fn lemma_fields_behind(o: Seq<u8>, u: Seq<u8>, at: int, pos: int, f: FieldsView)
    requires
        alike(o, u),
        u == o.update(at, 0x78u8),
        0 <= at < o.len(),
        at < pos,
    ensures
        fields_from(u, pos, f) == fields_from(o, pos, f),
    decreases o.len() - pos,
{
    lemma_stops();
    lemma_until_alike(o, u, pos, is_byte(0x22));
    let q = until(o, pos, is_byte(0x22));
    if pos <= o.len() {
        lemma_until_bounds(o, pos, is_byte(0x22));
    }
    if q < o.len() {
        lemma_field_alike(o, u, at, q);
        lemma_field_bounds(o, q);
        if let Some((field, next)) = field_at(o, q) {
            lemma_fields_behind(o, u, at, next, field_set(f, field));
        }
    }
}

/// The name that fields set last begins where it is said to.
proof fn lemma_name_letter(
    o: Seq<u8>,
    pos: int,
    found: int,
    f: FieldsView,
    g: FieldsView,
    text: Seq<char>,
)
    requires
        0 <= found <= pos,
        fields_from(o, pos, f) == Some(g),
        name_place_from(o, pos, found) != found,
        g.name == Some(text),
        is_lettered(text),
    ensures
        o[name_place_from(o, pos, found)] == text[0] as u8,
    decreases o.len() - pos,
{
    let q = until(o, pos, is_byte(0x22));
    if pos <= o.len() {
        lemma_until_bounds(o, pos, is_byte(0x22));
    }
    lemma_field_bounds(o, q);
    if let Some((field, next)) = field_at(o, q) {
        let place = if field is Name {
            value_place(o, q) + 1
        } else {
            found
        };
        lemma_last_name(o, next, place, field_set(f, field), None);
        if name_place_from(o, next, place) == place {
            lemma_named_field(o, q, text, next);
        } else {
            lemma_name_letter(o, next, place, field_set(f, field), g, text);
        }
    }
}

/// Fields whose last name gets another first letter set the name with that letter.
proof fn lemma_fields_renamed(
    o: Seq<u8>,
    u: Seq<u8>,
    at: int,
    pos: int,
    found: int,
    f: FieldsView,
    g: FieldsView,
    text: Seq<char>,
)
    requires
        alike(o, u),
        u == o.update(at, 0x78u8),
        0 <= found <= pos,
        fields_from(o, pos, f) == Some(g),
        at == name_place_from(o, pos, found),
        at != found,
        0 <= at < o.len(),
        g.name == Some(text),
        is_lettered(text),
    ensures
        fields_from(u, pos, f) == Some(FieldsView { name: Some(text.update(0, 'x')), ..g }),
    decreases o.len() - pos,
{
    lemma_stops();
    lemma_until_alike(o, u, pos, is_byte(0x22));
    let q = until(o, pos, is_byte(0x22));
    if pos <= o.len() {
        lemma_until_bounds(o, pos, is_byte(0x22));
    }
    lemma_field_bounds(o, q);
    if let Some((field, next)) = field_at(o, q) {
        let place = if field is Name {
            value_place(o, q) + 1
        } else {
            found
        };
        let name = Some(text.update(0, 'x'));
        lemma_last_name(o, next, place, field_set(f, field), name);
        if at == place {
            lemma_renamed_field(o, u, q, text, next);
            lemma_fields_behind(o, u, at, next, FieldsView { name, ..f });
            assert(field_set(f, FieldView::Name(text.update(0, 'x'))) == (FieldsView { name, ..f }));
        } else {
            lemma_field_alike(o, u, at, q);
            lemma_fields_renamed(o, u, at, next, place, field_set(f, field), g, text);
        }
    }
}

/// No fields.
pub open spec fn no_fields() -> FieldsView {
    FieldsView { name: None, offset: None, length: None }
}

/// The name of an entry begins inside the object that describes it.
proof fn lemma_name_place(o: Seq<u8>)
    ensures
        entry_of(o) matches Some(e) ==> 0 < name_place(o) < o.len() && (is_lettered(e.name)
            ==> o[name_place(o)] == e.name[0] as u8),
{
    if let Some(e) = entry_of(o) {
        lemma_last_name(o, 0, 0, no_fields(), None);
        if is_lettered(e.name) {
            lemma_name_letter(o, 0, 0, no_fields(), fields_from(o, 0, no_fields())->0, e.name);
        }
    }
}

/// An object whose name gets another first letter describes the entry of that name.
proof fn lemma_entry_renamed(o: Seq<u8>, e: ManifestView)
    requires
        entry_of(o) == Some(e),
        is_lettered(e.name),
    ensures
        entry_of(o.update(name_place(o), 0x78u8)) == Some(
            ManifestView { name: e.name.update(0, 'x'), ..e },
        ),
{
    lemma_name_place(o);
    let at = name_place(o);
    let u = o.update(at, 0x78u8);
    assert(alike(o, u));
    lemma_fields_renamed(o, u, at, 0, 0, no_fields(), fields_from(o, 0, no_fields())->0, e.name);
}

// ---------------------------------------------------------------------------
// Manifests
// ---------------------------------------------------------------------------

/// Whether a property holds of names alone that begin with a letter.
pub open spec fn names_letters(p: spec_fn(Seq<char>) -> bool) -> bool {
    forall|name: Seq<char>| #[trigger] p(name) ==> is_lettered(name)
}

/// An entry as it is read once names with the property `p` are neutralized.
pub open spec fn renamed_entry(e: ManifestView, p: spec_fn(Seq<char>) -> bool) -> ManifestView {
    if p(e.name) {
        ManifestView { name: e.name.update(0, 'x'), ..e }
    } else {
        e
    }
}

/// Entries as they are read once names with the property `p` are neutralized.
pub open spec fn renamed(
    entries: Seq<ManifestView>,
    p: spec_fn(Seq<char>) -> bool,
) -> Seq<ManifestView> {
    Seq::new(entries.len(), |k: int| renamed_entry(entries[k], p))
}

/// From where on the names of further entries begin.
spec fn next_from(depth: int, start: int, p: int) -> int {
    if depth >= 1 {
        start
    } else {
        p
    }
}

/// The names of entries begin where they are said to, each inside its own object.
#[verifier::rlimit(60)]
proof fn lemma_name_places(
    s: Seq<u8>,
    p: int,
    end: int,
    depth: int,
    start: int,
    acc: Seq<ManifestView>,
    placed: Seq<int>,
)
    requires
        0 <= start <= p,
        end <= s.len(),
        acc.len() == placed.len(),
    ensures
        ({
            let entries = objects_from(s, p, end, depth, start, acc);
            let places = places_from(s, p, end, depth, start, placed);
            &&& entries.len() == places.len()
            &&& acc.len() <= entries.len()
            &&& forall|k: int| 0 <= k < acc.len() ==> #[trigger] entries[k] == acc[k]
            &&& forall|k: int| 0 <= k < acc.len() ==> #[trigger] places[k] == placed[k]
            &&& forall|k: int|
                acc.len() <= k < entries.len() ==> next_from(depth, start, p) <= #[trigger] places[k]
                    < end
            &&& forall|k: int|
                acc.len() <= k < entries.len() && is_lettered((#[trigger] entries[k]).name)
                    ==> s[places[k]] == entries[k].name[0] as u8
            &&& forall|j: int, k: int|
                acc.len() <= j < k < entries.len() ==> #[trigger] places[j] < #[trigger] places[k]
        }),
    decreases end - p,
{
    if p < end {
        if s[p] == 0x7b {
            let opened = if depth == 0 {
                p
            } else {
                start
            };
            lemma_name_places(s, p + 1, end, depth + 1, opened, acc, placed);
        } else if s[p] == 0x7d {
            let o = s.subrange(start, p + 1);
            lemma_name_place(o);
            match entry_of(o) {
                Some(e) if depth == 1 => {
                    let more = acc.push(e);
                    let at = start + name_place(o);
                    let farther = placed.push(at);
                    lemma_name_places(s, p + 1, end, depth - 1, start, more, farther);
                    let entries = objects_from(s, p + 1, end, depth - 1, start, more);
                    let places = places_from(s, p + 1, end, depth - 1, start, farther);
                    assert(entries[acc.len() as int] == more[acc.len() as int]);
                    assert(places[acc.len() as int] == farther[acc.len() as int]);
                    assert(s[at] == o[name_place(o)]);
                    assert forall|k: int| 0 <= k < acc.len() implies #[trigger] entries[k]
                        == acc[k] by {
                        assert(entries[k] == more[k]);
                    }
                    assert forall|k: int| 0 <= k < acc.len() implies #[trigger] places[k]
                        == placed[k] by {
                        assert(places[k] == farther[k]);
                    }
                },
                _ => {
                    lemma_name_places(s, p + 1, end, depth - 1, start, acc, placed);
                },
            }
        } else {
            lemma_name_places(s, p + 1, end, depth, start, acc, placed);
        }
    }
}

/// An object of a neutralized manifest describes its entry under the name that it is left.
proof fn lemma_object_renamed(
    s: Seq<u8>,
    n: Seq<u8>,
    entries: Seq<ManifestView>,
    places: Seq<int>,
    p: spec_fn(Seq<char>) -> bool,
    start: int,
    end: int,
    k: int,
)
    requires
        n == neutralized(s, entries, places, p),
        names_letters(p),
        entries.len() == places.len(),
        0 <= start < end <= s.len(),
        0 <= k <= entries.len(),
        forall|j: int| 0 <= j < k ==> #[trigger] places[j] < start,
        match entry_of(s.subrange(start, end)) {
            Some(e) => k < entries.len() && entries[k] == e && places[k] == start + name_place(
                s.subrange(start, end),
            ) && forall|j: int| k < j < places.len() ==> #[trigger] places[j] >= end,
            None => forall|j: int| k <= j < places.len() ==> #[trigger] places[j] >= end,
        },
    ensures
        entry_of(n.subrange(start, end)) == match entry_of(s.subrange(start, end)) {
            Some(e) => Some(renamed_entry(e, p)),
            None => None,
        },
{
    let o = s.subrange(start, end);
    let u = n.subrange(start, end);
    lemma_name_place(o);
    if k < entries.len() && entry_of(o) == Some(entries[k]) && p(entries[k].name) {
        let e = entries[k];
        assert(is_lettered(e.name));
        let at = name_place(o);
        assert forall|i: int| 0 <= i < o.len() implies #[trigger] u[i] == o.update(at, 0x78u8)[i] by {
            assert(u[i] == n[start + i]);
            if i == at {
                assert(p(entries[k].name) && places[k] == start + i);
                assert(begins_at(entries, places, p, start + i));
            } else {
                assert(!begins_at(entries, places, p, start + i)) by {
                    assert forall|j: int| 0 <= j < entries.len() implies places[j] != start + i by {
                        assert(j < k ==> places[j] < start);
                        assert(k < j ==> places[j] >= end);
                    }
                }
            }
        }
        assert(u =~= o.update(at, 0x78u8));
        lemma_entry_renamed(o, e);
    } else {
        assert forall|i: int| 0 <= i < o.len() implies #[trigger] u[i] == o[i] by {
            assert(u[i] == n[start + i]);
            assert(!begins_at(entries, places, p, start + i)) by {
                assert forall|j: int|
                    0 <= j < entries.len() && p((#[trigger] entries[j]).name) implies places[j] != start
                    + i by {
                    assert(j < k ==> places[j] < start);
                    assert(k < j ==> places[j] >= end);
                }
            }
        }
        assert(u =~= o);
    }
}

/// Neutralizing changes letters alone.
proof fn lemma_neutralized_alike(
    s: Seq<u8>,
    entries: Seq<ManifestView>,
    places: Seq<int>,
    p: spec_fn(Seq<char>) -> bool,
)
    requires
        names_letters(p),
        forall|k: int|
            0 <= k < entries.len() && is_lettered((#[trigger] entries[k]).name) ==> s[places[k]]
                == entries[k].name[0] as u8,
    ensures
        alike(s, neutralized(s, entries, places, p)),
{
    let n = neutralized(s, entries, places, p);
    assert forall|i: int| 0 <= i < s.len() implies (#[trigger] s[i] == n[i] || is_letter(s[i])
        && is_letter(n[i])) by {
        if begins_at(entries, places, p, i) {
            let k = choose|k: int|
                0 <= k < entries.len() && p((#[trigger] entries[k]).name) && entries[k].name.len() > 0
                    && places[k] == i;
            assert(is_lettered(entries[k].name));
        }
    }
}

/// The objects of a neutralized manifest describe its entries under the names that they
/// are left.
#[verifier::rlimit(60)]
proof fn lemma_objects_renamed(
    s: Seq<u8>,
    n: Seq<u8>,
    entries: Seq<ManifestView>,
    places: Seq<int>,
    prop: spec_fn(Seq<char>) -> bool,
    p: int,
    end: int,
    depth: int,
    start: int,
    acc: Seq<ManifestView>,
    placed: Seq<int>,
)
    requires
        0 <= start <= p,
        end <= s.len(),
        acc.len() == placed.len(),
        entries == objects_from(s, p, end, depth, start, acc),
        places == places_from(s, p, end, depth, start, placed),
        n == neutralized(s, entries, places, prop),
        alike(s, n),
        names_letters(prop),
        forall|k: int| 0 <= k < placed.len() ==> #[trigger] placed[k] < next_from(depth, start, p),
    ensures
        objects_from(n, p, end, depth, start, renamed(acc, prop)) == renamed(entries, prop),
    decreases end - p,
{
    lemma_name_places(s, p, end, depth, start, acc, placed);
    if p < end {
        assert(s[p] == n[p] || is_letter(s[p]) && is_letter(n[p]));
        if s[p] == 0x7b {
            let opened = if depth == 0 {
                p
            } else {
                start
            };
            lemma_objects_renamed(
                s,
                n,
                entries,
                places,
                prop,
                p + 1,
                end,
                depth + 1,
                opened,
                acc,
                placed,
            );
        } else if s[p] == 0x7d {
            let o = s.subrange(start, p + 1);
            if depth == 1 {
                lemma_name_place(o);
                let more = match entry_of(o) {
                    Some(e) => acc.push(e),
                    None => acc,
                };
                let farther = if entry_of(o) is Some {
                    placed.push(start + name_place(o))
                } else {
                    placed
                };
                lemma_name_places(s, p + 1, end, depth - 1, start, more, farther);
                let k = acc.len() as int;
                assert forall|j: int| 0 <= j < k implies #[trigger] places[j] < start by {
                    assert(places[j] == placed[j]);
                }
                if let Some(e) = entry_of(o) {
                    assert(entries[k] == more[k]);
                    assert(places[k] == farther[k]);
                    assert(renamed(more, prop) =~= renamed(acc, prop).push(renamed_entry(e, prop)));
                }
                lemma_object_renamed(s, n, entries, places, prop, start, p + 1, k);
                lemma_objects_renamed(
                    s,
                    n,
                    entries,
                    places,
                    prop,
                    p + 1,
                    end,
                    depth - 1,
                    start,
                    more,
                    farther,
                );
            } else {
                lemma_objects_renamed(
                    s,
                    n,
                    entries,
                    places,
                    prop,
                    p + 1,
                    end,
                    depth - 1,
                    start,
                    acc,
                    placed,
                );
            }
        } else {
            lemma_objects_renamed(
                s,
                n,
                entries,
                places,
                prop,
                p + 1,
                end,
                depth,
                start,
                acc,
                placed,
            );
        }
    }
}

/// A manifest starts where it started.
proof fn lemma_start_alike(a: Seq<u8>, b: Seq<u8>, at: int)
    requires
        alike(a, b),
    ensures
        rfind_from(a, MANIFEST_START@, at) == rfind_from(b, MANIFEST_START@, at),
        rfind_from(a, MANIFEST_START@, at) matches Some(i) ==> 0 <= i && i + 2 <= a.len(),
    decreases at + 1,
{
    if at >= 0 {
        if at + 2 <= a.len() {
            let x = a.subrange(at, at + 2);
            let y = b.subrange(at, at + 2);
            assert(x[0] == a[at] && x[1] == a[at + 1] && y[0] == b[at] && y[1] == b[at + 1]);
            assert(a[at] == b[at] || is_letter(a[at]) && is_letter(b[at]));
            assert(a[at + 1] == b[at + 1] || is_letter(a[at + 1]) && is_letter(b[at + 1]));
            if x == MANIFEST_START@ {
                assert(y =~= x);
            }
            if y == MANIFEST_START@ {
                assert(y =~= x);
            }
        }
        lemma_start_alike(a, b, at - 1);
    }
}

/// The parts of a manifest, and where its names begin.
proof fn lemma_manifest_parts(t: Seq<u8>)
    ensures
        manifest_of(t) matches Some((entries, start, end)) ==> {
            let places = name_places(t, start);
            &&& 0 <= start < end <= t.len()
            &&& end - 1 == until(t, start, is_byte(0x5d))
            &&& entries == objects_from(t, start + 1, end - 1, 0, start + 1, Seq::empty())
            &&& places == places_from(t, start + 1, end - 1, 0, start + 1, Seq::empty())
            &&& entries.len() == places.len()
            &&& forall|k: int| 0 <= k < places.len() ==> start < #[trigger] places[k] < end
            &&& forall|k: int|
                0 <= k < entries.len() && is_lettered((#[trigger] entries[k]).name)
                    ==> t[places[k]] == entries[k].name[0] as u8
            &&& forall|j: int, k: int|
                0 <= j < k < entries.len() ==> #[trigger] places[j] < #[trigger] places[k]
        },
{
    assert(alike(t, t));
    lemma_start_alike(t, t, t.len() - MANIFEST_START@.len());
    if let Some((entries, start, end)) = manifest_of(t) {
        lemma_until_bounds(t, start, is_byte(0x5d));
        lemma_name_places(t, start + 1, end - 1, 0, start + 1, Seq::empty(), Seq::empty());
    }
}

/// Neutralizing names keeps the length of a tail and every byte outside its manifest; inside
/// it, `x` takes the place of the first letters of the names.
pub proof fn neutralizing_keeps_layout(t: Seq<u8>, p: spec_fn(Seq<char>) -> bool, i: int)
    requires
        manifest_of(t) is Some,
        0 <= i < t.len(),
    ensures
        ({
            let (_, start, end) = manifest_of(t)->0;
            without_names(t, p) matches Some(n) && {
                &&& n.len() == t.len()
                &&& n[i] == t[i] || n[i] == 0x78
                &&& i < start || end <= i ==> n[i] == t[i]
            }
        }),
{
    lemma_manifest_parts(t);
}

/// A tail whose names were neutralized lists the same entries at the same places: those with
/// the property `p` with `x` as the first letter of their names, every other under its name.
pub proof fn neutralized_tails_read_back(
    t: Seq<u8>,
    p: spec_fn(Seq<char>) -> bool,
    entries: Seq<ManifestView>,
    start: int,
    end: int,
)
    requires
        manifest_of(t) == Some((entries, start, end)),
        names_letters(p),
    ensures
        without_names(t, p) matches Some(n) && manifest_of(n) == Some(
            (renamed(entries, p), start, end),
        ),
{
    let places = name_places(t, start);
    let n = neutralized(t, entries, places, p);
    lemma_manifest_parts(t);
    lemma_neutralized_alike(t, entries, places, p);
    lemma_start_alike(t, n, t.len() - MANIFEST_START@.len());
    lemma_stops();
    lemma_until_alike(t, n, start, is_byte(0x5d));
    let a = t.subrange(start, end);
    let b = n.subrange(start, end);
    assert(alike(a, b)) by {
        assert forall|i: int| 0 <= i < a.len() implies (#[trigger] a[i] == b[i] || is_letter(a[i])
            && is_letter(b[i])) by {
            assert(a[i] == t[start + i] && b[i] == n[start + i]);
            assert(t[start + i] == n[start + i] || is_letter(t[start + i]) && is_letter(
                n[start + i],
            ));
        }
    }
    lemma_valid_alike(a, b);
    lemma_objects_renamed(
        t,
        n,
        entries,
        places,
        p,
        start + 1,
        end - 1,
        0,
        start + 1,
        Seq::empty(),
        Seq::empty(),
    );
    assert(renamed(Seq::empty(), p) =~= Seq::empty());
}

// ---------------------------------------------------------------------------
// Listed names and policies
// ---------------------------------------------------------------------------

/// Whether every name of a list begins with a letter other than the one that neutralizes.
pub open spec fn can_be_neutralized(names: Seq<Seq<char>>) -> bool {
    forall|i: int|
        0 <= i < names.len() ==> is_lettered(#[trigger] names[i]) && names[i][0] != 'x'
}

/// The names of display recipes can be neutralized.
pub proof fn display_names_can_be_neutralized()
    ensures
        can_be_neutralized(display_filter_names()),
        can_be_neutralized(display_names()),
        can_be_neutralized(display_adjustment_names()),
{
    reveal_strlit("filter.info");
    reveal_strlit("filtEr.info");
    reveal_strlit("basictone.info");
    reveal_strlit("basictone.vig.table");
    reveal_strlit("master.mode.preset.info");
    reveal_strlit("local.uhdr.gainmap.data");
    reveal_strlit("local.uhdr.gainmap.info");
    reveal_strlit("hdr.transform.data");
}

/// A tail without the listed names lists the same entries at the same places, none of them
/// under a listed name and each of the others under its own.
pub proof fn listed_names_are_gone(
    t: Seq<u8>,
    names: Seq<Seq<char>>,
    entries: Seq<ManifestView>,
    start: int,
    end: int,
)
    requires
        manifest_of(t) == Some((entries, start, end)),
        can_be_neutralized(names),
    ensures
        without_names(t, one_of(names)) matches Some(n) && manifest_of(n) matches Some(
            (left, from, to),
        ) && {
            &&& from == start
            &&& to == end
            &&& left.len() == entries.len()
            &&& forall|k: int|
                0 <= k < left.len() ==> {
                    &&& !names.contains((#[trigger] left[k]).name)
                    &&& left[k].offset == entries[k].offset
                    &&& left[k].length == entries[k].length
                    &&& !names.contains(entries[k].name) ==> left[k] == entries[k]
                }
        },
{
    let p = one_of(names);
    assert(names_letters(p)) by {
        assert forall|name: Seq<char>| #[trigger] p(name) implies is_lettered(name) by {
            let i = choose|i: int| 0 <= i < names.len() && names[i] == name;
            assert(is_lettered(names[i]));
        }
    }
    neutralized_tails_read_back(t, p, entries, start, end);
    let left = renamed(entries, p);
    assert forall|k: int| 0 <= k < left.len() implies !names.contains((#[trigger] left[k]).name) by {
        if p(entries[k].name) {
            assert(is_lettered(entries[k].name));
            assert(left[k].name[0] == 'x');
            if names.contains(left[k].name) {
                let i = choose|i: int| 0 <= i < names.len() && names[i] == left[k].name;
                assert(names[i][0] != 'x');
            }
        }
    }
}

/// A text that begins with an ASCII letter's text begins with that letter.
proof fn lemma_prefix_letter(name: Seq<char>, prefix: Seq<char>)
    requires
        text_starts(name, prefix),
        is_lettered(prefix),
    ensures
        is_lettered(name),
        name[0] == prefix[0],
{
    let x = encode_utf8(name);
    let y = encode_utf8(prefix);
    lemma_one_byte(prefix[0]);
    assert(y[0] == prefix[0] as u8);
    assert(x.subrange(0, y.len() as int)[0] == x[0]);
    assert(name.len() > 0);
    encode_utf8_first_scalar(name);
    assert(is_leading_byte_width_1(x[0]));
    assert(decode_first_scalar(x) == name[0] as u32);
    let b = x[0];
    assert(b & 0x7f == b) by (bit_vector)
        requires
            b < 0x80,
    ;
    assert(leading_bits_width_1(b) == b);
    encode_utf8_first_scalar(prefix);
    assert(y[0] == b);
    assert(decode_first_codepoint(x) == b as u32);
    assert(name[0] as u32 == prefix[0] as u32);
    char_u32_cast(name[0], prefix[0] as u32);
    char_u32_cast(prefix[0], prefix[0] as u32);
}

/// The names that a policy neutralizes begin with letters.
pub proof fn policies_neutralize_letters(policy: OppoCameraTail)
    ensures
        names_letters(neutralized_by(policy)),
        forall|name: Seq<char>| #[trigger] neutralizes(name, policy) ==> name[0] != 'x',
{
    reveal_strlit("local.uhdr.gainmap.data");
    reveal_strlit("local.uhdr.gainmap.info");
    reveal_strlit("hdr.");
    reveal_strlit("local.hdr.");
    reveal_strlit("src.local.hdr.");
    assert forall|name: Seq<char>| #[trigger] neutralizes(name, policy) implies is_lettered(name)
        && name[0] != 'x' by {
        if text_starts(name, "hdr."@) {
            lemma_prefix_letter(name, "hdr."@);
        } else if text_starts(name, "local.hdr."@) {
            lemma_prefix_letter(name, "local.hdr."@);
        } else if text_starts(name, "src.local.hdr."@) {
            lemma_prefix_letter(name, "src.local.hdr."@);
        }
    }
    let p = neutralized_by(policy);
    assert forall|name: Seq<char>| #[trigger] p(name) implies is_lettered(name) by {
        assert(neutralizes(name, policy));
    }
}

/// A tail that is preserved without private HDR data lists the same entries at the same
/// places, none of them under a name of such data and each of the others under its own.
pub proof fn preserved_tails_list_no_private_names(
    t: Seq<u8>,
    policy: OppoCameraTail,
    entries: Seq<ManifestView>,
    start: int,
    end: int,
)
    requires
        policy is PreserveNoUhdr || policy is PreserveNoHdr,
        manifest_of(t) == Some((entries, start, end)),
    ensures
        tail_under(t, policy) matches Some(n) && manifest_of(n) matches Some((left, from, to)) && {
            &&& n.len() == t.len()
            &&& from == start
            &&& to == end
            &&& left.len() == entries.len()
            &&& forall|k: int|
                0 <= k < left.len() ==> {
                    &&& !neutralizes((#[trigger] left[k]).name, policy)
                    &&& left[k].offset == entries[k].offset
                    &&& left[k].length == entries[k].length
                    &&& !neutralizes(entries[k].name, policy) ==> left[k] == entries[k]
                }
        },
{
    let p = neutralized_by(policy);
    policies_neutralize_letters(policy);
    neutralized_tails_read_back(t, p, entries, start, end);
    let left = renamed(entries, p);
    assert forall|k: int| 0 <= k < left.len() implies !neutralizes(
        (#[trigger] left[k]).name,
        policy,
    ) by {
        if p(entries[k].name) {
            assert(is_lettered(entries[k].name));
            assert(left[k].name[0] == 'x');
        }
    }
}

proof fn lemma_hdr_is_not_displayed()
    ensures
        !display_names().contains("hdr.transform.data"@),
{
    reveal_strlit("filter.info");
    reveal_strlit("filtEr.info");
    reveal_strlit("basictone.info");
    reveal_strlit("basictone.vig.table");
    reveal_strlit("master.mode.preset.info");
    reveal_strlit("local.uhdr.gainmap.data");
    reveal_strlit("local.uhdr.gainmap.info");
    reveal_strlit("hdr.transform.data");
    let names = display_names();
    assert forall|i: int| 0 <= i < names.len() implies #[trigger] names[i] != "hdr.transform.data"@ by {
        assert(names[i][0] != 'h');
    }
}

/// The tails of a file without display recipes and without display adjustments differ in the
/// first letter of the HDR transform's name alone: one keeps its `h` where the other has `x`.
pub proof fn display_tails_differ_in_the_hdr_transform(s: Seq<u8>, i: int)
    ensures
        file_tail_without(s, display_names()) is Some == file_tail_without(
            s,
            display_adjustment_names(),
        ) is Some,
        file_tail_without(s, display_names()) matches Some(f) ==> {
            let a = file_tail_without(s, display_adjustment_names())->0;
            let t = raw_tail(s)->0;
            &&& f.len() == t.len()
            &&& a.len() == t.len()
            &&& manifest_of(t) matches Some((entries, start, _)) && (0 <= i < t.len() ==> if begins_at(
                entries,
                name_places(t, start),
                one_of(seq!["hdr.transform.data"@]),
                i,
            ) {
                f[i] == 0x68 && a[i] == 0x78
            } else {
                f[i] == a[i]
            })
        },
{
    if let Some(t) = raw_tail(s) {
        if let Some((entries, start, _)) = manifest_of(t) {
            let places = name_places(t, start);
            let hdr = "hdr.transform.data"@;
            let fewer = display_names();
            let more = display_adjustment_names();
            assert(more[5] == hdr && more[6] == fewer[5] && more[7] == fewer[6]);
            assert forall|name: Seq<char>| #[trigger] more.contains(name) == (fewer.contains(name)
                || name == hdr) by {
                if fewer.contains(name) {
                    let k = choose|k: int| 0 <= k < fewer.len() && fewer[k] == name;
                    assert(more[if k < 5 {
                        k
                    } else {
                        k + 1
                    }] == name);
                }
                if more.contains(name) && name != hdr {
                    let k = choose|k: int| 0 <= k < more.len() && more[k] == name;
                    assert(fewer[if k < 5 {
                        k
                    } else {
                        k - 1
                    }] == name);
                }
            }
            let only = seq![hdr];
            assert(only[0] == hdr);
            if begins_at(entries, places, one_of(only), i) {
                let k = choose|k: int|
                    0 <= k < entries.len() && one_of(only)((#[trigger] entries[k]).name)
                        && entries[k].name.len() > 0 && places[k] == i;
                assert(one_of(more)(entries[k].name));
                assert(begins_at(entries, places, one_of(more), i));
                lemma_manifest_parts(t);
                reveal_strlit("hdr.transform.data");
                assert(is_lettered(entries[k].name));
                assert(t[i] == 0x68);
                assert(!begins_at(entries, places, one_of(fewer), i)) by {
                    assert(!fewer.contains(hdr)) by {
                        lemma_hdr_is_not_displayed();
                    }
                    assert forall|j: int|
                        0 <= j < entries.len() && one_of(fewer)((#[trigger] entries[j]).name) implies places[j]
                        != i by {
                        assert(j != k);
                        assert(j < k ==> places[j] < places[k]);
                        assert(k < j ==> places[k] < places[j]);
                    }
                }
            } else {
                if begins_at(entries, places, one_of(more), i) {
                    let k = choose|k: int|
                        0 <= k < entries.len() && one_of(more)((#[trigger] entries[k]).name)
                            && entries[k].name.len() > 0 && places[k] == i;
                    assert(!one_of(only)(entries[k].name));
                    assert(one_of(fewer)(entries[k].name));
                }
                if begins_at(entries, places, one_of(fewer), i) {
                    let k = choose|k: int|
                        0 <= k < entries.len() && one_of(fewer)((#[trigger] entries[k]).name)
                            && entries[k].name.len() > 0 && places[k] == i;
                    assert(one_of(more)(entries[k].name));
                }
            }
        }
    }
}

} // verus!
