//! The manifest of a vendor tail: a JSON array of named entries.

use crate::bytes::{
    find_byte, is_byte, is_space, not_space, rfind, rfind_bytes, skip_space, space, until,
};
use crate::exif::{digits_end, digits_value, find_digits_end, parse_digits};
use crate::seqs::views;
use crate::text::{opt_string, same_text, utf8_text};
use vstd::prelude::*;
use vstd::string::*;
use vstd::utf8::*;

verus! {

/// What a manifest starts with.
pub const MANIFEST_START: [u8; 2] = [0x5b, 0x7b];

/// One entry of the manifest of a vendor tail.
#[derive(Debug, Clone)]
pub struct ManifestEntry {
    pub name: String,
    pub offset: u64,
    pub length: u64,
}

/// What a manifest entry says.
#[verifier::ext_equal]
pub struct ManifestView {
    pub name: Seq<char>,
    pub offset: u64,
    pub length: u64,
}

impl View for ManifestEntry {
    type V = ManifestView;

    open spec fn view(&self) -> ManifestView {
        ManifestView { name: self.name@, offset: self.offset, length: self.length }
    }
}

/// A number in decimal, with an optional plus sign, where it fits 64 bits.
pub open spec fn unsigned_of(s: Seq<u8>) -> Option<u64> {
    let digits = if s.len() > 1 && s[0] == 0x2b {
        s.drop_first()
    } else {
        s
    };
    if digits.len() == 0 || digits_end(digits, 0) < digits.len() || digits_value(digits)
        > u64::MAX {
        None
    } else {
        Some(digits_value(digits) as u64)
    }
}

/// A number in decimal, with an optional plus sign, where it fits 64 bits.
pub fn parse_unsigned(s: &[u8]) -> (r: Option<u64>)
    ensures
        r == unsigned_of(s@),
{
    let start: usize = if s.len() > 1 && s[0] == 0x2b {
        1
    } else {
        0
    };
    let digits: &[u8] = vstd::slice::slice_subrange(s, start, s.len());
    assert(digits@ =~= if s@.len() > 1 && s@[0] == 0x2b {
        s@.drop_first()
    } else {
        s@
    });
    if digits.len() == 0 {
        return None;
    }
    if find_digits_end(digits, 0) < digits.len() {
        return None;
    }
    assert(digits@.subrange(0, digits@.len() as int) =~= digits@);
    parse_digits(digits, 0, digits.len())
}

/// What ends a number in a manifest.
pub open spec fn ends_number() -> spec_fn(u8) -> bool {
    |b: u8| b == 0x2c || b == 0x7d || b == 0x5d || is_space(b)
}

/// What ends a value that is not a string.
pub open spec fn ends_value() -> spec_fn(u8) -> bool {
    |b: u8| b == 0x2c || b == 0x7d
}

/// What is neither whitespace nor a comma.
pub open spec fn starts_field() -> spec_fn(u8) -> bool {
    |b: u8| !is_space(b) && b != 0x2c
}

fn number_end(o: &[u8], from: usize) -> (r: usize)
    requires
        from <= o.len(),
    ensures
        r == until(o@, from as int, ends_number()),
        from <= r <= o@.len(),
{
    let mut p: usize = from;
    while p < o.len() && !(o[p] == 0x2c || o[p] == 0x7d || o[p] == 0x5d || space(o[p]))
        invariant
            from <= p <= o@.len(),
            until(o@, from as int, ends_number()) == until(o@, p as int, ends_number()),
        decreases o@.len() - p,
    {
        p = p + 1;
    }
    p
}

fn value_end(o: &[u8], from: usize) -> (r: usize)
    requires
        from <= o.len(),
    ensures
        r == until(o@, from as int, ends_value()),
        from <= r <= o@.len(),
{
    let mut p: usize = from;
    while p < o.len() && !(o[p] == 0x2c || o[p] == 0x7d)
        invariant
            from <= p <= o@.len(),
            until(o@, from as int, ends_value()) == until(o@, p as int, ends_value()),
        decreases o@.len() - p,
    {
        p = p + 1;
    }
    p
}

fn field_start(o: &[u8], from: usize) -> (r: usize)
    requires
        from <= o.len(),
    ensures
        r == until(o@, from as int, starts_field()),
        from <= r <= o@.len(),
{
    let mut p: usize = from;
    while p < o.len() && (space(o[p]) || o[p] == 0x2c)
        invariant
            from <= p <= o@.len(),
            until(o@, from as int, starts_field()) == until(o@, p as int, starts_field()),
        decreases o@.len() - p,
    {
        p = p + 1;
    }
    p
}

/// What a field of a manifest object sets.
pub enum FieldView {
    Name(Seq<char>),
    Offset(u64),
    Length(u64),
    Other,
}

/// The text of bytes, where they are UTF-8.
pub open spec fn utf8_of(s: Seq<u8>) -> Option<Seq<char>> {
    if valid_utf8(s) {
        Some(decode_utf8(s))
    } else {
        None
    }
}

/// The value at `v` of a field called `key`, and where it ends. `None` where the
/// value is malformed.
pub open spec fn value_at(o: Seq<u8>, v: int, key: Seq<char>) -> Option<(FieldView, int)> {
    let quoted = v < o.len() && o[v] == 0x22;
    let close = until(o, v + 1, is_byte(0x22));
    if key == "name"@ {
        if !quoted {
            Some((FieldView::Other, v))
        } else if close >= o.len() {
            None
        } else {
            match utf8_of(o.subrange(v + 1, close)) {
                None => None,
                Some(text) => Some((FieldView::Name(text), close + 1)),
            }
        }
    } else if key == "offset"@ || key == "length"@ {
        let end = until(o, v, ends_number());
        match unsigned_of(o.subrange(v, end)) {
            None => None,
            Some(n) => Some(
                (
                    if key == "offset"@ {
                        FieldView::Offset(n)
                    } else {
                        FieldView::Length(n)
                    },
                    end,
                ),
            ),
        }
    } else if quoted {
        if close >= o.len() {
            None
        } else {
            Some((FieldView::Other, close + 1))
        }
    } else {
        Some((FieldView::Other, until(o, v, ends_value())))
    }
}

/// The field whose key opens with the quote at `q`, and where the next one may
/// start. `None` where the field is malformed.
pub open spec fn field_at(o: Seq<u8>, q: int) -> Option<(FieldView, int)> {
    let key_end = until(o, q + 1, is_byte(0x22));
    if key_end >= o.len() {
        None
    } else {
        match utf8_of(o.subrange(q + 1, key_end)) {
            None => None,
            Some(key) => {
                let colon = until(o, key_end + 1, is_byte(0x3a));
                if colon >= o.len() {
                    None
                } else {
                    match value_at(o, until(o, colon + 1, not_space()), key) {
                        None => None,
                        Some((field, end)) => Some((field, until(o, end, starts_field()))),
                    }
                }
            },
        }
    }
}

/// The name, offset and length that fields have set so far.
pub struct FieldsView {
    pub name: Option<Seq<char>>,
    pub offset: Option<u64>,
    pub length: Option<u64>,
}

/// The fields with one more set.
pub open spec fn field_set(f: FieldsView, field: FieldView) -> FieldsView {
    match field {
        FieldView::Name(n) => FieldsView { name: Some(n), ..f },
        FieldView::Offset(n) => FieldsView { offset: Some(n), ..f },
        FieldView::Length(n) => FieldsView { length: Some(n), ..f },
        FieldView::Other => f,
    }
}

/// The fields of the object `o` from `pos` on. `None` where one is malformed.
pub open spec fn fields_from(o: Seq<u8>, pos: int, f: FieldsView) -> Option<FieldsView>
    decreases o.len() - pos,
{
    let q = until(o, pos, is_byte(0x22));
    if q >= o.len() {
        Some(f)
    } else {
        match field_at(o, q) {
            None => None,
            Some((field, next)) => if next <= pos || next > o.len() {
                None
            } else {
                fields_from(o, next, field_set(f, field))
            },
        }
    }
}

/// The entry that a manifest object describes, where it has all three fields.
pub open spec fn entry_of(o: Seq<u8>) -> Option<ManifestView> {
    match fields_from(o, 0, FieldsView { name: None, offset: None, length: None }) {
        None => None,
        Some(f) => match (f.name, f.offset, f.length) {
            (Some(name), Some(offset), Some(length)) => Some(ManifestView { name, offset, length }),
            _ => None,
        },
    }
}

/// Where the value of the field stands whose key opens with the quote at `q`.
pub open spec fn value_place(o: Seq<u8>, q: int) -> int {
    let key_end = until(o, q + 1, is_byte(0x22));
    until(o, until(o, key_end + 1, is_byte(0x3a)) + 1, not_space())
}

/// Where the first letter stands of the name that the fields of the object `o` from `pos`
/// on set last; `found` where they set none.
pub open spec fn name_place_from(o: Seq<u8>, pos: int, found: int) -> int
    decreases o.len() - pos,
{
    let q = until(o, pos, is_byte(0x22));
    if q >= o.len() {
        found
    } else {
        match field_at(o, q) {
            None => found,
            Some((field, next)) => if next <= pos || next > o.len() {
                found
            } else {
                name_place_from(
                    o,
                    next,
                    if field is Name {
                        value_place(o, q) + 1
                    } else {
                        found
                    },
                )
            },
        }
    }
}

/// Where the first letter of the name stands in the object `o` of an entry.
pub open spec fn name_place(o: Seq<u8>) -> int {
    name_place_from(o, 0, 0)
}

/// A field of a manifest object.
pub enum Field {
    Name(String),
    Offset(u64),
    Length(u64),
    Other,
}

impl View for Field {
    type V = FieldView;

    open spec fn view(&self) -> FieldView {
        match *self {
            Field::Name(n) => FieldView::Name(n@),
            Field::Offset(n) => FieldView::Offset(n),
            Field::Length(n) => FieldView::Length(n),
            Field::Other => FieldView::Other,
        }
    }
}

fn read_value(o: &[u8], v: usize, key: &str) -> (r: Option<(Field, usize)>)
    requires
        v <= o.len(),
    ensures
        match r {
            Some((field, end)) => value_at(o@, v as int, key@) == Some((field@, end as int)) && v <= end
                && end <= o@.len() && (field@ is Name ==> v + 1 < end),
            None => value_at(o@, v as int, key@) is None,
        },
{
    let quoted: bool = v < o.len() && o[v] == 0x22;
    if same_text(key, "name") {
        if !quoted {
            return Some((Field::Other, v));
        }
        let close: usize = find_byte(o, v + 1, 0x22);
        if close >= o.len() {
            return None;
        }
        match utf8_text(vstd::slice::slice_subrange(o, v + 1, close)) {
            None => None,
            Some(text) => Some((Field::Name(text), close + 1)),
        }
    } else if same_text(key, "offset") || same_text(key, "length") {
        let end: usize = number_end(o, v);
        match parse_unsigned(vstd::slice::slice_subrange(o, v, end)) {
            None => None,
            Some(n) => if same_text(key, "offset") {
                Some((Field::Offset(n), end))
            } else {
                Some((Field::Length(n), end))
            },
        }
    } else if quoted {
        let close: usize = find_byte(o, v + 1, 0x22);
        if close >= o.len() {
            None
        } else {
            Some((Field::Other, close + 1))
        }
    } else {
        Some((Field::Other, value_end(o, v)))
    }
}

fn read_field(o: &[u8], q: usize) -> (r: Option<(Field, usize, usize)>)
    requires
        q < o.len(),
    ensures
        match r {
            Some((field, next, at)) => field_at(o@, q as int) == Some((field@, next as int)) && q < next
                && next <= o@.len() && at == value_place(o@, q as int) && (field@ is Name ==> at + 1
                < next),
            None => field_at(o@, q as int) is None,
        },
{
    let key_end: usize = find_byte(o, q + 1, 0x22);
    if key_end >= o.len() {
        return None;
    }
    let key: String = match utf8_text(vstd::slice::slice_subrange(o, q + 1, key_end)) {
        Some(k) => k,
        None => {
            return None;
        },
    };
    let colon: usize = find_byte(o, key_end + 1, 0x3a);
    if colon >= o.len() {
        return None;
    }
    let at: usize = skip_space(o, colon + 1);
    match read_value(o, at, key.as_str()) {
        None => None,
        Some((field, end)) => Some((field, field_start(o, end), at)),
    }
}

/// Read the entry that a manifest object describes.
pub fn parse_one_manifest_entry(o: &[u8]) -> (r: Option<ManifestEntry>)
    ensures
        match r {
            Some(e) => entry_of(o@) == Some(e@),
            None => entry_of(o@) is None,
        },
{
    match read_entry_and_place(o) {
        Some((e, _)) => Some(e),
        None => None,
    }
}

/// Read the entry that a manifest object describes, and where the first letter of its name
/// stands.
fn read_entry_and_place(o: &[u8]) -> (r: Option<(ManifestEntry, usize)>)
    ensures
        match r {
            Some((e, at)) => entry_of(o@) == Some(e@) && at == name_place(o@) && at < o@.len(),
            None => entry_of(o@) is None,
        },
{
    let mut place: usize = 0;
    let mut name: Option<String> = None;
    let mut offset: Option<u64> = None;
    let mut length: Option<u64> = None;
    let mut pos: usize = 0;
    let ghost start = FieldsView { name: None, offset: None, length: None };
    let mut done: bool = false;
    while !done
        invariant
            pos <= o@.len(),
            start == (FieldsView { name: None, offset: None, length: None }),
            !done ==> fields_from(o@, 0, start) == fields_from(
                o@,
                pos as int,
                FieldsView { name: opt_string(name), offset, length },
            ),
            done ==> fields_from(o@, 0, start) == Some(
                FieldsView { name: opt_string(name), offset, length },
            ),
            !done ==> name_place(o@) == name_place_from(o@, pos as int, place as int),
            done ==> name_place(o@) == place,
            name is Some ==> place < o@.len(),
        decreases o@.len() - pos, !done as int,
    {
        let q: usize = find_byte(o, pos, 0x22);
        if q >= o.len() {
            done = true;
        } else {
            match read_field(o, q) {
                None => {
                    return None;
                },
                Some((field, next, at)) => {
                    match field {
                        Field::Name(n) => {
                            name = Some(n);
                            place = at + 1;
                        },
                        Field::Offset(n) => {
                            offset = Some(n);
                        },
                        Field::Length(n) => {
                            length = Some(n);
                        },
                        Field::Other => {},
                    }
                    pos = next;
                },
            }
        }
    }
    match (name, offset, length) {
        (Some(name), Some(offset), Some(length)) => Some(
            (ManifestEntry { name, offset, length }, place),
        ),
        _ => None,
    }
}

/// The entries of the top-level objects in `s` from `p` up to `end`: `depth`
/// counts open braces, `start` is where the current object opened.
pub open spec fn objects_from(
    s: Seq<u8>,
    p: int,
    end: int,
    depth: int,
    start: int,
    acc: Seq<ManifestView>,
) -> Seq<ManifestView>
    decreases end - p,
{
    if p >= end {
        acc
    } else if s[p] == 0x7b {
        objects_from(
            s,
            p + 1,
            end,
            depth + 1,
            if depth == 0 {
                p
            } else {
                start
            },
            acc,
        )
    } else if s[p] == 0x7d {
        objects_from(
            s,
            p + 1,
            end,
            depth - 1,
            start,
            if depth == 1 {
                match entry_of(s.subrange(start, p + 1)) {
                    Some(e) => acc.push(e),
                    None => acc,
                }
            } else {
                acc
            },
        )
    } else {
        objects_from(s, p + 1, end, depth, start, acc)
    }
}

/// Where the names of the entries begin that `objects_from` finds.
pub open spec fn places_from(
    s: Seq<u8>,
    p: int,
    end: int,
    depth: int,
    start: int,
    acc: Seq<int>,
) -> Seq<int>
    decreases end - p,
{
    if p >= end {
        acc
    } else if s[p] == 0x7b {
        places_from(
            s,
            p + 1,
            end,
            depth + 1,
            if depth == 0 {
                p
            } else {
                start
            },
            acc,
        )
    } else if s[p] == 0x7d {
        places_from(
            s,
            p + 1,
            end,
            depth - 1,
            start,
            if depth == 1 && entry_of(s.subrange(start, p + 1)) is Some {
                acc.push(start + name_place(s.subrange(start, p + 1)))
            } else {
                acc
            },
        )
    } else {
        places_from(s, p + 1, end, depth, start, acc)
    }
}

/// Where the names of the entries of a manifest that starts at `start` begin.
pub open spec fn name_places(s: Seq<u8>, start: int) -> Seq<int> {
    places_from(s, start + 1, until(s, start, is_byte(0x5d)), 0, start + 1, Seq::empty())
}

/// Positions as integers.
pub open spec fn positions(s: Seq<usize>) -> Seq<int> {
    Seq::new(s.len(), |i: int| s[i] as int)
}

/// The manifest of a vendor tail: its entries, where its JSON starts and the
/// first position behind it. It is the last array of objects, up to its first
/// closing bracket. `None` where there is none or it is not UTF-8.
pub open spec fn manifest_of(s: Seq<u8>) -> Option<(Seq<ManifestView>, int, int)> {
    match rfind(s, MANIFEST_START@) {
        None => None,
        Some(start) => {
            let end = until(s, start, is_byte(0x5d));
            if end >= s.len() || !valid_utf8(s.subrange(start, end + 1)) {
                None
            } else {
                Some((objects_from(s, start + 1, end, 0, start + 1, Seq::empty()), start, end + 1))
            }
        },
    }
}

fn read_objects(s: &[u8], from: usize, end: usize) -> (r: (Vec<ManifestEntry>, Vec<usize>))
    requires
        from <= end <= s.len(),
    ensures
        views(r.0@) == objects_from(s@, from as int, end as int, 0, from as int, Seq::empty()),
        positions(r.1@) == places_from(s@, from as int, end as int, 0, from as int, Seq::empty()),
        r.0@.len() == r.1@.len(),
        forall|i: int| 0 <= i < r.1@.len() ==> from <= #[trigger] r.1@[i] < end,
{
    let mut entries: Vec<ManifestEntry> = Vec::new();
    let mut places: Vec<usize> = Vec::new();
    let mut depth: i128 = 0;
    let mut start: usize = from;
    let mut p: usize = from;
    assert(views(entries@) =~= Seq::empty());
    assert(positions(places@) =~= Seq::empty());
    while p < end
        invariant
            entries@.len() == places@.len(),
            forall|i: int| 0 <= i < places@.len() ==> from <= #[trigger] places@[i] < end,
            places_from(s@, from as int, end as int, 0, from as int, Seq::empty()) == places_from(
                s@,
                p as int,
                end as int,
                depth as int,
                start as int,
                positions(places@),
            ),
            from <= start <= p <= end <= s.len(),
            -(p as int) <= depth <= p,
            objects_from(s@, from as int, end as int, 0, from as int, Seq::empty()) == objects_from(
                s@,
                p as int,
                end as int,
                depth as int,
                start as int,
                views(entries@),
            ),
        decreases end - p,
    {
        if s[p] == 0x7b {
            if depth == 0 {
                start = p;
            }
            depth = depth + 1;
        } else if s[p] == 0x7d {
            if depth == 1 {
                match read_entry_and_place(vstd::slice::slice_subrange(s, start, p + 1)) {
                    Some((e, at)) => {
                        let ghost before = entries@;
                        let ghost placed = places@;
                        entries.push(e);
                        places.push(start + at);
                        assert(views(entries@) =~= views(before).push(e@));
                        assert(positions(places@) =~= positions(placed).push(start + at));
                    },
                    None => {},
                }
            }
            depth = depth - 1;
        }
        p = p + 1;
    }
    (entries, places)
}

/// Parse JSON manifest from the extension region tail.
///
/// Returns `(entries, json_start_offset, json_end_offset)` or `None`.
pub fn parse_manifest(data: &[u8]) -> (r: Option<(Vec<ManifestEntry>, usize, usize)>)
    ensures
        match r {
            Some((entries, start, end)) => manifest_of(data@) == Some(
                (views(entries@), start as int, end as int),
            ) && start < end && end <= data@.len(),
            None => manifest_of(data@) is None,
        },
{
    match parse_named_manifest(data) {
        Some((entries, _, start, end)) => Some((entries, start, end)),
        None => None,
    }
}

/// Like `parse_manifest`, with where the name of each entry begins.
pub fn parse_named_manifest(data: &[u8]) -> (r: Option<
    (Vec<ManifestEntry>, Vec<usize>, usize, usize),
>)
    ensures
        match r {
            Some((entries, places, start, end)) => manifest_of(data@) == Some(
                (views(entries@), start as int, end as int),
            ) && start < end && end <= data@.len() && positions(places@) == name_places(
                data@,
                start as int,
            ) && places@.len() == entries@.len() && forall|i: int|
                0 <= i < places@.len() ==> start < #[trigger] places@[i] < end,
            None => manifest_of(data@) is None,
        },
{
    let start: usize = match rfind_bytes(data, MANIFEST_START.as_slice()) {
        Some(i) => i,
        None => {
            return None;
        },
    };
    assert(MANIFEST_START@.len() == 2);
    let end: usize = find_byte(data, start, 0x5d);
    if end >= data.len() {
        return None;
    }
    assert(data@[start as int] == data@.subrange(start as int, start + 2)[0]);
    assert(data@[start as int] == 0x5b);
    if utf8_text(vstd::slice::slice_subrange(data, start, end + 1)).is_none() {
        return None;
    }
    let (entries, places): (Vec<ManifestEntry>, Vec<usize>) = read_objects(data, start + 1, end);
    Some((entries, places, start, end + 1))
}

} // verus!
