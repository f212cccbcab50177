//! What a file says when it is opened again after its metadata was rebuilt.

use crate::bytes::{be16, be32, be64, enc32, occurs_at, pad4, zeros};
use crate::fourcc::{IDAT, IINF, ILOC, INFE, IPCO, IPMA, IPRP, IREF, MDAT, META, PITM};
use crate::isobmff::{
    BoxView, IlocSizes, IlocView, IpmaView, IrefView, ItemView, MetaView, PropertyView, as_is,
    assoc_at, assocs_len, box_at, box_bytes, box_within, boxes_in, extent_bytes, extents_at,
    first_box, folded, full_head, id_at, id_bytes, id_len, iinf_at, iinf_bytes, iloc_at, iloc_bytes,
    iloc_entries_at, iloc_entry_at, iloc_entry_bytes, iloc_sizes_at, infe_at, infe_bytes, infe_head,
    infe_id_len, infes_of, ipma_at, ipma_entries_at, ipma_entry_at, iref_at, iref_bytes,
    iref_rule_at, iref_rule_bytes, iref_rules_of, lemma_boxes_within, meta_from, name_end, of_type,
    pitm_at, pitm_bytes, printable_at, properties_in, property_of, refs_among, shift_in,
    source_meta,
};
use crate::isobmff_write::{idat_box, meta_and_mdat};
use crate::items::iloc_for;
use crate::rebuild::{
    all_relocated, claimed, iloc_index, mdat_bytes, new_iref, rebuilt_kid, rebuilt_meta,
    single_extent, with_payload,
};
use crate::round_trip::{
    boxes_read_back, built_item, header_of, iloc_payload, integers_of_32_bits_read_back,
    is_item_type, items_read_back, kept_id, kept_references, lemma_byte, lemma_flat_same,
    lemma_parts, locations_read_back, primary_items_read_back, reference_fits, references_read_back,
    stored_locations,
};
use crate::seqs::{
    first_where, flat, lemma_first_where_at, lemma_first_where_none, lemma_flat_add,
    lemma_flat_push, lemma_flat_take,
};
use vstd::prelude::*;
use vstd::string::*;
use vstd::utf8::*;

verus! {

// ---------------------------------------------------------------------------
// Boxes that follow each other
// ---------------------------------------------------------------------------

/// Whether bytes are one box, which may leave its size open: it then ends where they do.
pub open spec fn is_whole_box(c: Seq<u8>) -> bool {
    &&& 8 <= c.len()
    &&& box_at(c, 0, c.len() as int) == Some(header_at(c, 0))
}

/// Whether bytes are one box that says its own size.
pub open spec fn is_sized_box(c: Seq<u8>) -> bool {
    is_whole_box(c) && be32(c, 0) != 0
}

/// The header of the box `c` where it stands at `p`.
pub open spec fn header_at(c: Seq<u8>, p: int) -> BoxView {
    BoxView {
        btype: c.subrange(4, 8),
        data_start: p + (if be32(c, 0) == 1 {
            16int
        } else {
            8int
        }),
        data_end: p + c.len(),
        box_start: p,
        size: c.len() as int,
    }
}

/// Where the `i`-th of boxes that follow each other from `p` on stands.
pub open spec fn place_of(boxes: Seq<Seq<u8>>, p: int, i: int) -> int {
    p + flat(boxes.take(i), as_is()).len()
}

/// The headers of boxes that follow each other from `p` on.
pub open spec fn headers_at(boxes: Seq<Seq<u8>>, p: int) -> Seq<BoxView> {
    Seq::new(boxes.len(), |i: int| header_at(boxes[i], place_of(boxes, p, i)))
}

/// Whether all of `boxes` say their own sizes.
pub open spec fn all_sized(boxes: Seq<Seq<u8>>) -> bool {
    forall|i: int| 0 <= i < boxes.len() ==> is_sized_box(#[trigger] boxes[i])
}

/// Whether all of `boxes` are boxes, and all but the last say their own sizes.
pub open spec fn all_whole(boxes: Seq<Seq<u8>>) -> bool {
    forall|i: int|
        0 <= i < boxes.len() ==> is_whole_box(#[trigger] boxes[i]) && (i < boxes.len() - 1 ==> be32(
            boxes[i],
            0,
        ) != 0)
}

pub proof fn lemma_same_integers(s: Seq<u8>, c: Seq<u8>, p: int)
    requires
        occurs_at(s, c, p),
    ensures
        c.len() >= 2 ==> be16(s, p) == be16(c, 0),
        c.len() >= 4 ==> be32(s, p) == be32(c, 0),
        c.len() >= 16 ==> be64(s, p + 8) == be64(c, 8),
{
    assert forall|i: int| 0 <= i < c.len() implies #[trigger] c[i] == s[p + i] by {
        lemma_byte(s, c, p, i);
    }
}

/// A box that says its own size is read wherever it stands, and any box at the end.
pub proof fn lemma_sized_box(s: Seq<u8>, p: int, end: int, c: Seq<u8>)
    requires
        occurs_at(s, c, p),
        is_whole_box(c),
        p + c.len() <= end,
        be32(c, 0) != 0 || p + c.len() == end,
    ensures
        box_at(s, p, end) == Some(header_at(c, p)),
{
    lemma_same_integers(s, c, p);
    assert(s.subrange(p + 4, p + 8) =~= s.subrange(p, p + c.len()).subrange(4, 8));
}

/// A built box says its own size.
pub proof fn lemma_built_is_sized(btype: Seq<u8>, payload: Seq<u8>)
    requires
        btype.len() == 4,
        payload.len() + 8 <= u32::MAX,
    ensures
        is_sized_box(box_bytes(btype, payload)),
        box_bytes(btype, payload).len() == 8 + payload.len(),
        header_at(box_bytes(btype, payload), 0) == header_of(btype, payload.len() as int, 0),
        forall|p: int|
            #[trigger] header_at(box_bytes(btype, payload), p) == header_of(
                btype,
                payload.len() as int,
                p,
            ),
{
    let c = box_bytes(btype, payload);
    assert(c.subrange(0, c.len() as int) =~= c);
    assert(c.len() == 8 + payload.len()) by {
        reveal(box_bytes);
    }
    boxes_read_back(c, 0, c.len() as int, btype, payload);
    assert(c.subrange(4, 8) =~= btype) by {
        reveal(box_bytes);
    }
    reveal(box_bytes);
    lemma_parts(c, enc32(8 + payload.len() as int) + btype, payload, 0);
    lemma_parts(c, enc32(8 + payload.len() as int), btype, 0);
    integers_of_32_bits_read_back(c, 0, 8 + payload.len() as int);
}

/// A box of a file is one when it is copied, and says its own size where it did.
pub proof fn lemma_copied_is_sized(s: Seq<u8>, pos: int, end: int)
    requires
        0 <= pos,
        end <= s.len(),
        box_at(s, pos, end) is Some,
    ensures
        ({
            let b = box_at(s, pos, end)->0;
            let c = s.subrange(b.box_start, b.data_end);
            &&& b.box_start == pos
            &&& is_whole_box(c)
            &&& be32(c, 0) == be32(s, pos)
            &&& c.len() == b.size
            &&& header_at(c, pos) == b
            &&& c.subrange(4, 8) == b.btype
            &&& 8 <= b.data_start - pos
        }),
{
    let b = box_at(s, pos, end)->0;
    let c = s.subrange(b.box_start, b.data_end);
    lemma_same_integers(s, c, pos);
    assert(c.subrange(4, 8) =~= s.subrange(pos + 4, pos + 8));
}

proof fn lemma_headers_from(s: Seq<u8>, p: int, boxes: Seq<Seq<u8>>, i: int)
    requires
        all_whole(boxes),
        occurs_at(s, flat(boxes, as_is()), p),
        0 <= i <= boxes.len(),
    ensures
        boxes_in(s, place_of(boxes, p, i), p + flat(boxes, as_is()).len()) == headers_at(
            boxes,
            p,
        ).skip(i),
        i < boxes.len() ==> occurs_at(s, boxes[i], place_of(boxes, p, i)),
    decreases boxes.len() - i,
{
    let end = p + flat(boxes, as_is()).len();
    if i == boxes.len() {
        assert(boxes.take(i) =~= boxes);
        assert(headers_at(boxes, p).skip(i) =~= Seq::empty());
    } else {
        lemma_headers_from(s, p, boxes, i + 1);
        lemma_flat_take(boxes, as_is(), i);
        assert(boxes =~= boxes.take(i + 1) + boxes.skip(i + 1));
        lemma_flat_add(boxes.take(i + 1), boxes.skip(i + 1), as_is());
        let before = flat(boxes.take(i), as_is());
        lemma_parts(s, before + boxes[i], flat(boxes.skip(i + 1), as_is()), p);
        lemma_parts(s, before, boxes[i], p);
        let here = place_of(boxes, p, i);
        assert(is_whole_box(boxes[i]));
        if i == boxes.len() - 1 {
            assert(boxes.skip(i + 1) =~= Seq::empty());
        }
        lemma_sized_box(s, here, end, boxes[i]);
        assert(headers_at(boxes, p).skip(i) =~= seq![header_at(boxes[i], here)] + headers_at(
            boxes,
            p,
        ).skip(i + 1));
    }
}

/// Boxes that follow each other up to an end, all but the last with their own sizes, are
/// read there, all of them in order and no others.
pub proof fn sized_boxes_read_back(s: Seq<u8>, p: int, boxes: Seq<Seq<u8>>)
    requires
        all_whole(boxes),
        occurs_at(s, flat(boxes, as_is()), p),
    ensures
        boxes_in(s, p, p + flat(boxes, as_is()).len()) == headers_at(boxes, p),
        forall|i: int|
            0 <= i < boxes.len() ==> occurs_at(s, #[trigger] boxes[i], place_of(boxes, p, i)),
{
    lemma_headers_from(s, p, boxes, 0);
    assert(boxes.take(0) =~= Seq::empty());
    assert(headers_at(boxes, p).skip(0) =~= headers_at(boxes, p));
    assert forall|i: int| 0 <= i < boxes.len() implies occurs_at(
        s,
        #[trigger] boxes[i],
        place_of(boxes, p, i),
    ) by {
        lemma_headers_from(s, p, boxes, i);
    }
}

/// The position of the first box of a type, the number of boxes where there is none.
pub open spec fn first_index(boxes: Seq<BoxView>, t: Seq<u8>) -> int
    decreases boxes.len(),
{
    if boxes.len() == 0 || boxes[0].btype == t {
        0
    } else {
        1 + first_index(boxes.drop_first(), t)
    }
}

/// The first box of a type stands at its position, and none before it.
pub proof fn lemma_first_index(boxes: Seq<BoxView>, t: Seq<u8>)
    ensures
        0 <= first_index(boxes, t) <= boxes.len(),
        first_box(boxes, t) is Some <==> first_index(boxes, t) < boxes.len(),
        first_box(boxes, t) is Some ==> first_box(boxes, t) == Some(boxes[first_index(boxes, t)]),
        first_box(boxes, t) is Some ==> boxes[first_index(boxes, t)].btype == t,
        forall|j: int| 0 <= j < first_index(boxes, t) ==> (#[trigger] boxes[j]).btype != t,
    decreases boxes.len(),
{
    if boxes.len() > 0 && boxes[0].btype != t {
        let rest = boxes.drop_first();
        lemma_first_index(rest, t);
        assert(first_box(boxes, t) == first_box(rest, t));
        assert forall|j: int| 0 <= j < first_index(boxes, t) implies (#[trigger] boxes[j]).btype
            != t by {
            if j > 0 {
                assert(rest[j - 1] == boxes[j]);
            }
        }
    }
}

/// Boxes with the types of others, and perhaps one more behind them, have the first of a
/// type at the same position.
pub proof fn lemma_same_first(old: Seq<BoxView>, new: Seq<BoxView>, t: Seq<u8>)
    requires
        old.len() <= new.len(),
        forall|i: int| 0 <= i < old.len() ==> (#[trigger] new[i]).btype == old[i].btype,
        forall|i: int| old.len() <= i < new.len() ==> (#[trigger] new[i]).btype != t,
    ensures
        match first_box(old, t) {
            None => first_box(new, t) is None,
            Some(_) => first_box(new, t) == Some(new[first_index(old, t)]),
        },
{
    lemma_first_index(old, t);
    let i = first_index(old, t);
    assert forall|j: int| 0 <= j < i implies !of_type(t)(#[trigger] new[j]) by {
        assert(old[j].btype != t);
    }
    if i < old.len() {
        lemma_first_where_at(new, of_type(t), i);
    } else {
        assert forall|j: int| 0 <= j < new.len() implies !of_type(t)(#[trigger] new[j]) by {}
        lemma_first_where_none(new, of_type(t));
    }
}

// ---------------------------------------------------------------------------
// Copies
// ---------------------------------------------------------------------------

/// Whether what stands in `s` from `p` to `e` stands in `t` from `q` on.
pub open spec fn copied(s: Seq<u8>, p: int, e: int, t: Seq<u8>, q: int) -> bool {
    &&& 0 <= p <= e <= s.len()
    &&& occurs_at(t, s.subrange(p, e), q)
}

/// A part of what was copied was copied.
pub proof fn lemma_copied_part(s: Seq<u8>, p: int, e: int, t: Seq<u8>, q: int, a: int, b: int)
    requires
        copied(s, p, e, t, q),
        p <= a <= b <= e,
    ensures
        copied(s, a, b, t, q + a - p),
        t.subrange(q + a - p, q + b - p) == s.subrange(a, b),
{
    assert(s.subrange(a, b) =~= s.subrange(p, e).subrange(a - p, b - p));
    assert(t.subrange(q + a - p, q + b - p) =~= t.subrange(q, q + e - p).subrange(a - p, b - p));
}

/// Bytes and integers are the same in a copy.
proof fn lemma_copied_integers(s: Seq<u8>, p: int, e: int, t: Seq<u8>, q: int, a: int)
    requires
        copied(s, p, e, t, q),
        p <= a,
    ensures
        a < e ==> t[q + a - p] == s[a],
        a + 2 <= e ==> be16(t, q + a - p) == be16(s, a),
        a + 4 <= e ==> be32(t, q + a - p) == be32(s, a),
        a + 8 <= e ==> be64(t, q + a - p) == be64(s, a),
{
    assert forall|i: int| p <= i < e implies #[trigger] s[i] == t[q + i - p] by {
        lemma_byte(t, s.subrange(p, e), q, i - p);
    }
}

/// A box moved by `d`.
pub open spec fn moved_box(b: BoxView, d: int) -> BoxView {
    BoxView {
        data_start: b.data_start + d,
        data_end: b.data_end + d,
        box_start: b.box_start + d,
        ..b
    }
}

/// Boxes moved by `d`.
pub open spec fn moved_boxes(boxes: Seq<BoxView>, d: int) -> Seq<BoxView> {
    Seq::new(boxes.len(), |i: int| moved_box(boxes[i], d))
}

/// Boxes that were copied are read in the copy.
pub proof fn lemma_copied_boxes(s: Seq<u8>, p: int, e: int, t: Seq<u8>, q: int, a: int, b: int)
    requires
        copied(s, p, e, t, q),
        p <= a,
        b <= e,
    ensures
        boxes_in(t, q + a - p, q + b - p) == moved_boxes(boxes_in(s, a, b), q - p),
    decreases b - a,
{
    lemma_copied_integers(s, p, e, t, q, a);
    lemma_copied_integers(s, p, e, t, q, a + 8);
    match box_at(s, a, b) {
        None => {},
        Some(x) => {
            lemma_copied_part(s, p, e, t, q, a + 4, a + 8);
            assert(box_at(t, q + a - p, q + b - p) == Some(moved_box(x, q - p)));
            lemma_copied_boxes(s, p, e, t, q, x.data_end, b);
            assert(moved_boxes(boxes_in(s, a, b), q - p) =~= seq![moved_box(x, q - p)]
                + moved_boxes(boxes_in(s, x.data_end, b), q - p));
        },
    }
}

/// The first box of a type among moved boxes is the first one moved.
proof fn lemma_moved_first(boxes: Seq<BoxView>, d: int, t: Seq<u8>)
    ensures
        match first_box(boxes, t) {
            None => first_box(moved_boxes(boxes, d), t) is None,
            Some(b) => first_box(moved_boxes(boxes, d), t) == Some(moved_box(b, d)),
        },
{
    lemma_first_index(boxes, t);
    lemma_same_first(boxes, moved_boxes(boxes, d), t);
}

/// A primary item number that stands within what was copied is read in the copy.
proof fn lemma_copied_pitm(s: Seq<u8>, p: int, e: int, t: Seq<u8>, q: int, a: int)
    requires
        copied(s, p, e, t, q),
        p <= a,
        pitm_at(s.take(e), a) is Some,
    ensures
        pitm_at(t, q + a - p) == pitm_at(s.take(e), a),
        t[q + a - p] == s[a],
{
    lemma_take_copied(s, p, e, t, q);
    lemma_copied_integers(s.take(e), p, e, t, q, a);
    lemma_copied_integers(s.take(e), p, e, t, q, a + 4);
}

proof fn lemma_take_copied(s: Seq<u8>, p: int, e: int, t: Seq<u8>, q: int)
    requires
        copied(s, p, e, t, q),
    ensures
        copied(s.take(e), p, e, t, q),
{
    assert(s.take(e).subrange(p, e) =~= s.subrange(p, e));
}

proof fn lemma_copied_ipma_entries(
    s: Seq<u8>,
    p: int,
    e: int,
    t: Seq<u8>,
    q: int,
    a: int,
    n: int,
    wide: bool,
    acc: Seq<IpmaView>,
)
    requires
        copied(s, p, e, t, q),
        e == s.len(),
        p <= a,
        ipma_entries_at(s, a, n, wide, acc) is Some,
    ensures
        ipma_entries_at(t, q + a - p, n, wide, acc) == ipma_entries_at(s, a, n, wide, acc),
    decreases n,
{
    if n > 0 {
        let (entry, end) = ipma_entry_at(s, a, wide)->0;
        lemma_copied_integers(s, p, e, t, q, a);
        let c = a + id_len(wide) + 1;
        lemma_copied_integers(s, p, e, t, q, c - 1);
        let count = s[c - 1] as int;
        let read = Seq::new(count as nat, |k: int| assoc_at(t, q + c - p, k, wide));
        assert forall|k: int| 0 <= k < count implies read[k] == entry.associations[k] by {
            lemma_copied_integers(s, p, e, t, q, c + assocs_len(k, wide));
        }
        assert(read =~= entry.associations);
        assert(ipma_entry_at(t, q + a - p, wide) == Some((entry, q + end - p)));
        lemma_copied_ipma_entries(s, p, e, t, q, end, n - 1, wide, acc.push(entry));
    }
}

/// Associations that stand within what was copied are read in the copy.
proof fn lemma_copied_ipma(s: Seq<u8>, p: int, e: int, t: Seq<u8>, q: int, a: int)
    requires
        copied(s, p, e, t, q),
        p <= a,
        ipma_at(s.take(e), a) is Some,
    ensures
        ipma_at(t, q + a - p) == ipma_at(s.take(e), a),
{
    let r = s.take(e);
    lemma_take_copied(s, p, e, t, q);
    lemma_copied_integers(r, p, e, t, q, a);
    lemma_copied_integers(r, p, e, t, q, a + 4);
    let flags = be32(r, a) % 0x100_0000;
    lemma_copied_ipma_entries(r, p, e, t, q, a + 8, be32(r, a + 4), flags % 2 == 1, Seq::empty());
}

/// Whether an infe box holds what is read of it.
pub open spec fn infe_holds(s: Seq<u8>, b: BoxView) -> bool {
    &&& infe_at(s.take(b.data_end), b) is Some
    &&& s[b.data_start] >= 2 ==> b.data_start + 12 <= b.data_end
}

proof fn lemma_copied_name(s: Seq<u8>, p: int, e: int, t: Seq<u8>, q: int, a: int, b: int)
    requires
        copied(s, p, e, t, q),
        p <= a,
        b <= e,
    ensures
        name_end(t, q + a - p, q + b - p) == name_end(s, a, b) + q - p,
        a <= name_end(s, a, b),
        name_end(s, a, b) <= b || name_end(s, a, b) == a,
    decreases b - a,
{
    lemma_copied_integers(s, p, e, t, q, a);
    if a < b && s[a] != 0 {
        lemma_copied_name(s, p, e, t, q, a + 1, b);
    }
}

/// An infe box that holds what is read of it says the same in a copy.
#[verifier::rlimit(60)]
proof fn lemma_copied_infe(s: Seq<u8>, b: BoxView, t: Seq<u8>, q: int)
    requires
        box_within(b, s.len() as int),
        copied(s, b.box_start, b.data_end, t, q),
        infe_holds(s, b),
    ensures
        infe_at(t, moved_box(b, q - b.box_start)) == infe_at(s, b),
        infe_at(s, b) is Some,
{
    let p = b.box_start;
    let e = b.data_end;
    let a = b.data_start;
    let d = q - p;
    assert(s.take(e)[a] == s[a]);
    lemma_copied_integers(s, p, e, t, q, a);
    lemma_copied_integers(s, p, e, t, q, a + 1);
    lemma_copied_integers(s, p, e, t, q, a + 2);
    lemma_copied_integers(s, p, e, t, q, a + 3);
    lemma_copied_integers(s, p, e, t, q, a + 4);
    let version = s[a];
    let n = infe_id_len(s, a + 4, version);
    if version >= 2 {
        lemma_copied_integers(s, p, e, t, q, a + 8);
        lemma_copied_integers(s, p, e, t, q, a + 9);
        lemma_copied_integers(s, p, e, t, q, a + 10);
        lemma_copied_integers(s, p, e, t, q, a + 11);
        assert(printable_at(t, a + 8 + d) == printable_at(s, a + 8)) by {
            if printable_at(s, a + 8) {
                assert forall|i: int| a + 8 + d <= i < a + 12 + d implies 0x20 <= #[trigger] t[i]
                    <= 0x7e by {
                    assert(0x20 <= s[i - d] <= 0x7e);
                }
            }
            if printable_at(t, a + 8 + d) {
                assert forall|i: int| a + 8 <= i < a + 12 implies 0x20 <= #[trigger] s[i]
                    <= 0x7e by {
                    assert(0x20 <= t[i + d] <= 0x7e);
                }
            }
        }
    } else {
        assert(infe_id_len(s.take(e), a + 4, version) == 0);
    }
    assert(infe_id_len(t, a + 4 + d, version) == n);
    let start = a + 4 + n + 2;
    assert(start <= e) by {
        if version >= 2 {
            assert(start <= a + 10);
        }
    }
    lemma_copied_name(s, p, e, t, q, start, e);
    lemma_copied_part(s, p, e, t, q, start, name_end(s, start, e));
    lemma_copied_part(s, p, e, t, q, p, e);
}

/// Whether every infe box among `kids` holds what is read of it.
pub open spec fn infes_hold(s: Seq<u8>, kids: Seq<BoxView>) -> bool {
    forall|i: int|
        0 <= i < kids.len() && kids[i].btype == INFE@ ==> infe_holds(s, #[trigger] kids[i])
}

proof fn lemma_copied_infes(
    s: Seq<u8>,
    p: int,
    e: int,
    t: Seq<u8>,
    q: int,
    kids: Seq<BoxView>,
    i: int,
    acc: Seq<ItemView>,
)
    requires
        copied(s, p, e, t, q),
        forall|k: int|
            0 <= k < kids.len() ==> box_within(#[trigger] kids[k], s.len() as int) && p
                <= kids[k].box_start && kids[k].data_end <= e,
        infes_hold(s, kids),
        0 <= i <= kids.len(),
    ensures
        infes_of(t, moved_boxes(kids, q - p), i, acc) == infes_of(s, kids, i, acc),
        infes_of(s, kids, i, acc) is Some,
    decreases kids.len() - i,
{
    if i < kids.len() {
        let b = kids[i];
        if b.btype != INFE@ {
            lemma_copied_infes(s, p, e, t, q, kids, i + 1, acc);
        } else {
            assert(infe_holds(s, b));
            lemma_copied_part(s, p, e, t, q, b.box_start, b.data_end);
            lemma_copied_infe(s, b, t, q + b.box_start - p);
            let it = infe_at(s, b)->0;
            lemma_copied_infes(s, p, e, t, q, kids, i + 1, acc.push(it));
        }
    }
}

/// Where the infe boxes of an iinf box start.
pub open spec fn infes_start(s: Seq<u8>, b: BoxView) -> int {
    b.data_start + 4 + (if s[b.data_start] >= 1 {
        4int
    } else {
        2int
    })
}

/// Whether an iinf box holds what is read of it.
pub open spec fn iinf_holds(s: Seq<u8>, b: BoxView) -> bool {
    &&& infes_start(s, b) <= b.data_end
    &&& infes_hold(s, boxes_in(s, infes_start(s, b), b.data_end))
}

/// An iinf box that holds what is read of it says the same in a copy.
proof fn lemma_copied_iinf(s: Seq<u8>, b: BoxView, t: Seq<u8>, q: int)
    requires
        box_within(b, s.len() as int),
        copied(s, b.box_start, b.data_end, t, q),
        iinf_holds(s, b),
    ensures
        iinf_at(t, moved_box(b, q - b.box_start)) == iinf_at(s, b),
        iinf_at(s, b) is Some,
        t[b.data_start + q - b.box_start] == s[b.data_start],
{
    let p = b.box_start;
    let e = b.data_end;
    lemma_copied_integers(s, p, e, t, q, b.data_start);
    let start = infes_start(s, b);
    lemma_copied_boxes(s, p, e, t, q, start, e);
    lemma_boxes_within(s, start, e);
    lemma_copied_infes(s, p, e, t, q, boxes_in(s, start, e), 0, Seq::empty());
}

/// Whether a reference box holds what is read of it.
pub open spec fn rule_holds(s: Seq<u8>, b: BoxView, wide: bool) -> bool {
    iref_rule_at(s.take(b.data_end), b, wide) is Some
}

proof fn lemma_copied_rule(s: Seq<u8>, b: BoxView, t: Seq<u8>, q: int, wide: bool)
    requires
        box_within(b, s.len() as int),
        copied(s, b.box_start, b.data_end, t, q),
        rule_holds(s, b, wide),
    ensures
        iref_rule_at(t, moved_box(b, q - b.box_start), wide) == iref_rule_at(s, b, wide),
        iref_rule_at(s, b, wide) is Some,
{
    let p = b.box_start;
    let e = b.data_end;
    let d = q - p;
    let n = id_len(wide);
    let a = b.data_start + n;
    lemma_copied_integers(s, p, e, t, q, b.data_start);
    lemma_copied_integers(s, p, e, t, q, a);
    let r = s.take(e);
    assert(r[a] == s[a] && r[a + 1] == s[a + 1]);
    let count = be16(s, a);
    let old = Seq::new(count as nat, |k: int| id_at(s, a + 2 + k * n, wide) as u32);
    let new = Seq::new(count as nat, |k: int| id_at(t, a + d + 2 + k * n, wide) as u32);
    assert forall|k: int| 0 <= k < count implies old[k] == new[k] by {
        assert(0 <= k * n && k * n + n <= count * n) by (nonlinear_arith)
            requires
                0 <= k < count,
                n > 0,
        ;
        lemma_copied_integers(s, p, e, t, q, a + 2 + k * n);
    }
    assert(old =~= new);
}

/// Whether every reference box among `kids` holds what is read of it.
pub open spec fn rules_hold(s: Seq<u8>, kids: Seq<BoxView>, wide: bool) -> bool {
    forall|i: int| 0 <= i < kids.len() ==> rule_holds(s, #[trigger] kids[i], wide)
}

proof fn lemma_copied_rules(
    s: Seq<u8>,
    p: int,
    e: int,
    t: Seq<u8>,
    q: int,
    kids: Seq<BoxView>,
    i: int,
    wide: bool,
    acc: Seq<IrefView>,
)
    requires
        copied(s, p, e, t, q),
        forall|k: int|
            0 <= k < kids.len() ==> box_within(#[trigger] kids[k], s.len() as int) && p
                <= kids[k].box_start && kids[k].data_end <= e,
        rules_hold(s, kids, wide),
        0 <= i <= kids.len(),
    ensures
        iref_rules_of(t, moved_boxes(kids, q - p), i, wide, acc) == iref_rules_of(
            s,
            kids,
            i,
            wide,
            acc,
        ),
        iref_rules_of(s, kids, i, wide, acc) is Some,
    decreases kids.len() - i,
{
    if i < kids.len() {
        let b = kids[i];
        assert(rule_holds(s, b, wide));
        lemma_copied_part(s, p, e, t, q, b.box_start, b.data_end);
        lemma_copied_rule(s, b, t, q + b.box_start - p, wide);
        let r = iref_rule_at(s, b, wide)->0;
        lemma_copied_rules(s, p, e, t, q, kids, i + 1, wide, acc.push(r));
    }
}

/// Whether an iref box holds what is read of it.
pub open spec fn iref_holds(s: Seq<u8>, b: BoxView) -> bool {
    &&& b.data_start + 4 <= b.data_end
    &&& rules_hold(s, boxes_in(s, b.data_start + 4, b.data_end), s[b.data_start] >= 1)
}

/// An iref box that holds what is read of it says the same in a copy.
proof fn lemma_copied_iref(s: Seq<u8>, b: BoxView, t: Seq<u8>, q: int)
    requires
        box_within(b, s.len() as int),
        copied(s, b.box_start, b.data_end, t, q),
        iref_holds(s, b),
    ensures
        iref_at(t, moved_box(b, q - b.box_start)) == iref_at(s, b),
        iref_at(s, b) is Some,
{
    let p = b.box_start;
    let e = b.data_end;
    lemma_copied_integers(s, p, e, t, q, b.data_start);
    let wide = s[b.data_start] >= 1;
    lemma_copied_boxes(s, p, e, t, q, b.data_start + 4, e);
    lemma_boxes_within(s, b.data_start + 4, e);
    lemma_copied_rules(
        s,
        p,
        e,
        t,
        q,
        boxes_in(s, b.data_start + 4, e),
        0,
        wide,
        Seq::empty(),
    );
}

/// The associations of an iprp box: `None` where it holds no ipma box or one that is cut
/// short.
pub open spec fn associations_in(s: Seq<u8>, iprp: BoxView) -> Option<(u32, Seq<IpmaView>)> {
    match first_box(boxes_in(s, iprp.data_start, iprp.data_end), IPMA@) {
        None => None,
        Some(ipma) => ipma_at(s, ipma.data_start),
    }
}

/// Whether an iprp box holds its associations and its properties.
pub open spec fn iprp_holds(s: Seq<u8>, b: BoxView) -> bool {
    &&& associations_in(s.take(b.data_end), b) is Some
    &&& properties_in(s, b) is Some
}

/// An iprp box that holds what is read of it says the same in a copy.
#[verifier::rlimit(60)]
proof fn lemma_copied_iprp(s: Seq<u8>, b: BoxView, t: Seq<u8>, q: int)
    requires
        box_within(b, s.len() as int),
        copied(s, b.box_start, b.data_end, t, q),
        iprp_holds(s, b),
    ensures
        associations_in(t, moved_box(b, q - b.box_start)) == associations_in(s, b),
        associations_in(s, b) is Some,
        properties_in(t, moved_box(b, q - b.box_start)) == properties_in(s, b),
{
    let p = b.box_start;
    let e = b.data_end;
    let d = q - p;
    let r = s.take(e);
    let kids = boxes_in(s, b.data_start, e);
    assert(r.subrange(p, e) =~= s.subrange(p, e));
    assert(s.subrange(p, e) =~= r.subrange(p, e));
    lemma_copied_boxes(s, p, e, r, p, b.data_start, e);
    assert(moved_boxes(kids, 0) =~= kids);
    lemma_copied_boxes(s, p, e, t, q, b.data_start, e);
    lemma_boxes_within(s, b.data_start, e);
    lemma_moved_first(kids, d, IPMA@);
    lemma_moved_first(kids, d, IPCO@);
    lemma_first_index(kids, IPMA@);
    lemma_first_index(kids, IPCO@);
    let ipma = first_box(kids, IPMA@)->0;
    lemma_copied_ipma(s, p, e, t, q, ipma.data_start);
    lemma_copied_ipma(s, p, e, s, p, ipma.data_start);
    let ipco = first_box(kids, IPCO@)->0;
    let props = boxes_in(s, ipco.data_start, ipco.data_end);
    lemma_copied_boxes(s, p, e, t, q, ipco.data_start, ipco.data_end);
    lemma_boxes_within(s, ipco.data_start, ipco.data_end);
    let old = Seq::new(props.len(), |i: int| property_of(s, props[i], i));
    let new = Seq::new(props.len(), |i: int| property_of(t, moved_boxes(props, d)[i], i));
    assert forall|i: int| 0 <= i < props.len() implies old[i] == new[i] by {
        let x = props[i];
        lemma_copied_part(s, p, e, t, q, x.box_start, x.data_end);
    }
    assert(old =~= new);
}

// ---------------------------------------------------------------------------
// What a box says wherever it stands
// ---------------------------------------------------------------------------

/// Whether `c` is a box of type `t` that says its own size.
pub open spec fn is_box_of(c: Seq<u8>, t: Seq<u8>) -> bool {
    is_sized_box(c) && c.subrange(4, 8) == t
}

/// Whether `c` is an iloc box with these locations.
#[verifier::opaque]
pub open spec fn says_locations(c: Seq<u8>, entries: Seq<IlocView>) -> bool {
    &&& is_box_of(c, ILOC@)
    &&& forall|t: Seq<u8>, x: int|
        #[trigger] occurs_at(t, c, x) && t.len() <= usize::MAX ==> iloc_at(
            t,
            header_at(c, x).data_start,
        ) == Some(entries)
}

/// Whether `c` is an infe box of this item.
pub open spec fn says_item(c: Seq<u8>, it: ItemView) -> bool {
    is_box_of(c, INFE@) && tells_item(c, it)
}

/// Whether this item is read of an infe box with the bytes `c`, wherever it stands.
#[verifier::opaque]
pub open spec fn tells_item(c: Seq<u8>, it: ItemView) -> bool {
    &&& c.subrange(4, 8) == INFE@
    &&& forall|t: Seq<u8>, x: int| #[trigger]
        occurs_at(t, c, x) ==> infe_at(t, header_at(c, x)) == Some(it)
}

/// Whether `c` is an iinf box of this version with these items.
pub open spec fn says_items(c: Seq<u8>, version: u8, items: Seq<ItemView>) -> bool {
    is_box_of(c, IINF@) && tells_items(c, version, items)
}

/// Whether these are read of a box with the bytes `c`, wherever it stands.
#[verifier::opaque]
pub open spec fn tells_items(c: Seq<u8>, version: u8, items: Seq<ItemView>) -> bool {
    forall|t: Seq<u8>, x: int| #[trigger]
        occurs_at(t, c, x) ==> iinf_at(t, header_at(c, x)) == Some(items) && t[header_at(
            c,
            x,
        ).data_start] == version
}

/// Whether `c` is a pitm box of this version with this primary item.
pub open spec fn says_primary(c: Seq<u8>, version: u8, id: u32) -> bool {
    is_box_of(c, PITM@) && tells_primary(c, version, id)
}

/// Whether these are read of a box with the bytes `c`, wherever it stands.
#[verifier::opaque]
pub open spec fn tells_primary(c: Seq<u8>, version: u8, id: u32) -> bool {
    forall|t: Seq<u8>, x: int| #[trigger]
        occurs_at(t, c, x) ==> pitm_at(t, header_at(c, x).data_start) == Some(id) && t[header_at(
            c,
            x,
        ).data_start] == version
}

/// Whether `c` is an iprp box with these properties and associations.
pub open spec fn says_properties(
    c: Seq<u8>,
    props: Seq<PropertyView>,
    flags: u32,
    entries: Seq<IpmaView>,
) -> bool {
    is_box_of(c, IPRP@) && tells_properties(c, props, flags, entries)
}

/// Whether these are read of a box with the bytes `c`, wherever it stands.
#[verifier::opaque]
pub open spec fn tells_properties(
    c: Seq<u8>,
    props: Seq<PropertyView>,
    flags: u32,
    entries: Seq<IpmaView>,
) -> bool {
    forall|t: Seq<u8>, x: int| #[trigger]
        occurs_at(t, c, x) ==> associations_in(t, header_at(c, x)) == Some((flags, entries))
            && properties_in(t, header_at(c, x)) == Some(props)
}

/// Whether `c` is an iref box with these references.
pub open spec fn says_references(c: Seq<u8>, refs: Seq<IrefView>) -> bool {
    is_box_of(c, IREF@) && tells_references(c, refs)
}

/// Whether these are read of a box with the bytes `c`, wherever it stands.
#[verifier::opaque]
pub open spec fn tells_references(c: Seq<u8>, refs: Seq<IrefView>) -> bool {
    forall|t: Seq<u8>, x: int| #[trigger]
        occurs_at(t, c, x) ==> rules_at(t, header_at(c, x)) == Some(refs)
}

/// The rules of an iref box. `None` where it is cut short by the end of the data.
pub open spec fn rules_at(s: Seq<u8>, b: BoxView) -> Option<Seq<IrefView>> {
    match iref_at(s, b) {
        None => None,
        Some((_, refs)) => Some(refs),
    }
}

proof fn lemma_said_locations(t: Seq<u8>, c: Seq<u8>, x: int, entries: Seq<IlocView>)
    requires
        says_locations(c, entries),
        occurs_at(t, c, x),
        t.len() <= usize::MAX,
    ensures
        iloc_at(t, header_at(c, x).data_start) == Some(entries),
{
    reveal(says_locations);
}

proof fn lemma_said_item(t: Seq<u8>, c: Seq<u8>, x: int, it: ItemView)
    requires
        tells_item(c, it),
        occurs_at(t, c, x),
    ensures
        infe_at(t, header_at(c, x)) == Some(it),
        c.subrange(4, 8) == INFE@,
{
    reveal(tells_item);
}

proof fn lemma_said_items(t: Seq<u8>, c: Seq<u8>, x: int, version: u8, items: Seq<ItemView>)
    requires
        tells_items(c, version, items),
        occurs_at(t, c, x),
    ensures
        iinf_at(t, header_at(c, x)) == Some(items),
        t[header_at(c, x).data_start] == version,
{
    reveal(tells_items);
}

proof fn lemma_said_primary(t: Seq<u8>, c: Seq<u8>, x: int, version: u8, id: u32)
    requires
        tells_primary(c, version, id),
        occurs_at(t, c, x),
    ensures
        pitm_at(t, header_at(c, x).data_start) == Some(id),
        t[header_at(c, x).data_start] == version,
{
    reveal(tells_primary);
}

proof fn lemma_said_properties(
    t: Seq<u8>,
    c: Seq<u8>,
    x: int,
    props: Seq<PropertyView>,
    flags: u32,
    entries: Seq<IpmaView>,
)
    requires
        tells_properties(c, props, flags, entries),
        occurs_at(t, c, x),
    ensures
        associations_in(t, header_at(c, x)) == Some((flags, entries)),
        properties_in(t, header_at(c, x)) == Some(props),
{
    reveal(tells_properties);
}

proof fn lemma_said_references(t: Seq<u8>, c: Seq<u8>, x: int, refs: Seq<IrefView>)
    requires
        tells_references(c, refs),
        occurs_at(t, c, x),
    ensures
        rules_at(t, header_at(c, x)) == Some(refs),
{
    reveal(tells_references);
}

/// Whether the `i`-th of `boxes` is the first of type `t`.
pub open spec fn is_first_of(boxes: Seq<Seq<u8>>, t: Seq<u8>, i: int) -> bool {
    &&& 0 <= i < boxes.len()
    &&& boxes[i].subrange(4, 8) == t
    &&& forall|j: int| 0 <= j < i ==> (#[trigger] boxes[j]).subrange(4, 8) != t
}

/// Whether none of `boxes` is of type `t`.
pub open spec fn has_none_of(boxes: Seq<Seq<u8>>, t: Seq<u8>) -> bool {
    forall|j: int| 0 <= j < boxes.len() ==> (#[trigger] boxes[j]).subrange(4, 8) != t
}

proof fn lemma_first_header(boxes: Seq<Seq<u8>>, p: int, t: Seq<u8>, i: int)
    requires
        is_first_of(boxes, t, i),
    ensures
        first_box(headers_at(boxes, p), t) == Some(header_at(boxes[i], place_of(boxes, p, i))),
{
    let h = headers_at(boxes, p);
    assert forall|j: int| 0 <= j < i implies !of_type(t)(#[trigger] h[j]) by {
        assert(boxes[j].subrange(4, 8) != t);
    }
    lemma_first_where_at(h, of_type(t), i);
}

pub proof fn lemma_no_header(boxes: Seq<Seq<u8>>, p: int, t: Seq<u8>)
    requires
        has_none_of(boxes, t),
    ensures
        first_box(headers_at(boxes, p), t) is None,
{
    let h = headers_at(boxes, p);
    assert forall|j: int| 0 <= j < h.len() implies !of_type(t)(#[trigger] h[j]) by {
        assert(boxes[j].subrange(4, 8) != t);
    }
    lemma_first_where_none(h, of_type(t));
}

/// Whether the children of a meta box say all of `m`.
#[verifier::opaque]
pub open spec fn children_say(boxes: Seq<Seq<u8>>, m: MetaView) -> bool {
    &&& all_whole(boxes)
    &&& exists|i: int| is_first_of(boxes, ILOC@, i) && says_locations(boxes[i], m.iloc_entries)
    &&& exists|i: int|
        is_first_of(boxes, IINF@, i) && tells_items(boxes[i], m.iinf_version, m.items)
    &&& exists|i: int|
        is_first_of(boxes, PITM@, i) && tells_primary(boxes[i], m.pitm_version, m.primary_id)
    &&& exists|i: int|
        is_first_of(boxes, IPRP@, i) && tells_properties(
            boxes[i],
            m.props,
            m.ipma_flags,
            m.ipma_entries,
        )
    &&& (has_none_of(boxes, IREF@) && m.refs.len() == 0) || exists|i: int|
        is_first_of(boxes, IREF@, i) && tells_references(boxes[i], m.refs)
}

/// The children of a meta box are read where they stand.
pub proof fn lemma_children_at(t: Seq<u8>, p: int, head: Seq<u8>, boxes: Seq<Seq<u8>>)
    requires
        head.len() == 4,
        head.len() + flat(boxes, as_is()).len() + 8 <= u32::MAX,
        occurs_at(t, box_bytes(META@, head + flat(boxes, as_is())), p),
        all_whole(boxes),
    ensures
        boxes_in(t, p + 12, p + 12 + flat(boxes, as_is()).len()) == headers_at(boxes, p + 12),
        occurs_at(t, flat(boxes, as_is()), p + 12),
{
    let run = flat(boxes, as_is());
    boxes_read_back(t, p, p + 12 + run.len(), META@, head + run);
    lemma_parts(t, head, run, p + 8);
    sized_boxes_read_back(t, p + 12, boxes);
}

/// The first child of a type is found where it stands.
pub proof fn lemma_child_at(t: Seq<u8>, q: int, boxes: Seq<Seq<u8>>, btype: Seq<u8>, i: int)
    requires
        all_whole(boxes),
        occurs_at(t, flat(boxes, as_is()), q),
        is_first_of(boxes, btype, i),
    ensures
        first_box(headers_at(boxes, q), btype) == Some(header_at(boxes[i], place_of(boxes, q, i))),
        occurs_at(t, boxes[i], place_of(boxes, q, i)),
{
    sized_boxes_read_back(t, q, boxes);
    lemma_first_header(boxes, q, btype, i);
}

/// The references among the children are those that they say.
proof fn lemma_references_among(t: Seq<u8>, q: int, boxes: Seq<Seq<u8>>, refs: Seq<IrefView>)
    requires
        all_whole(boxes),
        occurs_at(t, flat(boxes, as_is()), q),
        (has_none_of(boxes, IREF@) && refs.len() == 0) || exists|i: int|
            is_first_of(boxes, IREF@, i) && tells_references(boxes[i], refs),
    ensures
        refs_among(t, headers_at(boxes, q)) == Some(refs),
{
    if exists|i: int| is_first_of(boxes, IREF@, i) && tells_references(boxes[i], refs) {
        let i = choose|i: int| is_first_of(boxes, IREF@, i) && tells_references(boxes[i], refs);
        lemma_child_at(t, q, boxes, IREF@, i);
        lemma_said_references(t, boxes[i], place_of(boxes, q, i), refs);
    } else {
        lemma_no_header(boxes, q, IREF@);
        assert(refs =~= Seq::empty());
    }
}

/// Whether boxes, their headers among them as `kids`, are read as `m`.
#[verifier::opaque]
spec fn kids_say(t: Seq<u8>, kids: Seq<BoxView>, m: MetaView) -> bool {
    &&& first_box(kids, ILOC@) matches Some(b) && iloc_at(t, b.data_start) == Some(m.iloc_entries)
    &&& first_box(kids, IINF@) matches Some(b) && iinf_at(t, b) == Some(m.items) && t[b.data_start]
        == m.iinf_version
    &&& first_box(kids, PITM@) matches Some(b) && pitm_at(t, b.data_start) == Some(m.primary_id)
        && t[b.data_start] == m.pitm_version
    &&& first_box(kids, IPRP@) matches Some(b) && associations_in(t, b) == Some(
        (m.ipma_flags, m.ipma_entries),
    ) && properties_in(t, b) == Some(m.props)
    &&& refs_among(t, kids) == Some(m.refs)
}

pub proof fn lemma_locations_among(t: Seq<u8>, q: int, boxes: Seq<Seq<u8>>, entries: Seq<IlocView>)
    requires
        t.len() <= usize::MAX,
        all_whole(boxes),
        occurs_at(t, flat(boxes, as_is()), q),
        exists|i: int| is_first_of(boxes, ILOC@, i) && says_locations(boxes[i], entries),
    ensures
        first_box(headers_at(boxes, q), ILOC@) matches Some(b) && iloc_at(t, b.data_start) == Some(
            entries,
        ),
{
    let i = choose|i: int| is_first_of(boxes, ILOC@, i) && says_locations(boxes[i], entries);
    lemma_child_at(t, q, boxes, ILOC@, i);
    lemma_said_locations(t, boxes[i], place_of(boxes, q, i), entries);
}

pub proof fn lemma_items_among(
    t: Seq<u8>,
    q: int,
    boxes: Seq<Seq<u8>>,
    version: u8,
    items: Seq<ItemView>,
)
    requires
        all_whole(boxes),
        occurs_at(t, flat(boxes, as_is()), q),
        exists|i: int| is_first_of(boxes, IINF@, i) && tells_items(boxes[i], version, items),
    ensures
        first_box(headers_at(boxes, q), IINF@) matches Some(b) && iinf_at(t, b) == Some(items)
            && t[b.data_start] == version,
{
    let i = choose|i: int| is_first_of(boxes, IINF@, i) && tells_items(boxes[i], version, items);
    lemma_child_at(t, q, boxes, IINF@, i);
    lemma_said_items(t, boxes[i], place_of(boxes, q, i), version, items);
}

pub proof fn lemma_primary_among(t: Seq<u8>, q: int, boxes: Seq<Seq<u8>>, version: u8, id: u32)
    requires
        all_whole(boxes),
        occurs_at(t, flat(boxes, as_is()), q),
        exists|i: int| is_first_of(boxes, PITM@, i) && tells_primary(boxes[i], version, id),
    ensures
        first_box(headers_at(boxes, q), PITM@) matches Some(b) && pitm_at(t, b.data_start) == Some(id)
            && t[b.data_start] == version,
{
    let i = choose|i: int| is_first_of(boxes, PITM@, i) && tells_primary(boxes[i], version, id);
    lemma_child_at(t, q, boxes, PITM@, i);
    lemma_said_primary(t, boxes[i], place_of(boxes, q, i), version, id);
}

proof fn lemma_properties_among(
    t: Seq<u8>,
    q: int,
    boxes: Seq<Seq<u8>>,
    props: Seq<PropertyView>,
    flags: u32,
    entries: Seq<IpmaView>,
)
    requires
        all_whole(boxes),
        occurs_at(t, flat(boxes, as_is()), q),
        exists|i: int|
            is_first_of(boxes, IPRP@, i) && tells_properties(boxes[i], props, flags, entries),
    ensures
        first_box(headers_at(boxes, q), IPRP@) matches Some(b) && associations_in(t, b) == Some(
            (flags, entries),
        ) && properties_in(t, b) == Some(props),
{
    let i = choose|i: int|
        is_first_of(boxes, IPRP@, i) && tells_properties(boxes[i], props, flags, entries);
    lemma_child_at(t, q, boxes, IPRP@, i);
    lemma_said_properties(t, boxes[i], place_of(boxes, q, i), props, flags, entries);
}

proof fn lemma_kids_say(t: Seq<u8>, q: int, boxes: Seq<Seq<u8>>, m: MetaView)
    requires
        t.len() <= usize::MAX,
        occurs_at(t, flat(boxes, as_is()), q),
        children_say(boxes, m),
    ensures
        kids_say(t, headers_at(boxes, q), m),
{
    reveal(children_say);
    reveal(kids_say);
    lemma_locations_among(t, q, boxes, m.iloc_entries);
    lemma_items_among(t, q, boxes, m.iinf_version, m.items);
    lemma_primary_among(t, q, boxes, m.pitm_version, m.primary_id);
    lemma_properties_among(t, q, boxes, m.props, m.ipma_flags, m.ipma_entries);
    lemma_references_among(t, q, boxes, m.refs);
}

proof fn lemma_kids_make_meta(t: Seq<u8>, meta: BoxView, m: MetaView)
    requires
        first_box(boxes_in(t, 0, t.len() as int), META@) == Some(meta),
        kids_say(t, boxes_in(t, meta.data_start + 4, meta.data_end), m),
    ensures
        source_meta(t) == Some(Ok::<MetaView, Seq<char>>(m)),
{
    reveal(kids_say);
    let kids = boxes_in(t, meta.data_start + 4, meta.data_end);
    lemma_meta_said(
        t,
        kids,
        first_box(kids, ILOC@)->0,
        first_box(kids, IINF@)->0,
        first_box(kids, PITM@)->0,
        first_box(kids, IPRP@)->0,
        m,
    );
}

/// A file whose meta box has children that say `m` says `m`.
pub proof fn lemma_children_read_back(
    t: Seq<u8>,
    p: int,
    head: Seq<u8>,
    boxes: Seq<Seq<u8>>,
    m: MetaView,
)
    requires
        t.len() <= usize::MAX,
        head.len() == 4,
        head.len() + flat(boxes, as_is()).len() + 8 <= u32::MAX,
        occurs_at(t, box_bytes(META@, head + flat(boxes, as_is())), p),
        first_box(boxes_in(t, 0, t.len() as int), META@) == Some(
            header_of(META@, 4 + flat(boxes, as_is()).len() as int, p),
        ),
        children_say(boxes, m),
    ensures
        source_meta(t) == Some(Ok::<MetaView, Seq<char>>(m)),
{
    assert(all_whole(boxes)) by {
        reveal(children_say);
    }
    lemma_children_at(t, p, head, boxes);
    lemma_kids_say(t, p + 12, boxes, m);
    lemma_kids_make_meta(t, header_of(META@, 4 + flat(boxes, as_is()).len() as int, p), m);
}

proof fn lemma_meta_said(
    t: Seq<u8>,
    kids: Seq<BoxView>,
    iloc: BoxView,
    iinf: BoxView,
    pitm: BoxView,
    iprp: BoxView,
    m: MetaView,
)
    requires
        iloc_at(t, iloc.data_start) == Some(m.iloc_entries),
        iinf_at(t, iinf) == Some(m.items),
        t[iinf.data_start] == m.iinf_version,
        pitm_at(t, pitm.data_start) == Some(m.primary_id),
        t[pitm.data_start] == m.pitm_version,
        associations_in(t, iprp) == Some((m.ipma_flags, m.ipma_entries)),
        properties_in(t, iprp) == Some(m.props),
        refs_among(t, kids) == Some(m.refs),
    ensures
        meta_from(t, kids, iloc, iinf, pitm, iprp) == Some(Ok::<MetaView, Seq<char>>(m)),
{
}

// ---------------------------------------------------------------------------
// What built boxes say
// ---------------------------------------------------------------------------

/// A built iloc box says its locations.
pub proof fn built_locations(entries: Seq<IlocView>)
    requires
        entries.len() < 0x1_0000,
        forall|i: int| 0 <= i < entries.len() ==> (#[trigger] entries[i]).extents.len() < 0x1_0000,
        iloc_bytes(entries).len() <= u32::MAX,
    ensures
        says_locations(iloc_bytes(entries), stored_locations(entries)),
{
    reveal(says_locations);
    let payload = iloc_payload(entries);
    assert(iloc_bytes(entries).len() == payload.len() + 8) by {
        reveal(box_bytes);
    }
    lemma_built_is_sized(ILOC@, payload);
    let c = iloc_bytes(entries);
    assert(c.subrange(4, 8) == ILOC@);
    assert forall|t: Seq<u8>, x: int| #[trigger]
        occurs_at(t, c, x) && t.len() <= usize::MAX implies iloc_at(t, header_at(c, x).data_start)
        == Some(stored_locations(entries)) by {
        boxes_read_back(t, x, x + c.len(), ILOC@, payload);
        locations_read_back(t, x + 8, entries);
    }
}

/// A built infe box says its item.
pub proof fn built_item_info(item_id: u32, itype: Seq<char>, flags: u32)
    requires
        item_id < 0x1_0000,
        is_item_type(itype),
        flags < 0x100_0000,
    ensures
        says_item(
            infe_bytes(item_id as int, itype, flags as int),
            built_item(item_id, itype, flags),
        ),
{
    reveal(tells_item);
    let c = infe_bytes(item_id as int, itype, flags as int);
    let payload = infe_head(item_id as int, flags as int) + encode_utf8(itype) + seq![0u8];
    assert(payload.len() == 13);
    lemma_built_is_sized(INFE@, payload);
    assert(c.subrange(4, 8) == INFE@);
    assert forall|t: Seq<u8>, x: int| #[trigger] occurs_at(t, c, x) implies infe_at(
        t,
        header_at(c, x),
    ) == Some(built_item(item_id, itype, flags)) by {
        items_read_back(t, x, item_id, itype, flags);
    }
}

/// A built pitm box says its primary item.
pub proof fn built_primary(version: u8, id: u32)
    ensures
        says_primary(pitm_bytes(version, id as int), version, kept_id(id, version >= 1)),
{
    reveal(tells_primary);
    let c = pitm_bytes(version, id as int);
    let payload = full_head(version) + id_bytes(id as int, version >= 1);
    lemma_built_is_sized(PITM@, payload);
    assert(c.subrange(4, 8) == PITM@);
    assert forall|t: Seq<u8>, x: int| #[trigger] occurs_at(t, c, x) implies pitm_at(
        t,
        header_at(c, x).data_start,
    ) == Some(kept_id(id, version >= 1)) && t[header_at(c, x).data_start] == version by {
        boxes_read_back(t, x, x + c.len(), PITM@, payload);
        primary_items_read_back(t, x + 8, version, id);
    }
}

/// A built iref box says its references.
#[verifier::rlimit(60)]
pub proof fn built_references(version: u8, refs: Seq<IrefView>)
    requires
        forall|i: int| 0 <= i < refs.len() ==> reference_fits(#[trigger] refs[i]),
        iref_bytes(version, refs).len() <= u32::MAX,
    ensures
        says_references(iref_bytes(version, refs), kept_references(refs, version >= 1)),
{
    reveal(tells_references);
    let c = iref_bytes(version, refs);
    let payload = full_head(version) + flat(refs, iref_rule_bytes(version >= 1));
    assert(c.len() == payload.len() + 8) by {
        reveal(box_bytes);
    }
    lemma_built_is_sized(IREF@, payload);
    assert(c.subrange(4, 8) == IREF@);
    assert forall|t: Seq<u8>, x: int| #[trigger] occurs_at(t, c, x) implies rules_at(
        t,
        header_at(c, x),
    ) == Some(kept_references(refs, version >= 1)) by {
        references_read_back(t, x, version, refs);
    }
}

proof fn lemma_infes_step(
    t: Seq<u8>,
    kids: Seq<BoxView>,
    i: int,
    acc: Seq<ItemView>,
    it: ItemView,
)
    requires
        0 <= i < kids.len(),
        kids[i].btype == INFE@,
        infe_at(t, kids[i]) == Some(it),
    ensures
        infes_of(t, kids, i, acc) == infes_of(t, kids, i + 1, acc.push(it)),
{
}

/// The header of an infe box among others reads as its item.
proof fn lemma_infe_among(t: Seq<u8>, infes: Seq<Seq<u8>>, p: int, i: int, it: ItemView)
    requires
        0 <= i < infes.len(),
        tells_item(infes[i], it),
        occurs_at(t, infes[i], place_of(infes, p, i)),
    ensures
        headers_at(infes, p)[i].btype == INFE@,
        infe_at(t, headers_at(infes, p)[i]) == Some(it),
{
    lemma_said_item(t, infes[i], place_of(infes, p, i), it);
    assert(headers_at(infes, p)[i] == header_at(infes[i], place_of(infes, p, i)));
}

#[verifier::rlimit(60)]
proof fn lemma_infes_said(
    t: Seq<u8>,
    infes: Seq<Seq<u8>>,
    items: Seq<ItemView>,
    p: int,
    i: int,
    acc: Seq<ItemView>,
)
    requires
        infes.len() == items.len(),
        forall|k: int| 0 <= k < infes.len() ==> tells_item(#[trigger] infes[k], items[k]),
        forall|k: int|
            0 <= k < infes.len() ==> occurs_at(t, #[trigger] infes[k], place_of(infes, p, k)),
        0 <= i <= infes.len(),
    ensures
        infes_of(t, headers_at(infes, p), i, acc) == Some(acc + items.skip(i)),
    decreases infes.len() - i,
{
    let kids = headers_at(infes, p);
    if i < infes.len() {
        assert(tells_item(infes[i], items[i]));
        assert(occurs_at(t, infes[i], place_of(infes, p, i)));
        lemma_infe_among(t, infes, p, i, items[i]);
        lemma_infes_step(t, kids, i, acc, items[i]);
        lemma_infes_said(t, infes, items, p, i + 1, acc.push(items[i]));
        assert(acc.push(items[i]) + items.skip(i + 1) =~= acc + items.skip(i));
    } else {
        assert(acc + items.skip(i) =~= acc);
    }
}

/// An iinf box with the given entry count, which nothing reads.
pub open spec fn counted_iinf(version: u8, count: Seq<u8>, infes: Seq<Seq<u8>>) -> Seq<u8> {
    box_bytes(IINF@, full_head(version) + count + flat(infes, as_is()))
}

#[verifier::rlimit(60)]
proof fn lemma_items_said(
    t: Seq<u8>,
    x: int,
    version: u8,
    count: Seq<u8>,
    infes: Seq<Seq<u8>>,
    items: Seq<ItemView>,
)
    requires
        infes.len() == items.len(),
        forall|k: int| 0 <= k < infes.len() ==> tells_item(#[trigger] infes[k], items[k]),
        all_whole(infes),
        count.len() == (if version >= 1 {
            4int
        } else {
            2int
        }),
        counted_iinf(version, count, infes).len() <= u32::MAX,
        occurs_at(t, counted_iinf(version, count, infes), x),
    ensures
        iinf_at(t, header_of(IINF@, counted_iinf(version, count, infes).len() - 8, x)) == Some(
            items,
        ),
        t[x + 8] == version,
{
    let run = flat(infes, as_is());
    let payload = full_head(version) + count + run;
    assert(counted_iinf(version, count, infes).len() == payload.len() + 8) by {
        reveal(box_bytes);
    }
    let q = x + 12 + count.len();
    assert(occurs_at(t, run, q) && t[x + 8] == version && q + run.len() <= t.len()) by {
        boxes_read_back(t, x, x + 8 + payload.len(), IINF@, payload);
        lemma_parts(t, full_head(version) + count, run, x + 8);
        lemma_parts(t, full_head(version), count, x + 8);
        lemma_byte(t, full_head(version), x + 8, 0);
    }
    lemma_infes_at(t, q, infes, items);
}

proof fn lemma_infes_at(t: Seq<u8>, q: int, infes: Seq<Seq<u8>>, items: Seq<ItemView>)
    requires
        infes.len() == items.len(),
        forall|k: int| 0 <= k < infes.len() ==> tells_item(#[trigger] infes[k], items[k]),
        all_whole(infes),
        occurs_at(t, flat(infes, as_is()), q),
    ensures
        infes_of(t, boxes_in(t, q, q + flat(infes, as_is()).len()), 0, Seq::empty()) == Some(items),
{
    sized_boxes_read_back(t, q, infes);
    lemma_infes_said(t, infes, items, q, 0, Seq::empty());
    assert(Seq::<ItemView>::empty() + items.skip(0) =~= items);
}

/// An iinf box built of infe boxes says their items, whatever its entry count.
pub proof fn built_counted_items(
    version: u8,
    count: Seq<u8>,
    infes: Seq<Seq<u8>>,
    items: Seq<ItemView>,
)
    requires
        infes.len() == items.len(),
        forall|k: int| 0 <= k < infes.len() ==> tells_item(#[trigger] infes[k], items[k]),
        all_whole(infes),
        count.len() == (if version >= 1 {
            4int
        } else {
            2int
        }),
        counted_iinf(version, count, infes).len() <= u32::MAX,
    ensures
        says_items(counted_iinf(version, count, infes), version, items),
{
    reveal(tells_items);
    let c = counted_iinf(version, count, infes);
    let payload = full_head(version) + count + flat(infes, as_is());
    assert(c.len() == payload.len() + 8) by {
        reveal(box_bytes);
    }
    lemma_built_is_sized(IINF@, payload);
    assert(c.subrange(4, 8) == IINF@);
    assert forall|t: Seq<u8>, x: int| #[trigger] occurs_at(t, c, x) implies iinf_at(
        t,
        header_at(c, x),
    ) == Some(items) && t[header_at(c, x).data_start] == version by {
        lemma_items_said(t, x, version, count, infes, items);
    }
}

/// An iinf box built of infe boxes says their items.
pub proof fn built_items(version: u8, infes: Seq<Seq<u8>>, items: Seq<ItemView>)
    requires
        infes.len() == items.len(),
        forall|k: int| 0 <= k < infes.len() ==> tells_item(#[trigger] infes[k], items[k]),
        all_whole(infes),
        iinf_bytes(version, infes).len() <= u32::MAX,
    ensures
        says_items(iinf_bytes(version, infes), version, items),
{
    built_counted_items(version, id_bytes(infes.len() as int, version >= 1), infes, items);
}

// ---------------------------------------------------------------------------
// What copied boxes say
// ---------------------------------------------------------------------------

/// Whether `b` is a box of `s`.
pub open spec fn stands(s: Seq<u8>, b: BoxView) -> bool {
    &&& 0 <= b.box_start
    &&& b.data_end <= s.len()
    &&& box_at(s, b.box_start, b.data_end) == Some(b)
}

/// Whether `b` is a box of `s` that says its own size.
pub open spec fn stands_sized(s: Seq<u8>, b: BoxView) -> bool {
    stands(s, b) && be32(s, b.box_start) != 0
}

/// The bytes of a box.
pub open spec fn bytes_of(s: Seq<u8>, b: BoxView) -> Seq<u8> {
    s.subrange(b.box_start, b.data_end)
}

pub proof fn lemma_copy(s: Seq<u8>, b: BoxView)
    requires
        stands(s, b),
    ensures
        box_within(b, s.len() as int),
        is_whole_box(bytes_of(s, b)),
        bytes_of(s, b).subrange(4, 8) == b.btype,
        be32(bytes_of(s, b), 0) == be32(s, b.box_start),
        copied(s, b.box_start, b.data_end, s, b.box_start),
        forall|t: Seq<u8>, x: int| #[trigger]
            occurs_at(t, bytes_of(s, b), x) ==> copied(s, b.box_start, b.data_end, t, x),
        forall|x: int| #[trigger]
            header_at(bytes_of(s, b), x) == moved_box(b, x - b.box_start),
{
    lemma_copied_is_sized(s, b.box_start, b.data_end);
    assert forall|x: int| #[trigger] header_at(bytes_of(s, b), x) == moved_box(
        b,
        x - b.box_start,
    ) by {
        assert(header_at(bytes_of(s, b), b.box_start) == b);
    }
}

/// Whether a pitm box holds what is read of it.
pub open spec fn pitm_holds(s: Seq<u8>, b: BoxView) -> bool {
    pitm_at(s.take(b.data_end), b.data_start) is Some
}

proof fn lemma_copy_says_primary(s: Seq<u8>, b: BoxView)
    requires
        stands(s, b),
        b.btype == PITM@,
        pitm_holds(s, b),
    ensures
        pitm_at(s, b.data_start) is Some,
        tells_primary(bytes_of(s, b), s[b.data_start], pitm_at(s, b.data_start)->0),
{
    reveal(tells_primary);
    lemma_copy(s, b);
    let c = bytes_of(s, b);
    let (p, e) = (b.box_start, b.data_end);
    lemma_copied_pitm(s, p, e, s, p, b.data_start);
    assert forall|t: Seq<u8>, x: int| #[trigger] occurs_at(t, c, x) implies pitm_at(
        t,
        header_at(c, x).data_start,
    ) == pitm_at(s, b.data_start) && t[header_at(c, x).data_start] == s[b.data_start] by {
        lemma_copied_pitm(s, p, e, t, x, b.data_start);
    }
}

proof fn lemma_copy_says_items(s: Seq<u8>, b: BoxView)
    requires
        stands(s, b),
        b.btype == IINF@,
        iinf_holds(s, b),
    ensures
        iinf_at(s, b) is Some,
        tells_items(bytes_of(s, b), s[b.data_start], iinf_at(s, b)->0),
{
    reveal(tells_items);
    lemma_copy(s, b);
    let c = bytes_of(s, b);
    lemma_copied_iinf(s, b, s, b.box_start);
    assert forall|t: Seq<u8>, x: int| #[trigger] occurs_at(t, c, x) implies iinf_at(
        t,
        header_at(c, x),
    ) == iinf_at(s, b) && t[header_at(c, x).data_start] == s[b.data_start] by {
        lemma_copied_iinf(s, b, t, x);
    }
}

pub proof fn lemma_copy_says_item(s: Seq<u8>, b: BoxView)
    requires
        stands(s, b),
        b.btype == INFE@,
        infe_holds(s, b),
    ensures
        infe_at(s, b) is Some,
        tells_item(bytes_of(s, b), infe_at(s, b)->0),
        is_whole_box(bytes_of(s, b)),
        be32(bytes_of(s, b), 0) == be32(s, b.box_start),
{
    reveal(tells_item);
    lemma_copy(s, b);
    let c = bytes_of(s, b);
    lemma_copied_infe(s, b, s, b.box_start);
    assert forall|t: Seq<u8>, x: int| #[trigger] occurs_at(t, c, x) implies infe_at(
        t,
        header_at(c, x),
    ) == infe_at(s, b) by {
        lemma_copied_infe(s, b, t, x);
    }
}

proof fn lemma_copy_says_properties(s: Seq<u8>, b: BoxView)
    requires
        stands(s, b),
        b.btype == IPRP@,
        iprp_holds(s, b),
    ensures
        associations_in(s, b) matches Some((flags, entries)) && tells_properties(
            bytes_of(s, b),
            properties_in(s, b)->0,
            flags,
            entries,
        ),
{
    reveal(tells_properties);
    lemma_copy(s, b);
    let c = bytes_of(s, b);
    lemma_copied_iprp(s, b, s, b.box_start);
    assert forall|t: Seq<u8>, x: int| #[trigger] occurs_at(t, c, x) implies associations_in(
        t,
        header_at(c, x),
    ) == associations_in(s, b) && properties_in(t, header_at(c, x)) == properties_in(s, b) by {
        lemma_copied_iprp(s, b, t, x);
    }
}

proof fn lemma_copy_says_references(s: Seq<u8>, b: BoxView)
    requires
        stands(s, b),
        b.btype == IREF@,
        iref_holds(s, b),
    ensures
        rules_at(s, b) is Some,
        tells_references(bytes_of(s, b), rules_at(s, b)->0),
{
    reveal(tells_references);
    lemma_copy(s, b);
    let c = bytes_of(s, b);
    lemma_copied_iref(s, b, s, b.box_start);
    assert forall|t: Seq<u8>, x: int| #[trigger] occurs_at(t, c, x) implies rules_at(
        t,
        header_at(c, x),
    ) == rules_at(s, b) by {
        lemma_copied_iref(s, b, t, x);
    }
}

// ---------------------------------------------------------------------------
// Files that hold their metadata
// ---------------------------------------------------------------------------

/// Whether each of `kids` says its own size.
pub open spec fn kids_sized(s: Seq<u8>, kids: Seq<BoxView>) -> bool {
    forall|i: int| 0 <= i < kids.len() ==> be32(s, (#[trigger] kids[i]).box_start) != 0
}

/// Whether the boxes of a file's metadata hold what is read of them, as those of every
/// well-formed file do. Of a primary item box that ends before its number the number is read
/// out of the box behind it, whose bytes change when it is built anew; so are the type of an
/// item, which may then be that of Exif data, and associations that go on behind their box.
#[verifier::opaque]
pub open spec fn holds_metadata(s: Seq<u8>) -> bool {
    match first_box(boxes_in(s, 0, s.len() as int), META@) {
        None => false,
        Some(meta) => {
            let kids = boxes_in(s, meta.data_start + 4, meta.data_end);
            &&& meta.data_start + 4 <= meta.data_end
            &&& first_box(kids, ILOC@) is Some
            &&& first_box(kids, PITM@) matches Some(b) && pitm_holds(s, b)
            &&& first_box(kids, IINF@) matches Some(b) && iinf_holds(s, b)
            &&& first_box(kids, IPRP@) matches Some(b) && iprp_holds(s, b)
        },
    }
}

/// Whether the reference box of a file's metadata, where it has one, holds what is read of
/// it.
pub open spec fn references_hold(s: Seq<u8>) -> bool {
    first_box(children_of(s), IREF@) matches Some(b) ==> iref_holds(s, b)
}

/// Whether a box can be put behind the children of a file's metadata: the last one says its
/// own size, or is built anew. One of size 0 would take in what is put behind it.
pub open spec fn children_closed(s: Seq<u8>) -> bool {
    children_of(s).len() > 0 ==> {
        let last = children_of(s).last();
        be32(s, last.box_start) != 0 || last.btype == ILOC@ || last.btype == IINF@
    }
}

/// The boxes in the item information of a file.
pub open spec fn item_boxes(s: Seq<u8>) -> Seq<BoxView> {
    match first_box(children_of(s), IINF@) {
        None => Seq::empty(),
        Some(b) => boxes_in(s, infes_start(s, b), b.data_end),
    }
}

/// Whether an item can be put behind those of a file: each says its own size. One of size 0
/// would take in the next.
pub open spec fn items_closed(s: Seq<u8>) -> bool {
    forall|i: int|
        0 <= i < item_boxes(s).len() && (#[trigger] item_boxes(s)[i]).btype == INFE@ ==> be32(
            s,
            item_boxes(s)[i].box_start,
        ) != 0
}

/// Whether the boxes of a file's metadata hold what is read of them, and all its children
/// and items say their own sizes.
pub open spec fn sized_metadata(s: Seq<u8>) -> bool {
    &&& holds_metadata(s)
    &&& references_hold(s)
    &&& kids_sized(s, children_of(s))
    &&& items_closed(s)
}

/// Boxes that stand one after the other stand as they were read, each up to its own end.
pub proof fn lemma_stand(s: Seq<u8>, a: int, e: int, i: int)
    requires
        0 <= a,
        e <= s.len(),
        0 <= i < boxes_in(s, a, e).len(),
    ensures
        stands(s, boxes_in(s, a, e)[i]),
        i < boxes_in(s, a, e).len() - 1 ==> be32(s, boxes_in(s, a, e)[i].box_start) != 0,
        box_at(s, boxes_in(s, a, e)[i].box_start, e) == Some(boxes_in(s, a, e)[i]),
    decreases e - a,
{
    let b = box_at(s, a, e)->0;
    if i > 0 {
        let rest = boxes_in(s, b.data_end, e);
        assert(boxes_in(s, a, e)[i] == rest[i - 1]);
        lemma_stand(s, b.data_end, e, i - 1);
    } else {
        assert(boxes_in(s, a, e)[0] == b);
        if be32(s, a) == 0 {
            assert(boxes_in(s, b.data_end, e).len() == 0);
        }
    }
}

/// The children of the meta box, rebuilt.
pub open spec fn rebuilt_children(
    s: Seq<u8>,
    kids: Seq<BoxView>,
    iloc: Seq<u8>,
    iinf: Option<Seq<u8>>,
    iref: Option<Seq<u8>>,
) -> Seq<Seq<u8>> {
    let same = Seq::new(kids.len(), |i: int| rebuilt_kid(s, iloc, iinf, iref)(kids[i]));
    match iref {
        Some(bytes) => if first_box(kids, IREF@) is None {
            same.push(bytes)
        } else {
            same
        },
        None => same,
    }
}

proof fn lemma_rebuilt_children(
    s: Seq<u8>,
    kids: Seq<BoxView>,
    iloc: Seq<u8>,
    iinf: Option<Seq<u8>>,
    iref: Option<Seq<u8>>,
)
    ensures
        flat(kids, rebuilt_kid(s, iloc, iinf, iref)) + new_iref(kids, iref) == flat(
            rebuilt_children(s, kids, iloc, iinf, iref),
            as_is(),
        ),
{
    let f = rebuilt_kid(s, iloc, iinf, iref);
    let same = Seq::new(kids.len(), |i: int| f(kids[i]));
    lemma_flat_same(kids, f, same, as_is());
    match iref {
        Some(bytes) => {
            if first_box(kids, IREF@) is None {
                lemma_flat_push(same, as_is(), bytes);
            } else {
                assert(flat(same, as_is()) + new_iref(kids, iref) =~= flat(same, as_is()));
            }
        },
        None => {
            assert(flat(same, as_is()) + new_iref(kids, iref) =~= flat(same, as_is()));
        },
    }
}

/// The rebuilt children are boxes of the types of the children, and all but the last say
/// their own sizes.
proof fn lemma_rebuilt_types(s: Seq<u8>, iloc: Seq<u8>, iinf: Option<Seq<u8>>, iref: Option<Seq<u8>>)
    requires
        holds_metadata(s),
        is_box_of(iloc, ILOC@),
        iinf matches Some(c) ==> is_box_of(c, IINF@),
        iref matches Some(c) ==> is_box_of(c, IREF@),
        iref is Some && first_box(children_of(s), IREF@) is None ==> iinf is Some
            && children_closed(s),
    ensures
        all_whole(rebuilt_children(s, children_of(s), iloc, iinf, iref)),
        forall|i: int|
            0 <= i < children_of(s).len() ==> (#[trigger] rebuilt_children(
                s,
                children_of(s),
                iloc,
                iinf,
                iref,
            )[i]).subrange(4, 8) == children_of(s)[i].btype,
{
    let kids = children_of(s);
    let all = rebuilt_children(s, kids, iloc, iinf, iref);
    lemma_children_lie(s);
    assert forall|i: int| 0 <= i < kids.len() implies is_whole_box(#[trigger] all[i])
        && all[i].subrange(4, 8) == kids[i].btype && (i < all.len() - 1 ==> be32(all[i], 0) != 0) by {
        assert(stands(s, kids[i]));
        lemma_copy(s, kids[i]);
        assert(all[i] == rebuilt_kid(s, iloc, iinf, iref)(kids[i]));
        if i == kids.len() - 1 && i < all.len() - 1 {
            assert(kids[i] == kids.last());
        }
    }
    assert forall|i: int| 0 <= i < all.len() implies is_whole_box(#[trigger] all[i]) && (i
        < all.len() - 1 ==> be32(all[i], 0) != 0) by {
        if i < kids.len() {
            assert(all[i].subrange(4, 8) == kids[i].btype);
        }
    }
}

/// The first child of a type is the first of the rebuilt children of that type.
proof fn lemma_rebuilt_first(kids: Seq<BoxView>, boxes: Seq<Seq<u8>>, t: Seq<u8>)
    requires
        kids.len() <= boxes.len(),
        first_box(kids, t) is Some,
        forall|i: int|
            0 <= i < kids.len() ==> (#[trigger] boxes[i]).subrange(4, 8) == kids[i].btype,
    ensures
        is_first_of(boxes, t, first_index(kids, t)),
        first_index(kids, t) < kids.len(),
{
    lemma_first_index(kids, t);
    let n = first_index(kids, t);
    assert forall|j: int| 0 <= j < n implies (#[trigger] boxes[j]).subrange(4, 8) != t by {
        assert(kids[j].btype != t);
    }
}

/// What a file says once its meta box was rebuilt.
pub open spec fn rebuilt_view(
    m: MetaView,
    entries: Seq<IlocView>,
    items: Seq<ItemView>,
    refs: Seq<IrefView>,
) -> MetaView {
    MetaView { iloc_entries: entries, items, refs, ..m }
}

/// The children of the metadata of a file.
pub open spec fn children_of(s: Seq<u8>) -> Seq<BoxView> {
    match first_box(boxes_in(s, 0, s.len() as int), META@) {
        None => Seq::empty(),
        Some(meta) => boxes_in(s, meta.data_start + 4, meta.data_end),
    }
}

/// The children of the metadata stand in the file, and all but the last say their own sizes.
pub proof fn lemma_children_lie(s: Seq<u8>)
    requires
        holds_metadata(s),
    ensures
        forall|i: int|
            0 <= i < children_of(s).len() ==> stands(s, #[trigger] children_of(s)[i]) && (i
                < children_of(s).len() - 1 ==> be32(s, children_of(s)[i].box_start) != 0),
{
    reveal(holds_metadata);
    let top = boxes_in(s, 0, s.len() as int);
    lemma_boxes_within(s, 0, s.len() as int);
    lemma_first_index(top, META@);
    let meta = first_box(top, META@)->0;
    let kids = children_of(s);
    assert forall|i: int| 0 <= i < kids.len() implies stands(s, #[trigger] kids[i]) && (i
        < kids.len() - 1 ==> be32(s, kids[i].box_start) != 0) by {
        lemma_stand(s, meta.data_start + 4, meta.data_end, i);
    }
}

pub proof fn lemma_children_stand(s: Seq<u8>)
    requires
        sized_metadata(s),
    ensures
        forall|i: int|
            0 <= i < children_of(s).len() ==> stands_sized(s, #[trigger] children_of(s)[i]),
{
    lemma_children_lie(s);
    let kids = children_of(s);
    assert forall|i: int| 0 <= i < kids.len() implies stands_sized(s, #[trigger] kids[i]) by {
        assert(stands(s, kids[i]));
        assert(be32(s, kids[i].box_start) != 0);
    }
}

/// The children of a rebuilt meta box say what the file said, but for what was replaced.
pub proof fn lemma_rebuilt_says(
    s: Seq<u8>,
    m: MetaView,
    iloc: Seq<u8>,
    iinf: Option<Seq<u8>>,
    iref: Option<Seq<u8>>,
    entries: Seq<IlocView>,
    items: Seq<ItemView>,
    refs: Seq<IrefView>,
)
    requires
        holds_metadata(s),
        source_meta(s) == Some(Ok::<MetaView, Seq<char>>(m)),
        says_locations(iloc, entries),
        match iinf {
            None => items == m.items,
            Some(c) => says_items(c, m.iinf_version, items),
        },
        match iref {
            None => refs == m.refs && references_hold(s),
            Some(c) => says_references(c, refs),
        },
        iref is Some && first_box(children_of(s), IREF@) is None ==> iinf is Some
            && children_closed(s),
    ensures
        children_say(
            rebuilt_children(s, children_of(s), iloc, iinf, iref),
            rebuilt_view(m, entries, items, refs),
        ),
{
    reveal(children_say);
    reveal(holds_metadata);
    let kids = children_of(s);
    let boxes = rebuilt_children(s, kids, iloc, iinf, iref);
    lemma_children_lie(s);
    assert(is_box_of(iloc, ILOC@)) by {
        reveal(says_locations);
    }
    lemma_rebuilt_types(s, iloc, iinf, iref);
    assert(IINF@[1] != ILOC@[1]);
    assert(IREF@[1] != ILOC@[1]);
    assert(IREF@[1] != IINF@[1]);
    assert(PITM@[0] != IINF@[0] && IPRP@[1] != IINF@[1]);
    assert(PITM@[0] != ILOC@[0] && IPRP@[1] != ILOC@[1]);
    assert(PITM@[0] != IREF@[0] && IPRP@[1] != IREF@[1]);
    let a = first_index(kids, ILOC@);
    lemma_rebuilt_first(kids, boxes, ILOC@);
    lemma_first_index(kids, ILOC@);
    assert(boxes[a] == iloc);
    let b = first_index(kids, IINF@);
    lemma_rebuilt_first(kids, boxes, IINF@);
    lemma_first_index(kids, IINF@);
    assert(stands(s, kids[b]));
    lemma_copy_says_items(s, kids[b]);
    assert(tells_items(boxes[b], m.iinf_version, items));
    let c = first_index(kids, PITM@);
    lemma_rebuilt_first(kids, boxes, PITM@);
    lemma_first_index(kids, PITM@);
    assert(stands(s, kids[c]));
    lemma_copy_says_primary(s, kids[c]);
    assert(boxes[c] == bytes_of(s, kids[c]));
    assert(tells_primary(boxes[c], m.pitm_version, m.primary_id));
    let d = first_index(kids, IPRP@);
    lemma_rebuilt_first(kids, boxes, IPRP@);
    lemma_first_index(kids, IPRP@);
    assert(stands(s, kids[d]));
    lemma_copy_says_properties(s, kids[d]);
    assert(boxes[d] == bytes_of(s, kids[d]));
    assert(tells_properties(boxes[d], m.props, m.ipma_flags, m.ipma_entries));
    lemma_first_index(kids, IREF@);
    match first_box(kids, IREF@) {
        Some(x) => {
            let e = first_index(kids, IREF@);
            lemma_rebuilt_first(kids, boxes, IREF@);
            assert(stands(s, kids[e]));
            if iref is None {
                lemma_copy_says_references(s, kids[e]);
            }
            assert(tells_references(boxes[e], refs));
        },
        None => {
            match iref {
                None => {
                    assert(has_none_of(boxes, IREF@));
                },
                Some(bytes) => {
                    let e = kids.len() as int;
                    assert(boxes[e] == bytes);
                    assert(is_first_of(boxes, IREF@, e));
                    assert(tells_references(boxes[e], refs));
                },
            }
        },
    }
}

/// Where a file begins as another one up to its first box of a type, and has a box of
/// that type there too, this is its first.
pub proof fn lemma_same_start(s: Seq<u8>, t: Seq<u8>, pos: int, btype: Seq<u8>, h: BoxView)
    requires
        0 <= pos,
        first_box(boxes_in(s, pos, s.len() as int), btype) matches Some(b) && {
            &&& b.box_start <= t.len()
            &&& t.take(b.box_start) == s.take(b.box_start)
            &&& box_at(t, b.box_start, t.len() as int) == Some(h)
        },
        h.btype == btype,
    ensures
        first_box(boxes_in(t, pos, t.len() as int), btype) == Some(h),
    decreases s.len() - pos,
{
    let top = boxes_in(s, pos, s.len() as int);
    let x = box_at(s, pos, s.len() as int)->0;
    let m = first_box(top, btype)->0;
    let rest = boxes_in(s, x.data_end, s.len() as int);
    assert(top[0] == x);
    assert(top.drop_first() =~= rest);
    if x.btype == btype {
        let new = boxes_in(t, pos, t.len() as int);
        assert(new[0] == h);
    } else {
        assert(first_box(rest, btype) == Some(m));
        lemma_first_index(rest, btype);
        lemma_boxes_within(s, x.data_end, s.len() as int);
        assert(x.data_end <= m.box_start);
        assert forall|i: int| 0 <= i < m.box_start implies #[trigger] t[i] == s[i] by {
            assert(t.take(m.box_start)[i] == s.take(m.box_start)[i]);
        }
        assert(t.subrange(pos + 4, pos + 8) =~= s.subrange(pos + 4, pos + 8));
        assert(box_at(t, pos, t.len() as int) == Some(x));
        lemma_same_start(s, t, x.data_end, btype, h);
        let new = boxes_in(t, pos, t.len() as int);
        assert(new.drop_first() =~= boxes_in(t, x.data_end, t.len() as int));
        assert(new[0] == x);
    }
}

// ---------------------------------------------------------------------------
// Files with a payload appended to their media
// ---------------------------------------------------------------------------

/// Elements that come to as many bytes come to as many bytes together.
pub proof fn lemma_flat_same_len<S, T>(
    x: Seq<S>,
    f: spec_fn(S) -> Seq<u8>,
    y: Seq<T>,
    g: spec_fn(T) -> Seq<u8>,
)
    requires
        x.len() == y.len(),
        forall|i: int| 0 <= i < x.len() ==> f(#[trigger] x[i]).len() == g(y[i]).len(),
    ensures
        flat(x, f).len() == flat(y, g).len(),
    decreases x.len(),
{
    if x.len() > 0 {
        let n = x.len() - 1;
        assert(f(x[n]).len() == g(y[n]).len());
        assert forall|i: int| 0 <= i < n implies f(#[trigger] x.drop_last()[i]).len() == g(
            y.drop_last()[i],
        ).len() by {
            assert(f(x[i]).len() == g(y[i]).len());
        }
        lemma_flat_same_len(x.drop_last(), f, y.drop_last(), g);
    }
}

proof fn lemma_extents_len(x: Seq<(u64, u64)>)
    ensures
        flat(x, extent_bytes()).len() == 8 * x.len(),
    decreases x.len(),
{
    if x.len() > 0 {
        lemma_extents_len(x.drop_last());
    }
}

/// Locations with as many extents take as many bytes.
pub proof fn lemma_iloc_len(x: Seq<IlocView>, y: Seq<IlocView>)
    requires
        x.len() == y.len(),
        forall|i: int| 0 <= i < x.len() ==> (#[trigger] x[i]).extents.len() == y[i].extents.len(),
    ensures
        iloc_bytes(x).len() == iloc_bytes(y).len(),
{
    assert forall|i: int| 0 <= i < x.len() implies iloc_entry_bytes()(#[trigger] x[i]).len()
        == iloc_entry_bytes()(y[i]).len() by {
        lemma_extents_len(x[i].extents);
        lemma_extents_len(y[i].extents);
    }
    lemma_flat_same_len(x, iloc_entry_bytes(), y, iloc_entry_bytes());
    reveal(box_bytes);
}

proof fn lemma_rebuilt_len(
    s: Seq<u8>,
    meta: BoxView,
    kids: Seq<BoxView>,
    a: Seq<u8>,
    b: Seq<u8>,
    iinf: Option<Seq<u8>>,
    iref: Option<Seq<u8>>,
)
    requires
        a.len() == b.len(),
    ensures
        rebuilt_meta(s, meta, kids, a, iinf, iref).len() == rebuilt_meta(
            s,
            meta,
            kids,
            b,
            iinf,
            iref,
        ).len(),
{
    let f = rebuilt_kid(s, a, iinf, iref);
    let g = rebuilt_kid(s, b, iinf, iref);
    lemma_flat_same_len(kids, f, kids, g);
    reveal(box_bytes);
}

/// Where the media of a file starts once its meta box was rebuilt around `entries`.
pub open spec fn new_media_start(
    s: Seq<u8>,
    meta: BoxView,
    mdat: BoxView,
    entries: Seq<IlocView>,
    iinf: Option<Seq<u8>>,
    iref: Option<Seq<u8>>,
) -> int {
    meta.box_start + rebuilt_meta(s, meta, children_of(s), iloc_bytes(entries), iinf, iref).len() + (
    mdat.box_start - meta.data_end) + (mdat.data_start - mdat.box_start)
}

/// Where the payload of an item stands in the new file.
pub open spec fn new_payload_start(
    s: Seq<u8>,
    meta: BoxView,
    mdat: BoxView,
    entries: Seq<IlocView>,
    iinf: Option<Seq<u8>>,
    iref: Option<Seq<u8>>,
) -> int {
    let held = mdat.data_end - mdat.data_start;
    new_media_start(s, meta, mdat, entries, iinf, iref) + held + pad4(held)
}

/// Whether the first location that can be taken for the item in 16 bits is its own, and
/// every further one of its own has one extent. Numbers are written in 16 bits, so that a
/// location of item 65537 before that of item 1 is read back as that of item 1; and places
/// are reckoned before a further location of two extents is written as one.
pub open spec fn own_location(entries: Seq<IlocView>, id: u32) -> bool {
    forall|i: int|
        0 <= i < entries.len() && (#[trigger] entries[i]).item_id % 0x1_0000 == id ==> {
            &&& iloc_index(entries, id, 0) matches Some(k) && k <= i
            &&& entries[i].item_id == id && iloc_index(entries, id, 0) != Some(i)
                ==> entries[i].extents.len() == 1
        }
}

pub proof fn lemma_iloc_index(entries: Seq<IlocView>, id: u32, from: int)
    requires
        0 <= from,
    ensures
        match iloc_index(entries, id, from) {
            Some(i) => from <= i < entries.len() && entries[i].item_id == id && forall|j: int|
                from <= j < i ==> (#[trigger] entries[j]).item_id != id,
            None => forall|j: int| from <= j < entries.len() ==> (#[trigger] entries[j]).item_id
                != id,
        },
    decreases entries.len() - from,
{
    if from < entries.len() && entries[from].item_id != id {
        lemma_iloc_index(entries, id, from + 1);
    }
}

/// The new location of an item, as it is read back.
pub open spec fn new_location(id: u32, offset: int, length: int) -> IlocView {
    single_extent(id, offset as u64, length as u64)
}

/// An item that was given a place of its own is the first location of its number.
proof fn lemma_claimed(
    entries: Seq<IlocView>,
    id: u32,
    offset: u64,
    length: u64,
    old: int,
    new: int,
)
    requires
        own_location(entries, id),
        id < 0x1_0000,
        offset <= u32::MAX,
        length <= u32::MAX,
    ensures
        ({
            let c = claimed(entries, id, length);
            let l = all_relocated(c, id, offset, length, old, new);
            first_where(stored_locations(l), iloc_for(id)) == Some(
                single_extent(id, offset, length),
            )
        }),
{
    let c = claimed(entries, id, length);
    let l = all_relocated(c, id, offset, length, old, new);
    let st = stored_locations(l);
    lemma_iloc_index(entries, id, 0);
    let k: int = match iloc_index(entries, id, 0) {
        Some(i) => i,
        None => entries.len() as int,
    };
    assert(c[k] == single_extent(id, 0, length));
    assert(l[k] == single_extent(id, offset, length));
    assert(st[k].extents =~= seq![(offset, length)]);
    assert(st[k] == single_extent(id, offset, length));
    assert forall|j: int| 0 <= j < k implies !iloc_for(id)(#[trigger] st[j]) by {
        assert(c[j] == entries[j]);
        assert(l[j].item_id == entries[j].item_id);
    }
    lemma_first_where_at(st, iloc_for(id), k);
}

/// The header of a box takes 8 or 16 bytes.
proof fn lemma_mdat_header(s: Seq<u8>, mdat: BoxView)
    requires
        first_box(boxes_in(s, 0, s.len() as int), MDAT@) == Some(mdat),
    ensures
        mdat.data_start - mdat.box_start == 8 || mdat.data_start - mdat.box_start == 16,
{
    let top = boxes_in(s, 0, s.len() as int);
    lemma_first_index(top, MDAT@);
    lemma_header_len(s, 0, s.len() as int, first_index(top, MDAT@));
}

proof fn lemma_header_len(s: Seq<u8>, a: int, e: int, i: int)
    requires
        0 <= i < boxes_in(s, a, e).len(),
    ensures
        ({
            let b = boxes_in(s, a, e)[i];
            b.data_start - b.box_start == 8 || b.data_start - b.box_start == 16
        }),
    decreases i,
{
    let b = box_at(s, a, e)->0;
    if i > 0 {
        assert(boxes_in(s, a, e)[i] == boxes_in(s, b.data_end, e)[i - 1]);
        lemma_header_len(s, b.data_end, e, i - 1);
    } else {
        assert(boxes_in(s, a, e)[0] == b);
    }
}

/// An mdat box is its header and its payload.
proof fn lemma_mdat(header: int, body: Seq<u8>)
    requires
        header == 8 || header == 16,
    ensures
        mdat_bytes(header, body).len() == header + body.len(),
        mdat_bytes(header, body) == mdat_bytes(header, body).take(header) + body,
{
    reveal(box_bytes);
    assert(mdat_bytes(header, body) =~= mdat_bytes(header, body).take(header) + body);
}

proof fn lemma_four_parts(a: Seq<u8>, b: Seq<u8>, c: Seq<u8>, d: Seq<u8>)
    ensures
        occurs_at(a + b + c + d, a, 0),
        occurs_at(a + b + c + d, b, a.len() as int),
        occurs_at(a + b + c + d, c, (a.len() + b.len()) as int),
        occurs_at(a + b + c + d, d, (a.len() + b.len() + c.len()) as int),
{
    let t = a + b + c + d;
    assert(t.subrange(0, t.len() as int) =~= t);
    lemma_parts(t, a + b + c, d, 0);
    lemma_parts(t, a + b, c, 0);
    lemma_parts(t, a, b, 0);
}

proof fn lemma_extents_count(
    s: Seq<u8>,
    p: int,
    n: int,
    base: int,
    z: IlocSizes,
    acc: Seq<(u64, u64)>,
)
    requires
        0 <= n,
    ensures
        extents_at(s, p, n, base, z, acc) matches Some((x, _)) ==> x.len() == acc.len() + n,
    decreases n,
{
    if n > 0 {
        let q = p + z.index_size;
        let end = q + z.offset_size + z.length_size;
        let extent = (
            folded(base, shift_in(s, q, z.offset_size as int, 0)),
            shift_in(s, q + z.offset_size, z.length_size as int, 0) as u64,
        );
        lemma_extents_count(s, end, n - 1, base, z, acc.push(extent));
    }
}

/// Whether every location has as many extents as can be counted.
pub open spec fn extents_counted(entries: Seq<IlocView>) -> bool {
    forall|i: int| 0 <= i < entries.len() ==> (#[trigger] entries[i]).extents.len() < 0x1_0000
}

proof fn lemma_locations_counted(s: Seq<u8>, p: int, n: int, z: IlocSizes, acc: Seq<IlocView>)
    requires
        extents_counted(acc),
    ensures
        iloc_entries_at(s, p, n, z, acc) matches Some(entries) ==> extents_counted(entries),
    decreases n,
{
    if n > 0 {
        match iloc_entry_at(s, p, z) {
            None => {},
            Some((e, end)) => {
                let id_len: int = if z.version >= 2 {
                    4
                } else {
                    2
                };
                let method_len: int = if z.version == 1 || z.version == 2 {
                    2
                } else {
                    0
                };
                let q = p + id_len + method_len + 2;
                let r = q + z.base_offset_size;
                let base = shift_in(s, q, z.base_offset_size as int, 0);
                lemma_extents_count(s, r + 2, be16(s, r), base, z, Seq::empty());
                lemma_locations_counted(s, end, n - 1, z, acc.push(e));
            },
        }
    }
}

/// Locations that were read have as many extents as can be counted.
pub proof fn lemma_entries_count(s: Seq<u8>, m: MetaView)
    requires
        source_meta(s) == Some(Ok::<MetaView, Seq<char>>(m)),
    ensures
        extents_counted(m.iloc_entries),
{
    let meta = first_box(boxes_in(s, 0, s.len() as int), META@)->0;
    let kids = boxes_in(s, meta.data_start + 4, meta.data_end);
    let p = first_box(kids, ILOC@)->0.data_start;
    let z = iloc_sizes_at(s, p);
    lemma_locations_counted(s, p + 10, be32(s, p + 6), z, Seq::empty());
    lemma_locations_counted(s, p + 8, be16(s, p + 6), z, Seq::empty());
}

proof fn lemma_located_counts(
    entries: Seq<IlocView>,
    id: u32,
    offset: u64,
    length: u64,
    old: int,
    new: int,
)
    requires
        extents_counted(entries),
    ensures
        extents_counted(
            all_relocated(claimed(entries, id, length), id, offset, length, old, new),
        ),
{
    let c = claimed(entries, id, length);
    let l = all_relocated(c, id, offset, length, old, new);
    lemma_iloc_index(entries, id, 0);
    assert forall|i: int| 0 <= i < l.len() implies (#[trigger] l[i]).extents.len() < 0x1_0000 by {
        assert(c[i].extents.len() < 0x1_0000) by {
            if i < entries.len() && c[i] != single_extent(id, 0, length) {
                assert(c[i] == entries[i]);
            }
        }
    }
}

/// A file that begins as `s` does up to its meta box, and has the rebuilt meta box there,
/// says what it said before, but for what was replaced.
pub proof fn lemma_rebuilt_reads(
    s: Seq<u8>,
    meta: BoxView,
    m: MetaView,
    located: Seq<IlocView>,
    iinf: Option<Seq<u8>>,
    iref: Option<Seq<u8>>,
    items: Seq<ItemView>,
    refs: Seq<IrefView>,
    t: Seq<u8>,
)
    requires
        holds_metadata(s),
        source_meta(s) == Some(Ok::<MetaView, Seq<char>>(m)),
        first_box(boxes_in(s, 0, s.len() as int), META@) == Some(meta),
        t.len() <= u32::MAX,
        located.len() < 0x1_0000,
        extents_counted(located),
        occurs_at(t, s.take(meta.box_start), 0),
        occurs_at(
            t,
            rebuilt_meta(s, meta, children_of(s), iloc_bytes(located), iinf, iref),
            meta.box_start,
        ),
        match iinf {
            None => items == m.items,
            Some(c) => c.len() <= u32::MAX ==> says_items(c, m.iinf_version, items),
        },
        match iref {
            None => refs == m.refs && references_hold(s),
            Some(c) => c.len() <= u32::MAX ==> says_references(c, refs),
        },
        iref is Some && first_box(children_of(s), IREF@) is None ==> iinf is Some
            && children_closed(s),
    ensures
        source_meta(t) == Some(
            Ok::<MetaView, Seq<char>>(rebuilt_view(m, stored_locations(located), items, refs)),
        ),
{
    let kids = children_of(s);
    let iloc = iloc_bytes(located);
    let boxes = rebuilt_children(s, kids, iloc, iinf, iref);
    let head = s.subrange(meta.data_start, meta.data_start + 4);
    let run = flat(boxes, as_is());
    lemma_rebuilt_form(s, meta, iloc, iinf, iref);
    lemma_replaced_len(s, iloc, iinf, iref);
    built_locations(located);
    lemma_rebuilt_says(s, m, iloc, iinf, iref, stored_locations(located), items, refs);
    assert(first_box(boxes_in(t, 0, t.len() as int), META@) == Some(
        header_of(META@, 4 + run.len() as int, meta.box_start),
    )) by {
        boxes_read_back(t, meta.box_start, t.len() as int, META@, head + run);
        assert(t.take(meta.box_start) =~= s.take(meta.box_start));
        lemma_same_start(s, t, 0, META@, header_of(META@, 4 + run.len() as int, meta.box_start));
    }
    lemma_children_read_back(
        t,
        meta.box_start,
        head,
        boxes,
        rebuilt_view(m, stored_locations(located), items, refs),
    );
}

/// The item data of a file stand in a file whose meta box was rebuilt.
pub proof fn lemma_rebuilt_item_data(
    s: Seq<u8>,
    meta: BoxView,
    located: Seq<IlocView>,
    iinf: Option<Seq<u8>>,
    iref: Option<Seq<u8>>,
    t: Seq<u8>,
    b: BoxView,
)
    requires
        holds_metadata(s),
        first_box(boxes_in(s, 0, s.len() as int), META@) == Some(meta),
        t.len() <= u32::MAX,
        located.len() < 0x1_0000,
        extents_counted(located),
        occurs_at(t, s.take(meta.box_start), 0),
        occurs_at(
            t,
            rebuilt_meta(s, meta, children_of(s), iloc_bytes(located), iinf, iref),
            meta.box_start,
        ),
        iinf matches Some(c) ==> (c.len() <= u32::MAX ==> is_box_of(c, IINF@)),
        iref matches Some(c) ==> (c.len() <= u32::MAX ==> is_box_of(c, IREF@)),
        iref is Some && first_box(children_of(s), IREF@) is None ==> iinf is Some
            && children_closed(s),
        idat_box(s) == Some(b),
    ensures
        idat_box(t) matches Some(c) && t.subrange(c.data_start, c.data_end) == s.subrange(
            b.data_start,
            b.data_end,
        ),
        0 <= b.data_start <= b.data_end <= s.len(),
        idat_box(t) matches Some(c) && 0 <= c.data_start <= c.data_end <= t.len(),
{
    let kids = children_of(s);
    let iloc = iloc_bytes(located);
    let boxes = rebuilt_children(s, kids, iloc, iinf, iref);
    let head = s.subrange(meta.data_start, meta.data_start + 4);
    let run = flat(boxes, as_is());
    lemma_rebuilt_form(s, meta, iloc, iinf, iref);
    lemma_replaced_len(s, iloc, iinf, iref);
    built_locations(located);
    assert(is_box_of(iloc, ILOC@)) by {
        reveal(says_locations);
    }
    lemma_children_lie(s);
    lemma_rebuilt_types(s, iloc, iinf, iref);
    lemma_rebuilt_first(kids, boxes, IDAT@);
    lemma_first_index(kids, IDAT@);
    assert(first_box(boxes_in(t, 0, t.len() as int), META@) == Some(
        header_of(META@, 4 + run.len() as int, meta.box_start),
    )) by {
        boxes_read_back(t, meta.box_start, t.len() as int, META@, head + run);
        assert(t.take(meta.box_start) =~= s.take(meta.box_start));
        lemma_same_start(s, t, 0, META@, header_of(META@, 4 + run.len() as int, meta.box_start));
    }
    let k = first_index(kids, IDAT@);
    let q = meta.box_start + 12;
    lemma_children_at(t, meta.box_start, head, boxes);
    lemma_child_at(t, q, boxes, IDAT@, k);
    lemma_item_data_copied(s, b, t, place_of(boxes, q, k), boxes[k], iloc, iinf, iref);
}

proof fn lemma_item_data_copied(
    s: Seq<u8>,
    b: BoxView,
    t: Seq<u8>,
    at: int,
    c: Seq<u8>,
    iloc: Seq<u8>,
    iinf: Option<Seq<u8>>,
    iref: Option<Seq<u8>>,
)
    requires
        stands(s, b),
        b.btype == IDAT@,
        c == rebuilt_kid(s, iloc, iinf, iref)(b),
        occurs_at(t, c, at),
    ensures
        ({
            let h = header_at(c, at);
            &&& 0 <= h.data_start <= h.data_end <= t.len()
            &&& 0 <= b.data_start <= b.data_end <= s.len()
            &&& t.subrange(h.data_start, h.data_end) == s.subrange(b.data_start, b.data_end)
        }),
{
    assert(IDAT@[1] != IINF@[1] && IDAT@[0] == ILOC@[0] && IDAT@[1] != ILOC@[1] && IDAT@[1]
        != IREF@[1]);
    lemma_copy(s, b);
    let h = header_at(c, at);
    assert(c == bytes_of(s, b));
    assert(h == moved_box(b, at - b.box_start));
    lemma_copied_part(s, b.box_start, b.data_end, t, at, b.data_start, b.data_end);
}

/// A rebuilt meta box is a box with the rebuilt children.
proof fn lemma_rebuilt_form(
    s: Seq<u8>,
    meta: BoxView,
    iloc: Seq<u8>,
    iinf: Option<Seq<u8>>,
    iref: Option<Seq<u8>>,
)
    requires
        holds_metadata(s),
        first_box(boxes_in(s, 0, s.len() as int), META@) == Some(meta),
    ensures
        ({
            let head = s.subrange(meta.data_start, meta.data_start + 4);
            let run = flat(rebuilt_children(s, children_of(s), iloc, iinf, iref), as_is());
            let new = rebuilt_meta(s, meta, children_of(s), iloc, iinf, iref);
            &&& new == box_bytes(META@, head + run)
            &&& new.len() == 12 + run.len()
            &&& head.len() == 4
            &&& 0 <= meta.box_start <= s.len()
        }),
{
    reveal(holds_metadata);
    let kids = children_of(s);
    let boxes = rebuilt_children(s, kids, iloc, iinf, iref);
    let head = s.subrange(meta.data_start, meta.data_start + 4);
    let run = flat(boxes, as_is());
    let new = rebuilt_meta(s, meta, kids, iloc, iinf, iref);
    lemma_rebuilt_children(s, kids, iloc, iinf, iref);
    lemma_first_index(boxes_in(s, 0, s.len() as int), META@);
    lemma_boxes_within(s, 0, s.len() as int);
    assert(head + flat(kids, rebuilt_kid(s, iloc, iinf, iref)) + new_iref(kids, iref) =~= head + run);
    assert(new == box_bytes(META@, head + run));
    assert(new.len() == 12 + run.len()) by {
        reveal(box_bytes);
    }
}

/// The boxes that replace others are among the rebuilt children.
proof fn lemma_replaced_len(
    s: Seq<u8>,
    iloc: Seq<u8>,
    iinf: Option<Seq<u8>>,
    iref: Option<Seq<u8>>,
)
    requires
        holds_metadata(s),
    ensures
        ({
            let n = flat(rebuilt_children(s, children_of(s), iloc, iinf, iref), as_is()).len();
            &&& iloc.len() <= n
            &&& iinf matches Some(c) ==> c.len() <= n
            &&& iref matches Some(c) ==> c.len() <= n
        }),
{
    reveal(holds_metadata);
    let kids = children_of(s);
    let boxes = rebuilt_children(s, kids, iloc, iinf, iref);
    assert(IINF@[1] != ILOC@[1]);
    assert(IREF@[1] != ILOC@[1]);
    assert(IREF@[1] != IINF@[1]);
    lemma_first_index(kids, ILOC@);
    let a = first_index(kids, ILOC@);
    assert(boxes[a] == iloc);
    lemma_part_len(boxes, a);
    match iinf {
        None => {},
        Some(c) => {
            lemma_first_index(kids, IINF@);
            let b = first_index(kids, IINF@);
            assert(boxes[b] == c);
            lemma_part_len(boxes, b);
        },
    }
    match iref {
        None => {},
        Some(c) => {
            lemma_first_index(kids, IREF@);
            let b = first_index(kids, IREF@);
            assert(boxes[b] == c);
            lemma_part_len(boxes, b);
        },
    }
}

/// A part is no longer than the whole.
pub proof fn lemma_part_len(boxes: Seq<Seq<u8>>, i: int)
    requires
        0 <= i < boxes.len(),
    ensures
        boxes[i].len() <= flat(boxes, as_is()).len(),
    decreases boxes.len(),
{
    if i < boxes.len() - 1 {
        assert(boxes.drop_last()[i] == boxes[i]);
        lemma_part_len(boxes.drop_last(), i);
    }
}

/// A file that was written with a payload appended to its media says what it said before,
/// but for what was replaced, and holds the payload and its media where it says.
pub proof fn written_payloads_stand(
    s: Seq<u8>,
    meta: BoxView,
    mdat: BoxView,
    m: MetaView,
    id: u32,
    payload: Seq<u8>,
    iinf: Option<Seq<u8>>,
    iref: Option<Seq<u8>>,
    items: Seq<ItemView>,
    refs: Seq<IrefView>,
    t: Seq<u8>,
)
    requires
        holds_metadata(s),
        source_meta(s) == Some(Ok::<MetaView, Seq<char>>(m)),
        meta_and_mdat(s) == Ok::<(BoxView, BoxView), Seq<char>>((meta, mdat)),
        with_payload(
            s,
            meta,
            mdat,
            children_of(s),
            claimed(m.iloc_entries, id, payload.len() as u64),
            iinf,
            iref,
            id,
            payload,
        ) == Some(t),
        t.len() <= u32::MAX,
        id < 0x1_0000,
        own_location(m.iloc_entries, id),
        claimed(m.iloc_entries, id, payload.len() as u64).len() < 0x1_0000,
        match iinf {
            None => items == m.items,
            Some(c) => c.len() <= u32::MAX ==> says_items(c, m.iinf_version, items),
        },
        match iref {
            None => refs == m.refs && references_hold(s),
            Some(c) => c.len() <= u32::MAX ==> says_references(c, refs),
        },
        iref is Some && first_box(children_of(s), IREF@) is None ==> iinf is Some
            && children_closed(s),
    ensures
        ({
            let entries = claimed(m.iloc_entries, id, payload.len() as u64);
            let start = new_media_start(s, meta, mdat, entries, iinf, iref);
            let at = new_payload_start(s, meta, mdat, entries, iinf, iref);
            let located = all_relocated(
                entries,
                id,
                at as u64,
                payload.len() as u64,
                mdat.data_start,
                start,
            );
            &&& source_meta(t) == Some(
                Ok::<MetaView, Seq<char>>(
                    rebuilt_view(m, stored_locations(located), items, refs),
                ),
            )
            &&& first_where(stored_locations(located), iloc_for(id)) == Some(
                new_location(id, at, payload.len() as int),
            )
            &&& occurs_at(t, payload, at)
            &&& at + payload.len() == t.len()
            &&& copied(s, mdat.data_start, mdat.data_end, t, start)
            &&& copied(s, 0, meta.box_start, t, 0)
        }),
{
    let entries = claimed(m.iloc_entries, id, payload.len() as u64);
    let start = new_media_start(s, meta, mdat, entries, iinf, iref);
    let at = new_payload_start(s, meta, mdat, entries, iinf, iref);
    let located = all_relocated(
        entries,
        id,
        at as u64,
        payload.len() as u64,
        mdat.data_start,
        start,
    );
    lemma_written_parts(s, meta, mdat, m, id, payload, iinf, iref, t);
    lemma_claimed(
        m.iloc_entries,
        id,
        at as u64,
        payload.len() as u64,
        mdat.data_start,
        start,
    );
    lemma_entries_count(s, m);
    lemma_located_counts(
        m.iloc_entries,
        id,
        at as u64,
        payload.len() as u64,
        mdat.data_start,
        start,
    );
    lemma_rebuilt_reads(s, meta, m, located, iinf, iref, items, refs, t);
}

/// The item data of a file stand in the file that was written of it.
pub proof fn written_item_data_stand(
    s: Seq<u8>,
    meta: BoxView,
    mdat: BoxView,
    m: MetaView,
    id: u32,
    payload: Seq<u8>,
    iinf: Option<Seq<u8>>,
    iref: Option<Seq<u8>>,
    t: Seq<u8>,
    b: BoxView,
)
    requires
        holds_metadata(s),
        source_meta(s) == Some(Ok::<MetaView, Seq<char>>(m)),
        meta_and_mdat(s) == Ok::<(BoxView, BoxView), Seq<char>>((meta, mdat)),
        with_payload(
            s,
            meta,
            mdat,
            children_of(s),
            claimed(m.iloc_entries, id, payload.len() as u64),
            iinf,
            iref,
            id,
            payload,
        ) == Some(t),
        t.len() <= u32::MAX,
        id < 0x1_0000,
        own_location(m.iloc_entries, id),
        claimed(m.iloc_entries, id, payload.len() as u64).len() < 0x1_0000,
        iinf matches Some(c) ==> (c.len() <= u32::MAX ==> is_box_of(c, IINF@)),
        iref matches Some(c) ==> (c.len() <= u32::MAX ==> is_box_of(c, IREF@)),
        iref is Some && first_box(children_of(s), IREF@) is None ==> iinf is Some
            && children_closed(s),
        idat_box(s) == Some(b),
    ensures
        0 <= b.data_start <= b.data_end <= s.len(),
        idat_box(t) matches Some(c) && 0 <= c.data_start <= c.data_end <= t.len() && t.subrange(
            c.data_start,
            c.data_end,
        ) == s.subrange(b.data_start, b.data_end),
{
    let entries = claimed(m.iloc_entries, id, payload.len() as u64);
    let start = new_media_start(s, meta, mdat, entries, iinf, iref);
    let at = new_payload_start(s, meta, mdat, entries, iinf, iref);
    let located = all_relocated(
        entries,
        id,
        at as u64,
        payload.len() as u64,
        mdat.data_start,
        start,
    );
    lemma_written_parts(s, meta, mdat, m, id, payload, iinf, iref, t);
    lemma_entries_count(s, m);
    lemma_located_counts(
        m.iloc_entries,
        id,
        at as u64,
        payload.len() as u64,
        mdat.data_start,
        start,
    );
    lemma_rebuilt_item_data(s, meta, located, iinf, iref, t, b);
}

/// Where the parts of a written file stand.
proof fn lemma_written_parts(
    s: Seq<u8>,
    meta: BoxView,
    mdat: BoxView,
    m: MetaView,
    id: u32,
    payload: Seq<u8>,
    iinf: Option<Seq<u8>>,
    iref: Option<Seq<u8>>,
    t: Seq<u8>,
)
    requires
        meta_and_mdat(s) == Ok::<(BoxView, BoxView), Seq<char>>((meta, mdat)),
        with_payload(
            s,
            meta,
            mdat,
            children_of(s),
            claimed(m.iloc_entries, id, payload.len() as u64),
            iinf,
            iref,
            id,
            payload,
        ) == Some(t),
        id < 0x1_0000,
        own_location(m.iloc_entries, id),
    ensures
        ({
            let entries = claimed(m.iloc_entries, id, payload.len() as u64);
            let start = new_media_start(s, meta, mdat, entries, iinf, iref);
            let at = new_payload_start(s, meta, mdat, entries, iinf, iref);
            let located = all_relocated(
                entries,
                id,
                at as u64,
                payload.len() as u64,
                mdat.data_start,
                start,
            );
            &&& 0 <= at
            &&& at + payload.len() == t.len()
            &&& occurs_at(t, payload, at)
            &&& copied(s, mdat.data_start, mdat.data_end, t, start)
            &&& copied(s, 0, meta.box_start, t, 0)
            &&& s.take(meta.box_start) == s.subrange(0, meta.box_start)
            &&& occurs_at(
                t,
                rebuilt_meta(s, meta, children_of(s), iloc_bytes(located), iinf, iref),
                meta.box_start,
            )
            &&& 0 <= meta.box_start <= s.len()
        }),
{
    let kids = children_of(s);
    let entries = claimed(m.iloc_entries, id, payload.len() as u64);
    let start = new_media_start(s, meta, mdat, entries, iinf, iref);
    let at = new_payload_start(s, meta, mdat, entries, iinf, iref);
    let located = all_relocated(
        entries,
        id,
        at as u64,
        payload.len() as u64,
        mdat.data_start,
        start,
    );
    let new = rebuilt_meta(s, meta, kids, iloc_bytes(located), iinf, iref);
    let top = boxes_in(s, 0, s.len() as int);
    lemma_boxes_within(s, 0, s.len() as int);
    lemma_first_index(top, META@);
    lemma_first_index(top, MDAT@);
    assert(children_of(s) == boxes_in(s, meta.data_start + 4, meta.data_end));
    let header = mdat.data_start - mdat.box_start;
    let held = mdat.data_end - mdat.data_start;
    let between = s.subrange(meta.data_end, mdat.box_start);
    let media = s.subrange(mdat.data_start, mdat.data_end);
    let pad = zeros(pad4(held) as nat);
    let head = s.take(meta.box_start);
    let body = media + pad + payload;
    let last = mdat_bytes(header, body);
    assert(head =~= s.subrange(0, meta.box_start));
    assert(t == head + new + between + last);
    assert(new.len() == rebuilt_meta(s, meta, kids, iloc_bytes(entries), iinf, iref).len()) by {
        lemma_counts_kept(m.iloc_entries, id, at as u64, payload.len() as u64, mdat.data_start, start);
        lemma_iloc_len(located, entries);
        lemma_rebuilt_len(s, meta, kids, iloc_bytes(located), iloc_bytes(entries), iinf, iref);
    }
    lemma_mdat_header(s, mdat);
    lemma_mdat(header, body);
    lemma_four_parts(head, new, between, last);
    let front = last.take(header);
    let here = (head.len() + new.len() + between.len()) as int;
    assert(occurs_at(t, last, here));
    lemma_parts(t, front, body, here);
    assert(here + front.len() == start);
    lemma_parts(t, media + pad, payload, start);
    lemma_parts(t, media, pad, start);
}

/// Giving an item a place of its own keeps the number of extents of every location.
proof fn lemma_counts_kept(
    entries: Seq<IlocView>,
    id: u32,
    offset: u64,
    length: u64,
    old: int,
    new: int,
)
    requires
        own_location(entries, id),
        id < 0x1_0000,
    ensures
        ({
            let c = claimed(entries, id, length);
            let l = all_relocated(c, id, offset, length, old, new);
            &&& l.len() == c.len()
            &&& forall|i: int|
                0 <= i < l.len() ==> (#[trigger] l[i]).extents.len() == c[i].extents.len()
        }),
{
    let c = claimed(entries, id, length);
    let l = all_relocated(c, id, offset, length, old, new);
    lemma_iloc_index(entries, id, 0);
    assert forall|i: int| 0 <= i < l.len() implies (#[trigger] l[i]).extents.len()
        == c[i].extents.len() by {
        if iloc_index(entries, id, 0) != Some(i) && i < entries.len() {
            assert(c[i] == entries[i]);
            assert(entries[i].item_id == id ==> entries[i].item_id % 0x1_0000 == id);
        }
    }
}

} // verus!
