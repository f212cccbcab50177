//! What the readers make of what the writers wrote.
//!
//! Each law says where bytes stand in a file and what a reader finds there, so that it
//! holds of a box alone and of one among others.

use crate::bytes::{
    be16, be32, be64, enc16, enc24, enc32, enc64, lemma_enc16_low_bits, lemma_enc32_low_bits,
    occurs_at,
};
use crate::fourcc::{INFE, IREF, IROT, ISPE};
use crate::isobmff::{
    BoxView, IlocSizes, IlocView, IpmaView, IrefView, ItemView, assoc_at, assoc_bytes, assocs_len,
    box_at, box_bytes, boxes_in, extent_bytes, extents_at, full_head, id_at, id_bytes, id_len,
    ids_bytes, iloc_at, iloc_entries_at, iloc_entry_at, iloc_entry_bytes, infe_at, infe_bytes,
    infe_head, ipma_at, ipma_entries_at, ipma_entry_at, ipma_entry_bytes, iref_at, iref_bytes,
    iref_rule_at, iref_rule_bytes, iref_rules_of, irot_bytes, is_irot, is_ispe, ispe_bytes,
    name_end, pitm_at, printable_at, shift_in,
};
use crate::seqs::{flat, lemma_flat_add};
use crate::text::name_text;
use vstd::prelude::*;
use vstd::string::*;
use vstd::utf8::*;

verus! {

// ---------------------------------------------------------------------------
// Places in a file
// ---------------------------------------------------------------------------

/// What follows each other stands in its parts.
pub proof fn lemma_parts(s: Seq<u8>, a: Seq<u8>, b: Seq<u8>, p: int)
    ensures
        occurs_at(s, a + b, p) <==> occurs_at(s, a, p) && occurs_at(s, b, p + a.len()),
{
    if occurs_at(s, a + b, p) {
        assert((a + b).subrange(0, a.len() as int) =~= a);
        assert((a + b).subrange(a.len() as int, (a + b).len() as int) =~= b);
        assert(s.subrange(p, p + a.len()) =~= s.subrange(p, p + (a + b).len()).subrange(
            0,
            a.len() as int,
        ));
        assert(s.subrange(p + a.len(), p + a.len() + b.len()) =~= s.subrange(
            p,
            p + (a + b).len(),
        ).subrange(a.len() as int, (a + b).len() as int));
    }
    if occurs_at(s, a, p) && occurs_at(s, b, p + a.len()) {
        assert(s.subrange(p, p + (a + b).len()) =~= s.subrange(p, p + a.len()) + s.subrange(
            p + a.len(),
            p + a.len() + b.len(),
        ));
    }
}

/// Where nine pieces that follow each other stand.
pub proof fn lemma_nine_parts(
    a: Seq<u8>,
    b: Seq<u8>,
    c: Seq<u8>,
    d: Seq<u8>,
    e: Seq<u8>,
    f: Seq<u8>,
    g: Seq<u8>,
    h: Seq<u8>,
    i: Seq<u8>,
)
    ensures
        ({
            let s = a + b + c + d + e + f + g + h + i;
            let p1 = a.len() as int;
            let p2 = p1 + b.len();
            let p3 = p2 + c.len();
            let p4 = p3 + d.len();
            let p5 = p4 + e.len();
            let p6 = p5 + f.len();
            let p7 = p6 + g.len();
            let p8 = p7 + h.len();
            &&& occurs_at(s, a, 0)
            &&& occurs_at(s, b, p1)
            &&& occurs_at(s, c, p2)
            &&& occurs_at(s, d, p3)
            &&& occurs_at(s, e, p4)
            &&& occurs_at(s, f, p5)
            &&& occurs_at(s, g, p6)
            &&& occurs_at(s, h, p7)
            &&& occurs_at(s, i, p8)
            &&& s.len() == p8 + i.len()
        }),
{
    let q1 = a + b;
    let q2 = q1 + c;
    let q3 = q2 + d;
    let q4 = q3 + e;
    let q5 = q4 + f;
    let q6 = q5 + g;
    let q7 = q6 + h;
    let s = q7 + i;
    assert(s.subrange(0, s.len() as int) =~= s);
    lemma_parts(s, q7, i, 0);
    lemma_parts(s, q6, h, 0);
    lemma_parts(s, q5, g, 0);
    lemma_parts(s, q4, f, 0);
    lemma_parts(s, q3, e, 0);
    lemma_parts(s, q2, d, 0);
    lemma_parts(s, q1, c, 0);
    lemma_parts(s, a, b, 0);
}

/// Bytes that stand somewhere are read there.
pub proof fn lemma_byte(s: Seq<u8>, a: Seq<u8>, p: int, i: int)
    requires
        occurs_at(s, a, p),
        0 <= i < a.len(),
    ensures
        s[p + i] == a[i],
{
    assert(s.subrange(p, p + a.len())[i] == s[p + i]);
}

/// The low 16 bits of an integer are read back where they were written.
pub proof fn integers_of_16_bits_read_back(s: Seq<u8>, p: int, v: int)
    requires
        0 <= v,
        occurs_at(s, enc16(v), p),
    ensures
        be16(s, p) == v % 0x1_0000,
{
    lemma_enc16_low_bits(v);
    let v = v % 0x1_0000;
    lemma_byte(s, enc16(v), p, 0);
    lemma_byte(s, enc16(v), p, 1);
}

/// The four bytes of an integer make it up.
proof fn lemma_four_bytes(v: int)
    requires
        0 <= v < 0x1_0000_0000,
    ensures
        v == (v / 0x100_0000) % 0x100 * 0x100_0000 + (v / 0x1_0000) % 0x100 * 0x1_0000 + (v / 0x100)
            % 0x100 * 0x100 + v % 0x100,
{
    let a = v / 0x100;
    let b = a / 0x100;
    assert(v / 0x1_0000 == b);
    assert(v / 0x100_0000 == b / 0x100);
    assert(b / 0x100 < 0x100);
}

/// The low 32 bits of an integer are read back where they were written.
#[verifier::rlimit(60)]
pub proof fn integers_of_32_bits_read_back(s: Seq<u8>, p: int, v: int)
    requires
        0 <= v,
        occurs_at(s, enc32(v), p),
    ensures
        be32(s, p) == v % 0x1_0000_0000,
{
    lemma_enc32_low_bits(v);
    let v = v % 0x1_0000_0000;
    lemma_byte(s, enc32(v), p, 0);
    lemma_byte(s, enc32(v), p, 1);
    lemma_byte(s, enc32(v), p, 2);
    lemma_byte(s, enc32(v), p, 3);
    lemma_four_bytes(v);
}

#[verifier::rlimit(60)]
proof fn lemma_two_words(s: Seq<u8>, p: int, high: int, low: int)
    requires
        0 <= high < 0x1_0000_0000,
        0 <= low < 0x1_0000_0000,
        occurs_at(s, enc32(high) + enc32(low), p),
    ensures
        be64(s, p) == high * 0x1_0000_0000 + low,
{
    lemma_parts(s, enc32(high), enc32(low), p);
    integers_of_32_bits_read_back(s, p, high);
    integers_of_32_bits_read_back(s, p + 4, low);
    assert(high % 0x1_0000_0000 == high && low % 0x1_0000_0000 == low);
    assert(be32(s, p) == high && be32(s, p + 4) == low);
}

/// An integer of 64 bits is read back where it was written.
pub proof fn integers_of_64_bits_read_back(s: Seq<u8>, p: int, v: int)
    requires
        0 <= v <= u64::MAX,
        occurs_at(s, enc64(v), p),
    ensures
        be64(s, p) == v,
{
    lemma_two_words(s, p, v / 0x1_0000_0000, v % 0x1_0000_0000);
}

/// What is left of an item number in the width that it is written in.
pub open spec fn kept_id(id: u32, wide: bool) -> u32 {
    if wide {
        id
    } else {
        (id % 0x1_0000) as u32
    }
}

/// An item number is read back where it was written.
proof fn lemma_id(s: Seq<u8>, p: int, id: u32, wide: bool)
    requires
        occurs_at(s, id_bytes(id as int, wide), p),
    ensures
        id_at(s, p, wide) == kept_id(id, wide),
{
    if wide {
        integers_of_32_bits_read_back(s, p, id as int);
    } else {
        integers_of_16_bits_read_back(s, p, id as int);
    }
}

/// What stands first comes first.
pub proof fn lemma_flat_first<T>(x: Seq<T>, f: spec_fn(T) -> Seq<u8>)
    requires
        x.len() > 0,
    ensures
        flat(x, f) == f(x[0]) + flat(x.drop_first(), f),
{
    let one = seq![x[0]];
    assert(x =~= one + x.drop_first());
    lemma_flat_add(one, x.drop_first(), f);
    reveal_with_fuel(flat, 2);
    assert(flat(one, f) =~= f(x[0]));
}

// ---------------------------------------------------------------------------
// Boxes
// ---------------------------------------------------------------------------

/// The header of a built box at `p`.
pub open spec fn header_of(btype: Seq<u8>, len: int, p: int) -> BoxView {
    BoxView { btype, data_start: p + 8, data_end: p + 8 + len, box_start: p, size: 8 + len }
}

/// A built box is read back with its type, where it stands and with its whole payload.
pub proof fn boxes_read_back(s: Seq<u8>, p: int, end: int, btype: Seq<u8>, payload: Seq<u8>)
    requires
        btype.len() == 4,
        payload.len() + 8 <= u32::MAX,
        occurs_at(s, box_bytes(btype, payload), p),
        p + 8 + payload.len() <= end,
    ensures
        box_at(s, p, end) == Some(header_of(btype, payload.len() as int, p)),
        occurs_at(s, payload, p + 8),
        box_bytes(btype, payload).len() == 8 + payload.len(),
{
    reveal(box_bytes);
    let n = payload.len() as int + 8;
    lemma_parts(s, enc32(n) + btype, payload, p);
    lemma_parts(s, enc32(n), btype, p);
    integers_of_32_bits_read_back(s, p, n);
}

/// A box as its type and its payload.
pub open spec fn plain_box() -> spec_fn((Seq<u8>, Seq<u8>)) -> Seq<u8> {
    |b: (Seq<u8>, Seq<u8>)| box_bytes(b.0, b.1)
}

/// The headers of boxes that follow each other from `p` on.
pub open spec fn headers_of(boxes: Seq<(Seq<u8>, Seq<u8>)>, p: int) -> Seq<BoxView>
    decreases boxes.len(),
{
    if boxes.len() == 0 {
        Seq::empty()
    } else {
        seq![header_of(boxes[0].0, boxes[0].1.len() as int, p)] + headers_of(
            boxes.drop_first(),
            p + 8 + boxes[0].1.len(),
        )
    }
}

/// Whether boxes have types of four bytes and sizes of 32 bits.
pub open spec fn boxes_fit(boxes: Seq<(Seq<u8>, Seq<u8>)>) -> bool {
    forall|i: int|
        0 <= i < boxes.len() ==> (#[trigger] boxes[i]).0.len() == 4 && boxes[i].1.len() + 8
            <= u32::MAX
}

/// Built boxes that follow each other up to an end are read back there, all of them in
/// order and no others.
pub proof fn runs_of_boxes_read_back(s: Seq<u8>, p: int, boxes: Seq<(Seq<u8>, Seq<u8>)>)
    requires
        boxes_fit(boxes),
        occurs_at(s, flat(boxes, plain_box()), p),
    ensures
        boxes_in(s, p, p + flat(boxes, plain_box()).len()) == headers_of(boxes, p),
    decreases boxes.len(),
{
    let all = flat(boxes, plain_box());
    let end = p + all.len();
    if boxes.len() > 0 {
        let rest = boxes.drop_first();
        lemma_flat_first(boxes, plain_box());
        let (btype, payload) = boxes[0];
        let first = box_bytes(btype, payload);
        lemma_parts(s, first, flat(rest, plain_box()), p);
        assert(first.len() == 8 + payload.len()) by {
            reveal(box_bytes);
        }
        boxes_read_back(s, p, end, btype, payload);
        assert forall|i: int| 0 <= i < rest.len() implies (#[trigger] rest[i]).0.len() == 4
            && rest[i].1.len() + 8 <= u32::MAX by {
            assert(rest[i] == boxes[i + 1]);
        }
        runs_of_boxes_read_back(s, p + first.len(), rest);
    }
}

/// The size stands in an ispe box behind its head.
proof fn lemma_ispe_parts(width: int, height: int)
    ensures
        is_ispe(ispe_bytes(width, height)),
        occurs_at(ispe_bytes(width, height), enc32(width), 12),
        occurs_at(ispe_bytes(width, height), enc32(height), 16),
{
    reveal(box_bytes);
    let s = ispe_bytes(width, height);
    assert(s.subrange(4, 8) =~= ISPE@);
    assert(s.subrange(12, 16) =~= enc32(width));
    assert(s.subrange(16, 20) =~= enc32(height));
}

proof fn lemma_size_at(s: Seq<u8>, width: u32, height: u32)
    requires
        occurs_at(s, enc32(width as int), 12),
        occurs_at(s, enc32(height as int), 16),
    ensures
        be32(s, 12) == width,
        be32(s, 16) == height,
{
    integers_of_32_bits_read_back(s, 12, width as int);
    integers_of_32_bits_read_back(s, 16, height as int);
}

/// The image size that an ispe box was built from is read back.
#[verifier::rlimit(60)]
pub proof fn sizes_read_back(width: u32, height: u32)
    ensures
        is_ispe(ispe_bytes(width as int, height as int)),
        be32(ispe_bytes(width as int, height as int), 12) == width,
        be32(ispe_bytes(width as int, height as int), 16) == height,
{
    lemma_ispe_parts(width as int, height as int);
    lemma_size_at(ispe_bytes(width as int, height as int), width, height);
}

/// The quarter turns that an irot box was built from are read back, whole turns left out.
pub proof fn turns_read_back(turns: u8)
    ensures
        is_irot(irot_bytes(turns as int)),
        irot_bytes(turns as int)[8] % 4 == turns % 4,
{
    reveal(box_bytes);
    let s = irot_bytes(turns as int);
    assert(s.subrange(4, 8) =~= IROT@);
}

/// The primary item that a pitm box was built from is read back.
pub proof fn primary_items_read_back(s: Seq<u8>, p: int, version: u8, id: u32)
    requires
        occurs_at(s, full_head(version) + id_bytes(id as int, version >= 1), p),
    ensures
        pitm_at(s, p) == Some(kept_id(id, version >= 1)),
        s[p] == version,
{
    lemma_parts(s, full_head(version), id_bytes(id as int, version >= 1), p);
    lemma_byte(s, full_head(version), p, 0);
    lemma_id(s, p + 4, id, version >= 1);
}

// ---------------------------------------------------------------------------
// Item locations
// ---------------------------------------------------------------------------

/// An extent as it is left in 32-bit fields.
pub open spec fn stored_extent(x: (u64, u64)) -> (u64, u64) {
    ((x.0 % 0x1_0000_0000) as u64, (x.1 % 0x1_0000_0000) as u64)
}

/// Extents as they are left in 32-bit fields.
pub open spec fn stored_extents(x: Seq<(u64, u64)>) -> Seq<(u64, u64)> {
    Seq::new(x.len(), |i: int| stored_extent(x[i]))
}

/// A location as it is left in the fields that it is written in: 16 bits of the item
/// number, four bits of the construction method and 32 bits of each offset and length.
pub open spec fn stored_location(e: IlocView) -> IlocView {
    IlocView {
        item_id: (e.item_id % 0x1_0000) as u32,
        construction_method: (e.construction_method % 0x10) as u16,
        data_reference_index: e.data_reference_index,
        extents: stored_extents(e.extents),
    }
}

/// Locations as they are left in the fields that they are written in.
pub open spec fn stored_locations(entries: Seq<IlocView>) -> Seq<IlocView> {
    Seq::new(entries.len(), |i: int| stored_location(entries[i]))
}

/// The widths that are declared by what is written.
pub open spec fn written_sizes() -> IlocSizes {
    IlocSizes { version: 1, offset_size: 4, length_size: 4, base_offset_size: 0, index_size: 0 }
}

proof fn lemma_shift_in_4(s: Seq<u8>, p: int)
    ensures
        shift_in(s, p, 4, 0) == be32(s, p),
{
    reveal_with_fuel(shift_in, 5);
}

proof fn lemma_extents(s: Seq<u8>, p: int, x: Seq<(u64, u64)>, acc: Seq<(u64, u64)>)
    requires
        s.len() <= usize::MAX,
        occurs_at(s, flat(x, extent_bytes()), p),
    ensures
        extents_at(s, p, x.len() as int, 0, written_sizes(), acc) == Some(
            (acc + stored_extents(x), p + 8 * x.len()),
        ),
        flat(x, extent_bytes()).len() == 8 * x.len(),
    decreases x.len(),
{
    if x.len() == 0 {
        assert(acc + stored_extents(x) =~= acc);
    } else {
        let rest = x.drop_first();
        lemma_flat_first(x, extent_bytes());
        let (offset, length) = x[0];
        let one = enc32(offset as int) + enc32(length as int);
        lemma_parts(s, one, flat(rest, extent_bytes()), p);
        lemma_parts(s, enc32(offset as int), enc32(length as int), p);
        integers_of_32_bits_read_back(s, p, offset as int);
        integers_of_32_bits_read_back(s, p + 4, length as int);
        lemma_shift_in_4(s, p);
        lemma_shift_in_4(s, p + 4);
        lemma_extents(s, p + 8, rest, acc.push(stored_extent(x[0])));
        assert(acc.push(stored_extent(x[0])) + stored_extents(rest) =~= acc + stored_extents(x));
    }
}

proof fn lemma_location(s: Seq<u8>, p: int, e: IlocView)
    requires
        s.len() <= usize::MAX,
        e.extents.len() < 0x1_0000,
        occurs_at(s, iloc_entry_bytes()(e), p),
    ensures
        iloc_entry_at(s, p, written_sizes()) == Some(
            (stored_location(e), p + iloc_entry_bytes()(e).len()),
        ),
{
    let a = enc16(e.item_id as int);
    let b = enc16(e.construction_method as int);
    let c = enc16(e.data_reference_index as int);
    let d = enc16(e.extents.len() as int);
    let x = flat(e.extents, extent_bytes());
    lemma_parts(s, a + b + c + d, x, p);
    lemma_parts(s, a + b + c, d, p);
    lemma_parts(s, a + b, c, p);
    lemma_parts(s, a, b, p);
    integers_of_16_bits_read_back(s, p, e.item_id as int);
    integers_of_16_bits_read_back(s, p + 2, e.construction_method as int);
    integers_of_16_bits_read_back(s, p + 4, e.data_reference_index as int);
    integers_of_16_bits_read_back(s, p + 6, e.extents.len() as int);
    lemma_extents(s, p + 8, e.extents, Seq::empty());
    assert(Seq::<(u64, u64)>::empty() + stored_extents(e.extents) =~= stored_extents(e.extents));
    assert(shift_in(s, p + 6, 0, 0) == 0);
}

proof fn lemma_locations(s: Seq<u8>, p: int, entries: Seq<IlocView>, acc: Seq<IlocView>)
    requires
        s.len() <= usize::MAX,
        forall|i: int| 0 <= i < entries.len() ==> (#[trigger] entries[i]).extents.len() < 0x1_0000,
        occurs_at(s, flat(entries, iloc_entry_bytes()), p),
    ensures
        iloc_entries_at(s, p, entries.len() as int, written_sizes(), acc) == Some(
            acc + stored_locations(entries),
        ),
    decreases entries.len(),
{
    if entries.len() == 0 {
        assert(acc + stored_locations(entries) =~= acc);
    } else {
        let rest = entries.drop_first();
        let one = iloc_entry_bytes()(entries[0]);
        lemma_flat_first(entries, iloc_entry_bytes());
        lemma_parts(s, one, flat(rest, iloc_entry_bytes()), p);
        lemma_location(s, p, entries[0]);
        assert forall|i: int| 0 <= i < rest.len() implies (#[trigger] rest[i]).extents.len()
            < 0x1_0000 by {
            assert(rest[i] == entries[i + 1]);
        }
        let first = stored_location(entries[0]);
        lemma_locations(s, p + one.len(), rest, acc.push(first));
        assert(acc.push(first) + stored_locations(rest) =~= acc + stored_locations(entries));
    }
}

/// The payload of an iloc box.
pub open spec fn iloc_payload(entries: Seq<IlocView>) -> Seq<u8> {
    seq![1u8, 0u8, 0u8, 0u8, 0x44u8, 0u8] + enc16(entries.len() as int) + flat(
        entries,
        iloc_entry_bytes(),
    )
}

/// Item locations are read back as they were written, as far as their fields hold them.
pub proof fn locations_read_back(s: Seq<u8>, p: int, entries: Seq<IlocView>)
    requires
        s.len() <= usize::MAX,
        entries.len() < 0x1_0000,
        forall|i: int| 0 <= i < entries.len() ==> (#[trigger] entries[i]).extents.len() < 0x1_0000,
        occurs_at(s, iloc_payload(entries), p),
    ensures
        iloc_at(s, p) == Some(stored_locations(entries)),
{
    let head = seq![1u8, 0u8, 0u8, 0u8, 0x44u8, 0u8];
    lemma_parts(s, head + enc16(entries.len() as int), flat(entries, iloc_entry_bytes()), p);
    lemma_parts(s, head, enc16(entries.len() as int), p);
    lemma_byte(s, head, p, 0);
    lemma_byte(s, head, p, 4);
    lemma_byte(s, head, p, 5);
    integers_of_16_bits_read_back(s, p + 6, entries.len() as int);
    lemma_locations(s, p + 8, entries, Seq::empty());
    assert(Seq::<IlocView>::empty() + stored_locations(entries) =~= stored_locations(entries));
}

// ---------------------------------------------------------------------------
// Items
// ---------------------------------------------------------------------------

/// Whether a type is four printable characters.
pub open spec fn is_item_type(itype: Seq<char>) -> bool {
    &&& encode_utf8(itype).len() == 4
    &&& printable_at(encode_utf8(itype), 0)
}

/// What an infe box that was built for an item says of it.
pub open spec fn built_item(item_id: u32, itype: Seq<char>, flags: u32) -> ItemView {
    ItemView {
        item_id,
        itype,
        flags,
        raw_infe: infe_bytes(item_id as int, itype, flags as int),
    }
}

/// The name of a built text is that text.
proof fn lemma_name(t: Seq<char>)
    ensures
        name_text(encode_utf8(t)) == t,
{
    broadcast use encode_utf8_valid_utf8, encode_utf8_decode_utf8;

}

proof fn lemma_name_end(s: Seq<u8>, p: int, n: int, end: int)
    requires
        0 <= n,
        p + n < end,
        forall|i: int| p <= i < p + n ==> #[trigger] s[i] != 0,
        s[p + n] == 0,
    ensures
        name_end(s, p, end) == p + n,
    decreases n,
{
    if n > 0 {
        lemma_name_end(s, p + 1, n - 1, end);
    }
}

/// An item's number, type and flags are read back from the infe box that was built of
/// them.
pub proof fn items_read_back(s: Seq<u8>, p: int, item_id: u32, itype: Seq<char>, flags: u32)
    requires
        item_id < 0x1_0000,
        is_item_type(itype),
        flags < 0x100_0000,
        occurs_at(s, infe_bytes(item_id as int, itype, flags as int), p),
    ensures
        infe_at(s, header_of(INFE@, 13, p)) == Some(built_item(item_id, itype, flags)),
        infe_bytes(item_id as int, itype, flags as int).len() == 21,
{
    let name = encode_utf8(itype);
    let head = infe_head(item_id as int, flags as int);
    let payload = head + name + seq![0u8];
    assert(payload.len() == 13);
    boxes_read_back(s, p, p + 21, INFE@, payload);
    lemma_parts(s, head + name, seq![0u8], p + 8);
    lemma_parts(s, head, name, p + 8);
    lemma_byte(s, seq![0u8], p + 20, 0);
    let (a, b, c, d) = (seq![2u8], enc24(flags as int), enc16(item_id as int), enc16(0));
    lemma_parts(s, a + b + c, d, p + 8);
    lemma_parts(s, a + b, c, p + 8);
    lemma_parts(s, a, b, p + 8);
    lemma_byte(s, a, p + 8, 0);
    lemma_byte(s, b, p + 9, 0);
    lemma_byte(s, b, p + 9, 1);
    lemma_byte(s, b, p + 9, 2);
    integers_of_16_bits_read_back(s, p + 12, item_id as int);
    assert forall|i: int| p + 16 <= i < p + 20 implies 0x20 <= #[trigger] s[i] <= 0x7e by {
        lemma_byte(s, name, p + 16, i - (p + 16));
        assert(0x20 <= name[i - (p + 16)] <= 0x7e);
    }
    assert(printable_at(s, p + 16));
    lemma_name_end(s, p + 16, 4, p + 21);
    lemma_name(itype);
    let f = flags as int;
    assert(f == ((f / 0x1_0000) % 0x100) * 0x1_0000 + ((f / 0x100) % 0x100) * 0x100 + f % 0x100);
}

// ---------------------------------------------------------------------------
// References
// ---------------------------------------------------------------------------

/// Whether a reference has a type of four bytes and as many targets as can be counted.
pub open spec fn reference_fits(r: IrefView) -> bool {
    &&& encode_utf8(r.rtype).len() == 4
    &&& r.to.len() < 0x1_0000
}

/// Item numbers as they are left in the width that they are written in.
pub open spec fn kept_ids(ids: Seq<u32>, wide: bool) -> Seq<u32> {
    Seq::new(ids.len(), |i: int| kept_id(ids[i], wide))
}

/// A reference as it is left in the width that its item numbers are written in.
pub open spec fn kept_reference(r: IrefView, wide: bool) -> IrefView {
    IrefView { rtype: r.rtype, from: kept_id(r.from, wide), to: kept_ids(r.to, wide) }
}

/// References as they are left in the width that their item numbers are written in.
pub open spec fn kept_references(refs: Seq<IrefView>, wide: bool) -> Seq<IrefView> {
    Seq::new(refs.len(), |i: int| kept_reference(refs[i], wide))
}

/// The payload of a reference box.
pub open spec fn reference_payload(r: IrefView, wide: bool) -> Seq<u8> {
    id_bytes(r.from as int, wide) + enc16(r.to.len() as int) + flat(r.to, ids_bytes(wide))
}

proof fn lemma_ids(s: Seq<u8>, p: int, ids: Seq<u32>, wide: bool)
    requires
        occurs_at(s, flat(ids, ids_bytes(wide)), p),
    ensures
        flat(ids, ids_bytes(wide)).len() == ids.len() * id_len(wide),
        forall|i: int|
            0 <= i < ids.len() ==> id_at(s, p + i * id_len(wide), wide) == kept_id(
                #[trigger] ids[i],
                wide,
            ),
    decreases ids.len(),
{
    if ids.len() > 0 {
        let rest = ids.drop_first();
        let n = id_len(wide);
        lemma_flat_first(ids, ids_bytes(wide));
        lemma_parts(s, id_bytes(ids[0] as int, wide), flat(rest, ids_bytes(wide)), p);
        lemma_id(s, p, ids[0], wide);
        lemma_ids(s, p + n, rest, wide);
        assert(ids.len() * n == rest.len() * n + n) by (nonlinear_arith)
            requires
                ids.len() == rest.len() + 1,
        ;
        assert forall|i: int| 0 <= i < ids.len() implies id_at(s, p + i * n, wide) == kept_id(
            #[trigger] ids[i],
            wide,
        ) by {
            if i == 0 {
                assert(0 * n == 0) by (nonlinear_arith);
            } else {
                assert(rest[i - 1] == ids[i]);
                assert(i * n == n + (i - 1) * n) by (nonlinear_arith);
            }
        }
    }
}

proof fn lemma_reference(s: Seq<u8>, p: int, r: IrefView, wide: bool)
    requires
        reference_fits(r),
        occurs_at(s, reference_payload(r, wide), p + 8),
    ensures
        iref_rule_at(
            s,
            header_of(encode_utf8(r.rtype).take(4), reference_payload(r, wide).len() as int, p),
            wide,
        ) == Some(kept_reference(r, wide)),
{
    let a = id_bytes(r.from as int, wide);
    let b = enc16(r.to.len() as int);
    let n = id_len(wide);
    lemma_parts(s, a + b, flat(r.to, ids_bytes(wide)), p + 8);
    lemma_parts(s, a, b, p + 8);
    lemma_id(s, p + 8, r.from, wide);
    integers_of_16_bits_read_back(s, p + 8 + n, r.to.len() as int);
    lemma_ids(s, p + 8 + n + 2, r.to, wide);
    assert(encode_utf8(r.rtype).take(4) =~= encode_utf8(r.rtype));
    lemma_name(r.rtype);
    let read = Seq::new(
        r.to.len(),
        |k: int| id_at(s, p + 8 + n + 2 + k * n, wide) as u32,
    );
    assert forall|k: int| 0 <= k < r.to.len() implies read[k] == kept_id(r.to[k], wide) by {}
    assert(read =~= kept_ids(r.to, wide));
}

/// References as boxes.
pub open spec fn reference_boxes(refs: Seq<IrefView>, wide: bool) -> Seq<(Seq<u8>, Seq<u8>)> {
    Seq::new(
        refs.len(),
        |i: int| (encode_utf8(refs[i].rtype).take(4), reference_payload(refs[i], wide)),
    )
}

/// Elements that come to the same bytes come to the same bytes together.
pub proof fn lemma_flat_same<S, T>(
    x: Seq<S>,
    f: spec_fn(S) -> Seq<u8>,
    y: Seq<T>,
    g: spec_fn(T) -> Seq<u8>,
)
    requires
        x.len() == y.len(),
        forall|i: int| 0 <= i < x.len() ==> f(#[trigger] x[i]) == g(y[i]),
    ensures
        flat(x, f) == flat(y, g),
    decreases x.len(),
{
    if x.len() > 0 {
        let n = x.len() - 1;
        assert(f(x[n]) == g(y[n]));
        assert forall|i: int| 0 <= i < n implies f(#[trigger] x.drop_last()[i]) == g(
            y.drop_last()[i],
        ) by {
            assert(f(x[i]) == g(y[i]));
        }
        lemma_flat_same(x.drop_last(), f, y.drop_last(), g);
    }
}

proof fn lemma_reference_rules(
    s: Seq<u8>,
    p: int,
    refs: Seq<IrefView>,
    wide: bool,
    kids: Seq<BoxView>,
    k: int,
    acc: Seq<IrefView>,
)
    requires
        0 <= k <= kids.len(),
        kids.skip(k) == headers_of(reference_boxes(refs, wide), p),
        forall|i: int| 0 <= i < refs.len() ==> reference_fits(#[trigger] refs[i]),
        occurs_at(s, flat(reference_boxes(refs, wide), plain_box()), p),
        boxes_fit(reference_boxes(refs, wide)),
    ensures
        iref_rules_of(s, kids, k, wide, acc) == Some(acc + kept_references(refs, wide)),
    decreases refs.len(),
{
    let boxes = reference_boxes(refs, wide);
    if refs.len() == 0 {
        assert(kids.skip(k).len() == 0);
        assert(acc + kept_references(refs, wide) =~= acc);
    } else {
        let rest = refs.drop_first();
        let first = boxes[0];
        assert(boxes.drop_first() =~= reference_boxes(rest, wide)) by {
            assert forall|i: int| 0 <= i < rest.len() implies boxes.drop_first()[i]
                == reference_boxes(rest, wide)[i] by {
                assert(rest[i] == refs[i + 1]);
            }
        }
        lemma_flat_first(boxes, plain_box());
        lemma_parts(s, box_bytes(first.0, first.1), flat(boxes.drop_first(), plain_box()), p);
        boxes_read_back(s, p, p + 8 + first.1.len(), first.0, first.1);
        lemma_reference(s, p, refs[0], wide);
        assert(headers_of(boxes, p).len() > 0);
        assert(kids.skip(k).len() == kids.len() - k);
        assert(kids.skip(k)[0] == kids[k]);
        assert(kids.skip(k + 1) =~= kids.skip(k).drop_first());
        let after = p + 8 + first.1.len();
        assert(headers_of(boxes, p).drop_first() =~= headers_of(boxes.drop_first(), after));
        assert forall|i: int| 0 <= i < rest.len() implies reference_fits(
            #[trigger] rest[i],
        ) by {
            assert(rest[i] == refs[i + 1]);
        }
        assert forall|i: int| 0 <= i < boxes.drop_first().len() implies (
        #[trigger] boxes.drop_first()[i]).0.len() == 4 && boxes.drop_first()[i].1.len() + 8
            <= u32::MAX by {
            assert(boxes.drop_first()[i] == boxes[i + 1]);
        }
        let one = kept_reference(refs[0], wide);
        lemma_reference_rules(s, after, rest, wide, kids, k + 1, acc.push(one));
        assert(acc.push(one) + kept_references(rest, wide) =~= acc + kept_references(refs, wide));
    }
}

proof fn lemma_ids_len(ids: Seq<u32>, wide: bool)
    ensures
        flat(ids, ids_bytes(wide)).len() == ids.len() * id_len(wide),
    decreases ids.len(),
{
    if ids.len() > 0 {
        lemma_ids_len(ids.drop_last(), wide);
        let n = id_len(wide);
        assert(ids.len() * n == (ids.len() - 1) * n + n) by (nonlinear_arith);
    } else {
        assert(0 * id_len(wide) == 0) by (nonlinear_arith);
    }
}

/// References are read back as they were written, each with its type, its source and its
/// targets in order, as far as the width of an item number holds them.
#[verifier::rlimit(60)]
pub proof fn references_read_back(s: Seq<u8>, p: int, version: u8, refs: Seq<IrefView>)
    requires
        forall|i: int| 0 <= i < refs.len() ==> reference_fits(#[trigger] refs[i]),
        occurs_at(s, iref_bytes(version, refs), p),
        iref_bytes(version, refs).len() <= u32::MAX,
    ensures
        iref_at(s, header_of(IREF@, iref_bytes(version, refs).len() - 8, p)) == Some(
            (version, kept_references(refs, version >= 1)),
        ),
{
    let wide = version >= 1;
    let boxes = reference_boxes(refs, wide);
    let run = flat(refs, iref_rule_bytes(wide));
    assert forall|i: int| 0 <= i < refs.len() implies iref_rule_bytes(wide)(#[trigger] refs[i])
        == plain_box()(boxes[i]) by {}
    lemma_flat_same(refs, iref_rule_bytes(wide), boxes, plain_box());
    assert forall|i: int| 0 <= i < boxes.len() implies (#[trigger] boxes[i]).0.len() == 4
        && boxes[i].1.len() + 8 <= u32::MAX by {
        assert(reference_fits(refs[i]));
        lemma_ids_len(refs[i].to, wide);
    }
    let payload = full_head(version) + run;
    assert(iref_bytes(version, refs).len() == 8 + payload.len()) by {
        reveal(box_bytes);
    }
    boxes_read_back(s, p, p + 8 + payload.len(), IREF@, payload);
    lemma_parts(s, full_head(version), run, p + 8);
    lemma_byte(s, full_head(version), p + 8, 0);
    runs_of_boxes_read_back(s, p + 12, boxes);
    let kids = headers_of(boxes, p + 12);
    assert(kids.skip(0) =~= kids);
    lemma_reference_rules(s, p + 12, refs, wide, kids, 0, Seq::empty());
    assert(Seq::<IrefView>::empty() + kept_references(refs, wide) =~= kept_references(refs, wide));
}

// ---------------------------------------------------------------------------
// Property associations
// ---------------------------------------------------------------------------

/// Whether the associations of an item fit the fields that they are written in.
pub open spec fn associations_fit(e: IpmaView, wide: bool) -> bool {
    &&& wide || e.item_id < 0x1_0000
    &&& e.associations.len() < 0x100
    &&& forall|i: int|
        0 <= i < e.associations.len() ==> (#[trigger] e.associations[i]).0 < (if wide {
            0x8000int
        } else {
            0x80int
        })
}

proof fn lemma_associations(s: Seq<u8>, p: int, a: Seq<(u32, bool)>, wide: bool)
    requires
        occurs_at(s, flat(a, assoc_bytes(wide)), p),
        forall|i: int|
            0 <= i < a.len() ==> (#[trigger] a[i]).0 < (if wide {
                0x8000int
            } else {
                0x80int
            }),
    ensures
        flat(a, assoc_bytes(wide)).len() == assocs_len(a.len() as int, wide),
        forall|i: int| 0 <= i < a.len() ==> assoc_at(s, p, i, wide) == #[trigger] a[i],
    decreases a.len(),
{
    if a.len() > 0 {
        let rest = a.drop_first();
        let n: int = if wide {
            2
        } else {
            1
        };
        let one = assoc_bytes(wide)(a[0]);
        lemma_flat_first(a, assoc_bytes(wide));
        lemma_parts(s, one, flat(rest, assoc_bytes(wide)), p);
        if wide {
            let v: int = if a[0].1 {
                0x8000 + a[0].0 as int % 0x8000
            } else {
                a[0].0 as int
            };
            integers_of_16_bits_read_back(s, p, v);
        } else {
            lemma_byte(s, one, p, 0);
        }
        assert(assoc_at(s, p, 0, wide) == a[0]);
        assert forall|i: int| 0 <= i < rest.len() implies (#[trigger] rest[i]).0 < (if wide {
            0x8000int
        } else {
            0x80int
        }) by {
            assert(rest[i] == a[i + 1]);
        }
        lemma_associations(s, p + n, rest, wide);
        assert forall|i: int| 0 <= i < a.len() implies assoc_at(s, p, i, wide)
            == #[trigger] a[i] by {
            if i > 0 {
                assert(rest[i - 1] == a[i]);
                assert(assoc_at(s, p + n, i - 1, wide) == assoc_at(s, p, i, wide));
            }
        }
    }
}

/// The entries of an ipma box.
pub open spec fn association_bytes(flags: int) -> spec_fn(IpmaView) -> Seq<u8> {
    |e: IpmaView| ipma_entry_bytes(e.item_id as int, e.associations, flags)
}

proof fn lemma_association_entry(s: Seq<u8>, p: int, e: IpmaView, flags: int)
    requires
        associations_fit(e, flags % 2 == 1),
        occurs_at(s, association_bytes(flags)(e), p),
    ensures
        ipma_entry_at(s, p, flags % 2 == 1) == Some((e, p + association_bytes(flags)(e).len())),
{
    let wide = flags % 2 == 1;
    let a = id_bytes(e.item_id as int, wide);
    let b = seq![(e.associations.len() % 0x100) as u8];
    let c = flat(e.associations, assoc_bytes(wide));
    lemma_parts(s, a + b, c, p);
    lemma_parts(s, a, b, p);
    lemma_id(s, p, e.item_id, wide);
    lemma_byte(s, b, p + a.len(), 0);
    let q = p + id_len(wide) + 1;
    lemma_associations(s, q, e.associations, wide);
    let read = Seq::new(e.associations.len(), |k: int| assoc_at(s, q, k, wide));
    assert(read =~= e.associations);
}

pub proof fn lemma_association_entries(
    s: Seq<u8>,
    p: int,
    entries: Seq<IpmaView>,
    flags: int,
    acc: Seq<IpmaView>,
)
    requires
        forall|i: int|
            0 <= i < entries.len() ==> associations_fit(#[trigger] entries[i], flags % 2 == 1),
        occurs_at(s, flat(entries, association_bytes(flags)), p),
    ensures
        ipma_entries_at(s, p, entries.len() as int, flags % 2 == 1, acc) == Some(acc + entries),
    decreases entries.len(),
{
    if entries.len() == 0 {
        assert(acc + entries =~= acc);
    } else {
        let rest = entries.drop_first();
        let one = association_bytes(flags)(entries[0]);
        lemma_flat_first(entries, association_bytes(flags));
        lemma_parts(s, one, flat(rest, association_bytes(flags)), p);
        lemma_association_entry(s, p, entries[0], flags);
        assert forall|i: int| 0 <= i < rest.len() implies associations_fit(
            #[trigger] rest[i],
            flags % 2 == 1,
        ) by {
            assert(rest[i] == entries[i + 1]);
        }
        lemma_association_entries(s, p + one.len(), rest, flags, acc.push(entries[0]));
        assert(acc.push(entries[0]) + rest =~= acc + entries);
    }
}

/// Associations that fit their fields are read back as they were written, each with its
/// property number and its essential mark.
#[verifier::rlimit(60)]
pub proof fn associations_read_back(s: Seq<u8>, p: int, flags: u32, entries: Seq<IpmaView>)
    requires
        flags < 0x100_0000,
        entries.len() <= u32::MAX,
        forall|i: int|
            0 <= i < entries.len() ==> associations_fit(#[trigger] entries[i], flags % 2 == 1),
        occurs_at(
            s,
            enc32(flags as int) + enc32(entries.len() as int) + flat(
                entries,
                association_bytes(flags as int),
            ),
            p,
        ),
    ensures
        ipma_at(s, p) == Some((flags, entries)),
{
    let a = enc32(flags as int);
    let b = enc32(entries.len() as int);
    lemma_parts(s, a + b, flat(entries, association_bytes(flags as int)), p);
    lemma_parts(s, a, b, p);
    integers_of_32_bits_read_back(s, p, flags as int);
    integers_of_32_bits_read_back(s, p + 4, entries.len() as int);
    lemma_association_entries(s, p + 8, entries, flags as int, Seq::empty());
    assert(Seq::<IpmaView>::empty() + entries =~= entries);
}

} // verus!
