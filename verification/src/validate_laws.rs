use crate::bytes::{be16, be32};
use crate::fourcc::{FTYP, IDAT, ISPE, MDAT, META};
use crate::iso_validate::{
    GraphView, HvcCProfile, StructureView, assoc_fault, assoc_numbers, assoc_typed, channel_fault,
    checked_payload, derived_from, extent_payload, first_repeat, gain_depths, gain_graph, gain_grid,
    gain_map_structure, hvcc_profile, idat_range, iloc_fault, iloc_numbers, integrity_fault,
    ipma_fault, ipma_numbers, item_numbered, item_numbers, lemma_no_repeat, payload_from,
    profile_depths, prop_numbered, prop_numbers, property_payload, refs_fault, shared_profile,
    sole_box, sole_property, stated_depths, stated_grid, stated_size, structure_of, target_fault,
};
use crate::isobmff::{
    BoxView, IlocView, IrefView, MetaView, PropertyView, box_at, box_within, boxes_in, full_head,
    ipma_for, is_ispe, lemma_boxes_within, of_type, source_meta,
};
use crate::items::{iloc_for, item_typed};
use crate::seqs::{first_where, lemma_first_where_at, lemma_first_where_has};
use vstd::prelude::*;

verus! {

// ---------------------------------------------------------------------------
// What a valid gain map is made of
// ---------------------------------------------------------------------------

/// The tone-map item at place `i` is the only one.
pub open spec fn only_tone_map(m: MetaView, i: int) -> bool {
    &&& 0 <= i < m.items.len()
    &&& m.items[i].itype == "tmap"@
    &&& forall|j: int| 0 <= j < m.items.len() && j != i ==> (#[trigger] m.items[j]).itype != "tmap"@
}

/// The reference at place `r` is the only one that derives an image from `from`.
pub open spec fn only_derivation(m: MetaView, from: u32, r: int) -> bool {
    &&& 0 <= r < m.refs.len()
    &&& m.refs[r].rtype == "dimg"@ && m.refs[r].from == from
    &&& forall|j: int|
        0 <= j < m.refs.len() && j != r ==> !((#[trigger] m.refs[j]).rtype == "dimg"@
            && m.refs[j].from == from)
}

/// The item at place `i` is the first with the number `id`.
pub open spec fn item_stands(m: MetaView, id: u32, i: int) -> bool {
    &&& 0 <= i < m.items.len()
    &&& m.items[i].item_id == id
    &&& forall|j: int| 0 <= j < i ==> (#[trigger] m.items[j]).item_id != id
}

/// An item is there and has the type.
pub open spec fn item_has_type(m: MetaView, id: u32, itype: Seq<char>) -> bool {
    exists|i: int| #[trigger] item_stands(m, id, i) && m.items[i].itype == itype
}

/// The location entry at place `i` is the first for the item `id`.
pub open spec fn location_stands(m: MetaView, id: u32, i: int) -> bool {
    &&& 0 <= i < m.iloc_entries.len()
    &&& m.iloc_entries[i].item_id == id
    &&& forall|j: int| 0 <= j < i ==> (#[trigger] m.iloc_entries[j]).item_id != id
}

/// The associations at place `i` are the first for the item `id`.
pub open spec fn associations_stand(m: MetaView, id: u32, i: int) -> bool {
    &&& 0 <= i < m.ipma_entries.len()
    &&& m.ipma_entries[i].item_id == id
    &&& forall|j: int| 0 <= j < i ==> (#[trigger] m.ipma_entries[j]).item_id != id
}

/// The property at place `k` is the first with the number `index`.
pub open spec fn property_stands(m: MetaView, index: u32, k: int) -> bool {
    &&& 0 <= k < m.props.len()
    &&& m.props[k].index == index
    &&& forall|j: int| 0 <= j < k ==> (#[trigger] m.props[j]).index != index
}

/// The property number `index` leads to a property of the type.
pub open spec fn leads_to(m: MetaView, index: u32, ptype: Seq<char>) -> bool {
    exists|k: int| #[trigger] property_stands(m, index, k) && m.props[k].ptype == ptype
}

/// The association `a` of the entry `e` is the only one that leads to a property of
/// the type.
pub open spec fn only_association(m: MetaView, e: int, a: int, ptype: Seq<char>) -> bool {
    let list = m.ipma_entries[e].associations;
    &&& 0 <= a < list.len()
    &&& leads_to(m, list[a].0, ptype)
    &&& forall|b: int|
        0 <= b < list.len() && b != a ==> !leads_to(m, (#[trigger] list[b]).0, ptype)
}

/// The property at place `k` is the only one of the type that the item has.
pub open spec fn has_property(m: MetaView, id: u32, ptype: Seq<char>, k: int) -> bool {
    exists|e: int, a: int| #[trigger]
        associations_stand(m, id, e) && #[trigger] only_association(m, e, a, ptype)
            && property_stands(m, m.ipma_entries[e].associations[a].0, k)
}

/// Where the payload of a box begins that begins with `raw`.
pub open spec fn payload_place(raw: Seq<u8>) -> int {
    if be32(raw, 0) == 1 {
        16
    } else {
        8
    }
}

/// A box that states its length in its first four bytes.
pub open spec fn whole_box(raw: Seq<u8>) -> bool {
    raw.len() >= 8 && be32(raw, 0) == raw.len()
}

/// A size property that states a width and a height.
pub open spec fn size_says(raw: Seq<u8>, width: int, height: int) -> bool {
    &&& raw.len() >= 20
    &&& raw[4] == 0x69 && raw[5] == 0x73 && raw[6] == 0x70 && raw[7] == 0x65
    &&& width == be32(raw, 12) && height == be32(raw, 16)
}

/// A pixel property of a number of channels.
pub open spec fn pixels_say(raw: Seq<u8>, channels: int) -> bool {
    let h = payload_place(raw);
    &&& raw.len() >= h + 5 + channels
    &&& raw[h] == 0 && raw[h + 1] == 0 && raw[h + 2] == 0 && raw[h + 3] == 0
    &&& raw[h + 4] == channels
    &&& channels > 0
    &&& whole_box(raw) ==> raw.len() == h + 5 + channels
}

/// A decoder configuration that says what the structure says.
pub open spec fn configuration_says(raw: Seq<u8>, v: StructureView) -> bool {
    let h = payload_place(raw);
    &&& raw.len() >= h + 23
    &&& raw[h] == 1
    &&& v.general_profile_idc == raw[h + 1] % 32
    &&& v.chroma_format_idc == raw[h + 16] % 4
    &&& v.luma_bit_depth == 8 + raw[h + 17] % 8
    &&& v.chroma_bit_depth == 8 + raw[h + 18] % 8
}

/// The bytes of extents that count from `base`, one after the other.
pub open spec fn joined(s: Seq<u8>, base: int, extents: Seq<(u64, u64)>) -> Seq<u8>
    decreases extents.len(),
{
    if extents.len() == 0 {
        Seq::empty()
    } else {
        joined(s, base, extents.drop_last()) + s.subrange(
            base + extents.last().0,
            base + extents.last().0 + extents.last().1,
        )
    }
}

/// The extents of an entry count from `base`, in the file or in the item data box,
/// and end there.
pub open spec fn stored_from(s: Seq<u8>, idat: Option<(int, int)>, e: IlocView, base: int) -> bool {
    &&& e.data_reference_index == 0
    &&& e.construction_method == 0 && base == 0 || e.construction_method == 1 && idat is Some
        && base == (idat->0).0
    &&& forall|k: int|
        0 <= k < e.extents.len() ==> base + (#[trigger] e.extents[k]).0 + e.extents[k].1 <= (
        if e.construction_method == 0 {
            s.len() as int
        } else {
            (idat->0).1
        })
}

/// A grid payload that says rows, columns, width and height.
pub open spec fn grid_says(p: Seq<u8>, v: StructureView) -> bool {
    &&& p[0] == 0
    &&& v.rows == p[2] + 1 && v.columns == p[3] + 1
    &&& v.width > 0 && v.height > 0
    &&& p.len() == 8 && p[1] == 0 && v.width == be16(p, 4) && v.height == be16(p, 6) || p.len() == 12
        && p[1] == 1 && v.width == be32(p, 4) && v.height == be32(p, 8)
}

/// The tone map is made of the primary image and the gain map, which is a grid of
/// distinct tiles.
pub open spec fn shows_graph(m: MetaView, v: StructureView) -> bool {
    &&& v.primary_item_id == m.primary_id
    &&& exists|i: int| #[trigger] only_tone_map(m, i) && m.items[i].item_id == v.tmap_item_id
    &&& exists|r: int| #[trigger]
        only_derivation(m, v.tmap_item_id, r) && m.refs[r].to == seq![m.primary_id, v.gain_map_item_id]
    &&& item_has_type(m, v.gain_map_item_id, "grid"@)
    &&& exists|r: int| #[trigger]
        only_derivation(m, v.gain_map_item_id, r) && m.refs[r].to == v.tile_item_ids
    &&& v.tile_item_ids.len() > 0
    &&& v.tile_item_ids.no_duplicates()
}

/// The entry `e` of the gain map holds a grid payload.
pub open spec fn holds_grid(
    s: Seq<u8>,
    m: MetaView,
    idat: Option<(int, int)>,
    v: StructureView,
    e: int,
    base: int,
) -> bool {
    &&& location_stands(m, v.gain_map_item_id, e)
    &&& stored_from(s, idat, m.iloc_entries[e], base)
    &&& grid_says(joined(s, base, m.iloc_entries[e].extents), v)
}

/// The grid has a place for each tile, and its size is that of the gain map.
pub open spec fn shows_grid(s: Seq<u8>, m: MetaView, idat: Option<(int, int)>, v: StructureView) -> bool {
    &&& exists|e: int, base: int| #[trigger] holds_grid(s, m, idat, v, e, base)
    &&& v.rows * v.columns == v.tile_item_ids.len()
    &&& exists|k: int| #[trigger]
        has_property(m, v.gain_map_item_id, "ispe"@, k) && size_says(
            m.props[k].raw,
            v.width as int,
            v.height as int,
        )
}

/// The gain map has one channel, or three where its stream has chroma, and the bit
/// depths of the channels are those of the stream. The tone map has a size and
/// channels too.
pub open spec fn shows_channels(m: MetaView, v: StructureView) -> bool {
    &&& exists|k: int| #[trigger]
        has_property(m, v.gain_map_item_id, "pixi"@, k) && depths_say(m.props[k].raw, v)
    &&& v.channel_count == 1 && v.chroma_format_idc < 2 || v.channel_count == 3
        && v.chroma_format_idc > 0
    &&& exists|k: int, w: int, h: int| #[trigger]
        has_property(m, v.tmap_item_id, "ispe"@, k) && #[trigger] size_says(m.props[k].raw, w, h)
    &&& exists|k: int, n: int| #[trigger]
        has_property(m, v.tmap_item_id, "pixi"@, k) && #[trigger] pixels_say(m.props[k].raw, n)
}

/// A pixel property with the channels of the structure, at its bit depths.
pub open spec fn depths_say(raw: Seq<u8>, v: StructureView) -> bool {
    let h = payload_place(raw);
    &&& pixels_say(raw, v.channel_count as int)
    &&& raw[h + 5] == v.luma_bit_depth
    &&& v.channel_count == 3 ==> raw[h + 6] == v.chroma_bit_depth && raw[h + 7] == v.chroma_bit_depth
}

/// A tile is an HEVC image with a place, a size and the shared decoder configuration.
pub open spec fn shows_tile(m: MetaView, v: StructureView, id: u32) -> bool {
    &&& item_has_type(m, id, "hvc1"@)
    &&& exists|e: int| #[trigger] location_stands(m, id, e)
    &&& exists|k: int, w: int, h: int| #[trigger]
        has_property(m, id, "ispe"@, k) && #[trigger] size_says(m.props[k].raw, w, h)
    &&& exists|k: int| #[trigger]
        has_property(m, id, "hvcC"@, k) && configuration_says(m.props[k].raw, v)
}

/// The metadata shows the structure of a tiled gain map.
pub open spec fn shows_gain_map(s: Seq<u8>, m: MetaView, idat: Option<(int, int)>, v: StructureView) -> bool {
    &&& shows_graph(m, v)
    &&& shows_grid(s, m, idat, v)
    &&& shows_channels(m, v)
    &&& forall|t: int| 0 <= t < v.tile_item_ids.len() ==> shows_tile(m, v, #[trigger] v.tile_item_ids[t])
}

// ---------------------------------------------------------------------------
// Picking and finding
// ---------------------------------------------------------------------------

proof fn lemma_none_picked<T>(s: Seq<T>, p: spec_fn(T) -> bool)
    ensures
        s.filter(p).len() == 0 <==> forall|j: int| 0 <= j < s.len() ==> !p(#[trigger] s[j]),
    decreases s.len(),
{
    reveal(Seq::filter);
    if s.len() > 0 {
        let t = s.drop_last();
        lemma_none_picked(t, p);
        assert(forall|j: int| 0 <= j < t.len() ==> t[j] == #[trigger] s[j]);
        assert(s[s.len() - 1] == s.last());
        if forall|j: int| 0 <= j < s.len() ==> !p(#[trigger] s[j]) {
            assert forall|j: int| 0 <= j < t.len() implies !p(#[trigger] t[j]) by {
                assert(t[j] == s[j]);
            }
        }
        if s.filter(p).len() == 0 {
            assert forall|j: int| 0 <= j < s.len() implies !p(#[trigger] s[j]) by {
                if j < t.len() {
                    assert(!p(t[j]));
                }
            }
        }
    }
}

proof fn lemma_one_picked<T>(s: Seq<T>, p: spec_fn(T) -> bool, i: int)
    requires
        0 <= i < s.len(),
        p(s[i]),
        forall|j: int| 0 <= j < s.len() && j != i ==> !p(#[trigger] s[j]),
    ensures
        s.filter(p) =~= seq![s[i]],
    decreases s.len(),
{
    reveal(Seq::filter);
    let t = s.drop_last();
    assert(forall|j: int| 0 <= j < t.len() ==> t[j] == #[trigger] s[j]);
    if i == s.len() - 1 {
        assert forall|j: int| 0 <= j < t.len() implies !p(#[trigger] t[j]) by {
            assert(t[j] == s[j]);
        }
        lemma_none_picked(t, p);
    } else {
        assert forall|j: int| 0 <= j < t.len() && j != i implies !p(#[trigger] t[j]) by {
            assert(t[j] == s[j]);
        }
        lemma_one_picked(t, p, i);
        assert(!p(s[s.len() - 1]));
    }
}

proof fn lemma_picked_one<T>(s: Seq<T>, p: spec_fn(T) -> bool) -> (i: int)
    requires
        s.filter(p).len() == 1,
    ensures
        0 <= i < s.len(),
        p(s[i]),
        s.filter(p)[0] == s[i],
        forall|j: int| 0 <= j < s.len() && j != i ==> !p(#[trigger] s[j]),
    decreases s.len(),
{
    reveal(Seq::filter);
    let t = s.drop_last();
    assert(s.len() > 0);
    assert(forall|j: int| 0 <= j < t.len() ==> t[j] == #[trigger] s[j]);
    if p(s.last()) {
        lemma_none_picked(t, p);
        assert forall|j: int| 0 <= j < s.len() && j != s.len() - 1 implies !p(#[trigger] s[j]) by {
            assert(!p(t[j]));
        }
        s.len() - 1
    } else {
        let i = lemma_picked_one(t, p);
        assert forall|j: int| 0 <= j < s.len() && j != i implies !p(#[trigger] s[j]) by {
            if j < t.len() {
                assert(!p(t[j]));
            }
        }
        i
    }
}

/// The first element with a property stands behind others without it.
proof fn lemma_first_place<T>(s: Seq<T>, p: spec_fn(T) -> bool) -> (i: int)
    requires
        first_where(s, p) is Some,
    ensures
        0 <= i < s.len(),
        p(s[i]),
        first_where(s, p) == Some(s[i]),
        forall|j: int| 0 <= j < i ==> !p(#[trigger] s[j]),
    decreases s.len(),
{
    if p(s[0]) {
        0
    } else {
        let t = s.drop_first();
        let i = lemma_first_place(t, p);
        assert forall|j: int| 0 <= j < i + 1 implies !p(#[trigger] s[j]) by {
            if j > 0 {
                assert(!p(t[j - 1]));
            }
        }
        i + 1
    }
}

proof fn lemma_item(m: MetaView, id: u32, itype: Seq<char>)
    ensures
        item_has_type(m, id, itype) <==> (first_where(m.items, item_numbered(id)) is Some
            && first_where(m.items, item_numbered(id))->0.itype == itype),
{
    let p = item_numbered(id);
    if first_where(m.items, p) is Some {
        let i = lemma_first_place(m.items, p);
        assert forall|j: int| 0 <= j < i implies (#[trigger] m.items[j]).item_id != id by {
            assert(!p(m.items[j]));
        }
        assert(item_stands(m, id, i));
    }
    if item_has_type(m, id, itype) {
        let i = choose|i: int| #[trigger] item_stands(m, id, i) && m.items[i].itype == itype;
        lemma_first_where_at(m.items, p, i);
    }
}

proof fn lemma_location(m: MetaView, id: u32, e: int)
    requires
        location_stands(m, id, e),
    ensures
        first_where(m.iloc_entries, iloc_for(id)) == Some(m.iloc_entries[e]),
{
    lemma_first_where_at(m.iloc_entries, iloc_for(id), e);
}

proof fn lemma_located(m: MetaView, id: u32) -> (e: int)
    requires
        first_where(m.iloc_entries, iloc_for(id)) is Some,
    ensures
        location_stands(m, id, e),
        first_where(m.iloc_entries, iloc_for(id)) == Some(m.iloc_entries[e]),
{
    let p = iloc_for(id);
    let e = lemma_first_place(m.iloc_entries, p);
    assert forall|j: int| 0 <= j < e implies (#[trigger] m.iloc_entries[j]).item_id != id by {
        assert(!p(m.iloc_entries[j]));
    }
    e
}

proof fn lemma_leads(m: MetaView, a: (u32, bool), ptype: Seq<char>)
    ensures
        assoc_typed(m.props, ptype)(a) <==> leads_to(m, a.0, ptype),
        forall|k: int| #[trigger]
            property_stands(m, a.0, k) ==> first_where(m.props, prop_numbered(a.0)) == Some(m.props[k]),
        leads_to(m, a.0, ptype) ==> first_where(m.props, prop_numbered(a.0)) is Some,
{
    let p = prop_numbered(a.0);
    assert forall|k: int| #[trigger] property_stands(m, a.0, k) implies first_where(m.props, p)
        == Some(m.props[k]) by {
        lemma_first_where_at(m.props, p, k);
    }
    if first_where(m.props, p) is Some {
        let k = lemma_first_place(m.props, p);
        assert forall|j: int| 0 <= j < k implies (#[trigger] m.props[j]).index != a.0 by {
            assert(!p(m.props[j]));
        }
        assert(property_stands(m, a.0, k));
    }
}

proof fn lemma_has(m: MetaView, id: u32, ptype: Seq<char>, k: int)
    requires
        has_property(m, id, ptype, k),
    ensures
        sole_property(m, id, ptype) == Ok::<PropertyView, Seq<char>>(m.props[k]),
        0 <= k < m.props.len(),
{
    let (e, a) = choose|e: int, a: int| #[trigger]
        associations_stand(m, id, e) && #[trigger] only_association(m, e, a, ptype)
            && property_stands(m, m.ipma_entries[e].associations[a].0, k);
    let list = m.ipma_entries[e].associations;
    lemma_first_where_at(m.ipma_entries, ipma_for(id), e);
    let p = assoc_typed(m.props, ptype);
    lemma_leads(m, list[a], ptype);
    assert forall|b: int| 0 <= b < list.len() && b != a implies !p(#[trigger] list[b]) by {
        lemma_leads(m, list[b], ptype);
    }
    lemma_one_picked(list, p, a);
}

proof fn lemma_has_one(m: MetaView, id: u32, ptype: Seq<char>) -> (k: int)
    requires
        sole_property(m, id, ptype) is Ok,
    ensures
        has_property(m, id, ptype, k),
        sole_property(m, id, ptype) == Ok::<PropertyView, Seq<char>>(m.props[k]),
        0 <= k < m.props.len(),
{
    let q = ipma_for(id);
    let e = lemma_first_place(m.ipma_entries, q);
    assert forall|j: int| 0 <= j < e implies (#[trigger] m.ipma_entries[j]).item_id != id by {
        assert(!q(m.ipma_entries[j]));
    }
    assert(associations_stand(m, id, e));
    let list = m.ipma_entries[e].associations;
    let p = assoc_typed(m.props, ptype);
    let a = lemma_picked_one(list, p);
    lemma_leads(m, list[a], ptype);
    assert forall|b: int| 0 <= b < list.len() && b != a implies !leads_to(
        m,
        (#[trigger] list[b]).0,
        ptype,
    ) by {
        assert(!p(list[b]));
        lemma_leads(m, list[b], ptype);
    }
    assert(only_association(m, e, a, ptype));
    let k = choose|k: int| #[trigger]
        property_stands(m, list[a].0, k) && m.props[k].ptype == ptype;
    assert(property_stands(m, list[a].0, k));
    k
}

// ---------------------------------------------------------------------------
// The parts of a structure
// ---------------------------------------------------------------------------

proof fn lemma_distinct(ids: Seq<u32>, i: int)
    requires
        0 <= i,
        ids.no_duplicates(),
    ensures
        first_repeat(ids, i) is None,
    decreases ids.len() - i,
{
    if i < ids.len() {
        assert(!ids.take(i).contains(ids[i]));
        lemma_distinct(ids, i + 1);
    }
}

proof fn lemma_graph_shown(m: MetaView, v: StructureView)
    requires
        gain_graph(m) == Ok::<GraphView, Seq<char>>(
            GraphView { tmap: v.tmap_item_id, gain: v.gain_map_item_id, tiles: v.tile_item_ids },
        ),
        v.primary_item_id == m.primary_id,
    ensures
        shows_graph(m, v),
{
    let i = lemma_picked_one(m.items, item_typed("tmap"@));
    assert forall|j: int| 0 <= j < m.items.len() && j != i implies (#[trigger] m.items[j]).itype
        != "tmap"@ by {
        assert(!item_typed("tmap"@)(m.items[j]));
    }
    assert(only_tone_map(m, i) && m.items[i].item_id == v.tmap_item_id);
    let q = derived_from(v.tmap_item_id);
    let r = lemma_picked_one(m.refs, q);
    assert forall|j: int| 0 <= j < m.refs.len() && j != r implies !((#[trigger] m.refs[j]).rtype
        == "dimg"@ && m.refs[j].from == v.tmap_item_id) by {
        assert(!q(m.refs[j]));
    }
    assert(only_derivation(m, v.tmap_item_id, r));
    assert(m.refs[r].to =~= seq![m.primary_id, v.gain_map_item_id]);
    lemma_item(m, v.gain_map_item_id, "grid"@);
    let q2 = derived_from(v.gain_map_item_id);
    let r2 = lemma_picked_one(m.refs, q2);
    assert forall|j: int| 0 <= j < m.refs.len() && j != r2 implies !((#[trigger] m.refs[j]).rtype
        == "dimg"@ && m.refs[j].from == v.gain_map_item_id) by {
        assert(!q2(m.refs[j]));
    }
    assert(only_derivation(m, v.gain_map_item_id, r2));
    lemma_no_repeat(v.tile_item_ids, 0);
}

proof fn lemma_shown_graph(m: MetaView, v: StructureView)
    requires
        shows_graph(m, v),
    ensures
        gain_graph(m) == Ok::<GraphView, Seq<char>>(
            GraphView { tmap: v.tmap_item_id, gain: v.gain_map_item_id, tiles: v.tile_item_ids },
        ),
{
    let i = choose|i: int| #[trigger] only_tone_map(m, i) && m.items[i].item_id == v.tmap_item_id;
    lemma_one_picked(m.items, item_typed("tmap"@), i);
    let r = choose|r: int| #[trigger]
        only_derivation(m, v.tmap_item_id, r) && m.refs[r].to == seq![
            m.primary_id,
            v.gain_map_item_id,
        ];
    lemma_one_picked(m.refs, derived_from(v.tmap_item_id), r);
    lemma_item(m, v.gain_map_item_id, "grid"@);
    let r2 = choose|r: int| #[trigger]
        only_derivation(m, v.gain_map_item_id, r) && m.refs[r].to == v.tile_item_ids;
    lemma_one_picked(m.refs, derived_from(v.gain_map_item_id), r2);
    lemma_distinct(v.tile_item_ids, 0);
}

/// The payload of a property stands behind its head.
proof fn lemma_behind_head(raw: Seq<u8>)
    ensures
        property_payload(raw) matches Ok(p) ==> {
            &&& p.len() <= raw.len() - payload_place(raw)
            &&& forall|i: int| 0 <= i < p.len() ==> #[trigger] p[i] == raw[payload_place(raw) + i]
            &&& whole_box(raw) ==> p.len() == raw.len() - 8
        },
        whole_box(raw) ==> property_payload(raw) is Ok && payload_place(raw) == 8,
{
    let n = raw.len() as int;
    if whole_box(raw) {
        assert(boxes_in(raw, n, n).len() == 0);
        assert(boxes_in(raw, 0, n).len() == 1);
    }
    if property_payload(raw) is Ok {
        assert(box_at(raw, 0, n) is Some);
        assert(boxes_in(raw, 0, n)[0] == box_at(raw, 0, n)->0);
    }
}

proof fn lemma_ispe_name(raw: Seq<u8>)
    requires
        raw.len() >= 20,
    ensures
        is_ispe(raw) <==> raw[4] == 0x69 && raw[5] == 0x73 && raw[6] == 0x70 && raw[7] == 0x65,
{
    if raw[4] == 0x69 && raw[5] == 0x73 && raw[6] == 0x70 && raw[7] == 0x65 {
        assert(raw.subrange(4, 8) =~= ISPE@);
    }
    if is_ispe(raw) {
        assert(raw.subrange(4, 8) == ISPE@);
        assert(raw[4] == raw.subrange(4, 8)[0]);
        assert(raw[5] == raw.subrange(4, 8)[1]);
        assert(raw[6] == raw.subrange(4, 8)[2]);
        assert(raw[7] == raw.subrange(4, 8)[3]);
    }
}

/// A stated size is the one that the property says, and plain properties state it.
proof fn lemma_size(raw: Seq<u8>)
    ensures
        stated_size(raw) matches Ok(d) ==> size_says(raw, d.0 as int, d.1 as int),
        forall|w: int, h: int| #[trigger]
            size_says(raw, w, h) && whole_box(raw) ==> stated_size(raw) == Ok::<(u32, u32), Seq<char>>(
                (w as u32, h as u32),
            ) && 0 <= w <= u32::MAX && 0 <= h <= u32::MAX,
{
    lemma_behind_head(raw);
    if raw.len() >= 20 {
        lemma_ispe_name(raw);
    }
}

proof fn lemma_pixels(raw: Seq<u8>)
    ensures
        stated_depths(raw) matches Ok(d) ==> pixels_say(raw, d.len() as int) && forall|i: int|
            0 <= i < d.len() ==> #[trigger] d[i] == raw[payload_place(raw) + 5 + i],
        forall|n: int| #[trigger]
            pixels_say(raw, n) && whole_box(raw) ==> stated_depths(raw) == Ok::<Seq<u8>, Seq<char>>(
                raw.subrange(13, 13 + n),
            ),
{
    lemma_behind_head(raw);
    if property_payload(raw) is Ok {
        let p = property_payload(raw)->Ok_0;
        let h = payload_place(raw);
        if p.len() >= 5 {
            if p.take(4) == full_head(0) {
                assert(p[0] == p.take(4)[0] && p[1] == p.take(4)[1] && p[2] == p.take(4)[2] && p[3]
                    == p.take(4)[3]);
            }
            assert(p[0] == raw[h + 0] && p[1] == raw[h + 1] && p[2] == raw[h + 2] && p[3] == raw[h + 3]
                && p[4] == raw[h + 4]);
            if p[0] == 0 && p[1] == 0 && p[2] == 0 && p[3] == 0 {
                assert(p.take(4) =~= full_head(0));
            }
        }
        assert forall|n: int| #[trigger] pixels_say(raw, n) && whole_box(raw) implies stated_depths(raw)
            == Ok::<Seq<u8>, Seq<char>>(raw.subrange(13, 13 + n)) by {
            assert(p.skip(5) =~= raw.subrange(13, 13 + n));
        }
    }
}

proof fn lemma_configuration(raw: Seq<u8>, v: StructureView)
    ensures
        (property_payload(raw) is Ok && hvcc_profile(property_payload(raw)->Ok_0) == Ok::<
            HvcCProfile,
            Seq<char>,
        >(profile_of(v))) ==> configuration_says(raw, v),
        configuration_says(raw, v) && whole_box(raw) ==> property_payload(raw) is Ok && hvcc_profile(
            property_payload(raw)->Ok_0,
        ) == Ok::<HvcCProfile, Seq<char>>(profile_of(v)),
{
    lemma_behind_head(raw);
    if property_payload(raw) is Ok {
        let p = property_payload(raw)->Ok_0;
        let h = payload_place(raw);
        if p.len() >= 23 {
            assert(p[0] == raw[h + 0] && p[1] == raw[h + 1] && p[16] == raw[h + 16] && p[17] == raw[h + 17]
                && p[18] == raw[h + 18]);
        }
    }
}

/// The profile that a structure states.
pub open spec fn profile_of(v: StructureView) -> HvcCProfile {
    HvcCProfile {
        general_profile_idc: v.general_profile_idc,
        chroma_format_idc: v.chroma_format_idc,
        luma_bit_depth: v.luma_bit_depth,
        chroma_bit_depth: v.chroma_bit_depth,
    }
}

/// The checked bytes of an entry are its extents, one after the other.
proof fn lemma_joined(s: Seq<u8>, idat: Option<(int, int)>, e: IlocView, base: int, k: int, acc: Seq<u8>)
    requires
        0 <= k <= e.extents.len(),
        payload_from(s, idat, e, k, acc) matches Some(Ok(_)),
        e.construction_method == 0 && base == 0 || e.construction_method == 1 && idat is Some && base
            == (idat->0).0,
        acc == joined(s, base, e.extents.take(k)),
    ensures
        payload_from(s, idat, e, k, acc) == Some(Ok::<Seq<u8>, Seq<char>>(joined(s, base, e.extents))),
        forall|j: int|
            k <= j < e.extents.len() ==> base + (#[trigger] e.extents[j]).0 + e.extents[j].1 <= (
            if e.construction_method == 0 {
                s.len() as int
            } else {
                (idat->0).1
            }),
    decreases e.extents.len() - k,
{
    if k < e.extents.len() {
        let b = extent_payload(s, idat, e, k)->0->Ok_0;
        assert(e.extents.take(k + 1).drop_last() =~= e.extents.take(k));
        lemma_joined(s, idat, e, base, k + 1, acc + b);
    } else {
        assert(e.extents.take(k) =~= e.extents);
    }
}

/// Entries that lie in their storage give their bytes.
proof fn lemma_given(s: Seq<u8>, idat: Option<(int, int)>, e: IlocView, base: int, k: int, acc: Seq<u8>)
    requires
        0 <= k <= e.extents.len(),
        stored_from(s, idat, e, base),
        s.len() <= usize::MAX,
        idat matches Some(x) ==> 0 <= x.0 <= x.1 <= s.len(),
        acc == joined(s, base, e.extents.take(k)),
    ensures
        payload_from(s, idat, e, k, acc) == Some(Ok::<Seq<u8>, Seq<char>>(joined(s, base, e.extents))),
    decreases e.extents.len() - k,
{
    if k < e.extents.len() {
        assert(base + e.extents[k].0 + e.extents[k].1 <= s.len());
        let b = extent_payload(s, idat, e, k)->0->Ok_0;
        assert(e.extents.take(k + 1).drop_last() =~= e.extents.take(k));
        lemma_given(s, idat, e, base, k + 1, acc + b);
    } else {
        assert(e.extents.take(k) =~= e.extents);
    }
}

/// The bytes of a checked entry.
proof fn lemma_stored(s: Seq<u8>, idat: Option<(int, int)>, e: IlocView) -> (base: int)
    requires
        checked_payload(s, idat, e) matches Some(Ok(_)),
        e.extents.len() > 0,
    ensures
        stored_from(s, idat, e, base),
        checked_payload(s, idat, e) == Some(Ok::<Seq<u8>, Seq<char>>(joined(s, base, e.extents))),
{
    let base = if e.construction_method == 0 {
        0
    } else {
        (idat->0).0
    };
    assert(extent_payload(s, idat, e, 0) matches Some(Ok(_)));
    assert(e.extents.take(0) =~= Seq::empty());
    lemma_joined(s, idat, e, base, 0, Seq::empty());
    base
}

// ---------------------------------------------------------------------------
// The tiles
// ---------------------------------------------------------------------------

proof fn lemma_tile_shown(m: MetaView, v: StructureView, id: u32)
    requires
        crate::iso_validate::tile_profile(m, id) == Ok::<HvcCProfile, Seq<char>>(profile_of(v)),
    ensures
        shows_tile(m, v, id),
{
    lemma_item(m, id, "hvc1"@);
    let e = lemma_located(m, id);
    let k = lemma_has_one(m, id, "ispe"@);
    lemma_size(m.props[k].raw);
    let d = stated_size(m.props[k].raw)->Ok_0;
    assert(has_property(m, id, "ispe"@, k) && size_says(m.props[k].raw, d.0 as int, d.1 as int));
    let k2 = lemma_has_one(m, id, "hvcC"@);
    lemma_configuration(m.props[k2].raw, v);
    assert(has_property(m, id, "hvcC"@, k2) && configuration_says(m.props[k2].raw, v));
}

proof fn lemma_shown_tile(m: MetaView, v: StructureView, id: u32)
    requires
        shows_tile(m, v, id),
        forall|k: int| 0 <= k < m.props.len() ==> whole_box((#[trigger] m.props[k]).raw),
    ensures
        crate::iso_validate::tile_profile(m, id) == Ok::<HvcCProfile, Seq<char>>(profile_of(v)),
{
    lemma_item(m, id, "hvc1"@);
    let e = choose|e: int| #[trigger] location_stands(m, id, e);
    lemma_location(m, id, e);
    let (k, w, h) = choose|k: int, w: int, h: int| #[trigger]
        has_property(m, id, "ispe"@, k) && #[trigger] size_says(m.props[k].raw, w, h);
    lemma_has(m, id, "ispe"@, k);
    lemma_size(m.props[k].raw);
    let k2 = choose|k2: int| #[trigger]
        has_property(m, id, "hvcC"@, k2) && configuration_says(m.props[k2].raw, v);
    lemma_has(m, id, "hvcC"@, k2);
    lemma_configuration(m.props[k2].raw, v);
}

proof fn lemma_tiles_shown(m: MetaView, tiles: Seq<u32>, i: int, codec: Option<HvcCProfile>, p: HvcCProfile)
    requires
        0 <= i,
        shared_profile(m, tiles, i, codec) == Ok::<Option<HvcCProfile>, Seq<char>>(Some(p)),
    ensures
        codec matches Some(q) ==> q == p,
        forall|t: int|
            i <= t < tiles.len() ==> crate::iso_validate::tile_profile(m, #[trigger] tiles[t]) == Ok::<HvcCProfile, Seq<char>>(p),
    decreases tiles.len() - i,
{
    if i < tiles.len() {
        let q = crate::iso_validate::tile_profile(m, tiles[i])->Ok_0;
        lemma_tiles_shown(m, tiles, i + 1, Some(q), p);
    }
}

proof fn lemma_shown_tiles(m: MetaView, tiles: Seq<u32>, i: int, codec: Option<HvcCProfile>, p: HvcCProfile)
    requires
        0 <= i,
        codec is None ==> i < tiles.len(),
        codec matches Some(q) ==> q == p,
        forall|t: int|
            i <= t < tiles.len() ==> crate::iso_validate::tile_profile(m, #[trigger] tiles[t]) == Ok::<HvcCProfile, Seq<char>>(p),
    ensures
        shared_profile(m, tiles, i, codec) == Ok::<Option<HvcCProfile>, Seq<char>>(Some(p)),
    decreases tiles.len() - i,
{
    if i < tiles.len() {
        assert(crate::iso_validate::tile_profile(m, tiles[i]) == Ok::<HvcCProfile, Seq<char>>(p));
        lemma_shown_tiles(m, tiles, i + 1, Some(p), p);
    }
}

// ---------------------------------------------------------------------------
// Closed metadata
// ---------------------------------------------------------------------------

/// The metadata has an item of the number.
pub open spec fn known_item(m: MetaView, id: u32) -> bool {
    exists|i: int| 0 <= i < m.items.len() && (#[trigger] m.items[i]).item_id == id
}

/// The metadata has a property of the number.
pub open spec fn known_property(m: MetaView, index: u32) -> bool {
    exists|k: int| 0 <= k < m.props.len() && (#[trigger] m.props[k]).index == index
}

/// The numbers of items, properties and entries are distinct.
pub open spec fn distinct_metadata(m: MetaView) -> bool {
    &&& forall|a: int, b: int|
        0 <= a < b < m.items.len() ==> (#[trigger] m.items[a]).item_id != (#[trigger] m.items[b]).item_id
    &&& forall|a: int, b: int|
        0 <= a < b < m.props.len() ==> (#[trigger] m.props[a]).index != (#[trigger] m.props[b]).index
    &&& forall|a: int, b: int|
        0 <= a < b < m.iloc_entries.len() ==> (#[trigger] m.iloc_entries[a]).item_id != (
        #[trigger] m.iloc_entries[b]).item_id
    &&& forall|a: int, b: int|
        0 <= a < b < m.ipma_entries.len() ==> (#[trigger] m.ipma_entries[a]).item_id != (
        #[trigger] m.ipma_entries[b]).item_id
}

/// The bytes of an item lie in their storage.
pub open spec fn lies_in_storage(s: Seq<u8>, idat: Option<(int, int)>, e: IlocView) -> bool {
    e.data_reference_index == 0 && (e.extents.len() > 0 ==> exists|base: int|
        #[trigger] stored_from(s, idat, e, base))
}

/// The associations lead to properties, each to another one.
pub open spec fn associations_closed(m: MetaView, list: Seq<(u32, bool)>) -> bool {
    &&& forall|a: int|
        0 <= a < list.len() ==> (#[trigger] list[a]).0 != 0 && known_property(m, list[a].0)
    &&& forall|a: int, b: int|
        0 <= a < b < list.len() ==> (#[trigger] list[a]).0 != (#[trigger] list[b]).0
}

/// What the metadata names is there.
pub open spec fn closed_metadata(s: Seq<u8>, m: MetaView, idat: Option<(int, int)>) -> bool {
    &&& known_item(m, m.primary_id)
    &&& forall|i: int|
        0 <= i < m.iloc_entries.len() ==> known_item(m, (#[trigger] m.iloc_entries[i]).item_id)
            && lies_in_storage(s, idat, m.iloc_entries[i])
    &&& forall|i: int|
        0 <= i < m.ipma_entries.len() ==> known_item(m, (#[trigger] m.ipma_entries[i]).item_id)
            && associations_closed(m, m.ipma_entries[i].associations)
    &&& forall|i: int|
        0 <= i < m.refs.len() ==> known_item(m, (#[trigger] m.refs[i]).from) && forall|j: int|
            0 <= j < m.refs[i].to.len() ==> known_item(m, #[trigger] m.refs[i].to[j])
}

proof fn lemma_known(m: MetaView, id: u32)
    ensures
        item_numbers(m.items).contains(id) <==> known_item(m, id),
        prop_numbers(m.props).contains(id) <==> known_property(m, id),
{
    let a = item_numbers(m.items);
    if a.contains(id) {
        let i = choose|i: int| 0 <= i < a.len() && a[i] == id;
        assert(m.items[i].item_id == id);
    }
    if known_item(m, id) {
        let i = choose|i: int| 0 <= i < m.items.len() && (#[trigger] m.items[i]).item_id == id;
        assert(a[i] == id);
    }
    let b = prop_numbers(m.props);
    if b.contains(id) {
        let i = choose|i: int| 0 <= i < b.len() && b[i] == id;
        assert(m.props[i].index == id);
    }
    if known_property(m, id) {
        let i = choose|i: int| 0 <= i < m.props.len() && (#[trigger] m.props[i]).index == id;
        assert(b[i] == id);
    }
}

proof fn lemma_storage(s: Seq<u8>, idat: Option<(int, int)>, e: IlocView)
    requires
        s.len() <= usize::MAX,
        idat matches Some(x) ==> 0 <= x.0 <= x.1 <= s.len(),
    ensures
        lies_in_storage(s, idat, e) <==> checked_payload(s, idat, e) matches Some(Ok(_)),
{
    if e.extents.len() == 0 {
    } else if lies_in_storage(s, idat, e) {
        let base = choose|base: int| #[trigger] stored_from(s, idat, e, base);
        assert(e.extents.take(0) =~= Seq::empty());
        lemma_given(s, idat, e, base, 0, Seq::empty());
    } else if checked_payload(s, idat, e) matches Some(Ok(_)) {
        let base = lemma_stored(s, idat, e);
    }
}

/// Whether the location entries are without fault shows at each of them.
proof fn lemma_locations(s: Seq<u8>, m: MetaView, idat: Option<(int, int)>, i: int)
    requires
        0 <= i,
        s.len() <= usize::MAX,
        idat matches Some(x) ==> 0 <= x.0 <= x.1 <= s.len(),
    ensures
        iloc_fault(s, idat, item_numbers(m.items), m.iloc_entries, i) == Some(None::<Seq<char>>) <==> forall|
            k: int,
        |
            i <= k < m.iloc_entries.len() ==> known_item(m, (#[trigger] m.iloc_entries[k]).item_id)
                && lies_in_storage(s, idat, m.iloc_entries[k]) && !iloc_numbers(m.iloc_entries).take(
                k,
            ).contains(m.iloc_entries[k].item_id),
    decreases m.iloc_entries.len() - i,
{
    if i < m.iloc_entries.len() {
        lemma_locations(s, m, idat, i + 1);
        lemma_known(m, m.iloc_entries[i].item_id);
        lemma_storage(s, idat, m.iloc_entries[i]);
    }
}

proof fn lemma_list(m: MetaView, id: u32, list: Seq<(u32, bool)>, j: int)
    requires
        0 <= j,
    ensures
        assoc_fault(id, prop_numbers(m.props), list, j) is None <==> forall|k: int|
            j <= k < list.len() ==> (#[trigger] list[k]).0 != 0 && known_property(m, list[k].0)
                && !assoc_numbers(list).take(k).contains(list[k].0),
    decreases list.len() - j,
{
    if j < list.len() {
        lemma_list(m, id, list, j + 1);
        lemma_known(m, list[j].0);
    }
}

proof fn lemma_lists(m: MetaView, i: int)
    requires
        0 <= i,
    ensures
        ipma_fault(item_numbers(m.items), prop_numbers(m.props), m.ipma_entries, i) is None <==> forall|
            k: int,
        |
            i <= k < m.ipma_entries.len() ==> known_item(m, (#[trigger] m.ipma_entries[k]).item_id)
                && assoc_fault(
                m.ipma_entries[k].item_id,
                prop_numbers(m.props),
                m.ipma_entries[k].associations,
                0,
            ) is None && !ipma_numbers(m.ipma_entries).take(k).contains(m.ipma_entries[k].item_id),
    decreases m.ipma_entries.len() - i,
{
    if i < m.ipma_entries.len() {
        lemma_lists(m, i + 1);
        lemma_known(m, m.ipma_entries[i].item_id);
    }
}

proof fn lemma_targets(m: MetaView, r: IrefView, j: int)
    requires
        0 <= j,
    ensures
        target_fault(item_numbers(m.items), r, j) is None <==> forall|k: int|
            j <= k < r.to.len() ==> known_item(m, #[trigger] r.to[k]),
    decreases r.to.len() - j,
{
    if j < r.to.len() {
        lemma_targets(m, r, j + 1);
        lemma_known(m, r.to[j]);
    }
}

proof fn lemma_references(m: MetaView, i: int)
    requires
        0 <= i,
    ensures
        refs_fault(item_numbers(m.items), m.refs, i) is None <==> forall|k: int|
            i <= k < m.refs.len() ==> known_item(m, (#[trigger] m.refs[k]).from) && target_fault(
                item_numbers(m.items),
                m.refs[k],
                0,
            ) is None,
    decreases m.refs.len() - i,
{
    if i < m.refs.len() {
        lemma_references(m, i + 1);
        lemma_known(m, m.refs[i].from);
    }
}

/// A number is new at each place of a sequence just where all its numbers differ.
proof fn lemma_new_numbers(ids: Seq<u32>)
    ensures
        (forall|k: int| 0 <= k < ids.len() ==> !ids.take(k).contains(#[trigger] ids[k])) <==> (forall|
            a: int,
            b: int,
        | 0 <= a < b < ids.len() ==> ids[a] != ids[b]),
        first_repeat(ids, 0) is None <==> (forall|a: int, b: int|
            0 <= a < b < ids.len() ==> ids[a] != ids[b]),
{
    if forall|k: int| 0 <= k < ids.len() ==> !ids.take(k).contains(#[trigger] ids[k]) {
        assert forall|a: int, b: int| 0 <= a < b < ids.len() implies ids[a] != ids[b] by {
            assert(!ids.take(b).contains(ids[b]));
            assert(ids.take(b)[a] == ids[a]);
        }
    }
    if forall|a: int, b: int| 0 <= a < b < ids.len() ==> ids[a] != ids[b] {
        lemma_distinct(ids, 0);
    }
    if first_repeat(ids, 0) is None {
        lemma_no_repeat(ids, 0);
    }
}

/// Metadata is without fault just where the numbers of its items, properties and
/// entries are distinct, what it names is there, and the bytes of its items lie in
/// the file or in the item data box.
pub proof fn metadata_is_faultless_where_it_is_closed(s: Seq<u8>, m: MetaView, idat: Option<(int, int)>)
    requires
        s.len() <= usize::MAX,
        idat matches Some(x) ==> 0 <= x.0 <= x.1 <= s.len(),
    ensures
        integrity_fault(s, m, idat) == Some(None::<Seq<char>>) <==> distinct_metadata(m)
            && closed_metadata(s, m, idat),
{
    lemma_numbers_differ(m);
    lemma_known(m, m.primary_id);
    lemma_locations(s, m, idat, 0);
    lemma_lists(m, 0);
    lemma_references(m, 0);
    assert forall|k: int| 0 <= k < m.ipma_entries.len() implies (assoc_fault(
        (#[trigger] m.ipma_entries[k]).item_id,
        prop_numbers(m.props),
        m.ipma_entries[k].associations,
        0,
    ) is None <==> associations_closed(m, m.ipma_entries[k].associations)) by {
        lemma_list_closed(m, m.ipma_entries[k].item_id, m.ipma_entries[k].associations);
    }
    assert forall|k: int| 0 <= k < m.refs.len() implies (target_fault(
        item_numbers(m.items),
        #[trigger] m.refs[k],
        0,
    ) is None <==> forall|j: int| 0 <= j < m.refs[k].to.len() ==> known_item(m, #[trigger] m.refs[k].to[j])) by {
        lemma_targets(m, m.refs[k], 0);
    }
}

proof fn lemma_list_closed(m: MetaView, id: u32, list: Seq<(u32, bool)>)
    ensures
        assoc_fault(id, prop_numbers(m.props), list, 0) is None <==> associations_closed(m, list),
{
    let n = assoc_numbers(list);
    lemma_list(m, id, list, 0);
    lemma_new_numbers(n);
    assert(forall|a: int| 0 <= a < list.len() ==> n[a] == (#[trigger] list[a]).0);
    if associations_closed(m, list) {
        assert forall|a: int, b: int| 0 <= a < b < n.len() implies n[a] != n[b] by {
            assert(list[a].0 != list[b].0);
        }
        assert forall|k: int| 0 <= k < list.len() implies !n.take(k).contains((#[trigger] list[k]).0) by {
            assert(!n.take(k).contains(n[k]));
        }
    }
    if assoc_fault(id, prop_numbers(m.props), list, 0) is None {
        assert forall|k: int| 0 <= k < n.len() implies !n.take(k).contains(#[trigger] n[k]) by {
            assert(!n.take(k).contains(list[k].0));
        }
        assert forall|a: int, b: int| 0 <= a < b < list.len() implies (#[trigger] list[a]).0 != (
        #[trigger] list[b]).0 by {
            assert(n[a] != n[b]);
        }
    }
}

proof fn lemma_numbers_differ(m: MetaView)
    ensures
        distinct_metadata(m) <==> {
            &&& first_repeat(item_numbers(m.items), 0) is None
            &&& first_repeat(prop_numbers(m.props), 0) is None
            &&& forall|k: int|
                0 <= k < m.iloc_entries.len() ==> !iloc_numbers(m.iloc_entries).take(k).contains(
                    (#[trigger] m.iloc_entries[k]).item_id,
                )
            &&& forall|k: int|
                0 <= k < m.ipma_entries.len() ==> !ipma_numbers(m.ipma_entries).take(k).contains(
                    (#[trigger] m.ipma_entries[k]).item_id,
                )
        },
{
    let a = item_numbers(m.items);
    let b = prop_numbers(m.props);
    let c = iloc_numbers(m.iloc_entries);
    let d = ipma_numbers(m.ipma_entries);
    lemma_new_numbers(a);
    lemma_new_numbers(b);
    lemma_new_numbers(c);
    lemma_new_numbers(d);
    assert(forall|i: int| 0 <= i < m.items.len() ==> a[i] == (#[trigger] m.items[i]).item_id);
    assert(forall|i: int| 0 <= i < m.props.len() ==> b[i] == (#[trigger] m.props[i]).index);
    assert(forall|i: int| 0 <= i < m.iloc_entries.len() ==> c[i] == (#[trigger] m.iloc_entries[i]).item_id);
    assert(forall|i: int| 0 <= i < m.ipma_entries.len() ==> d[i] == (#[trigger] m.ipma_entries[i]).item_id);
    assert((forall|k: int|
        0 <= k < c.len() ==> !c.take(k).contains(#[trigger] c[k])) <==> (forall|k: int|
        0 <= k < m.iloc_entries.len() ==> !c.take(k).contains((#[trigger] m.iloc_entries[k]).item_id)))
        by {
        if forall|k: int|
            0 <= k < m.iloc_entries.len() ==> !c.take(k).contains(
                (#[trigger] m.iloc_entries[k]).item_id,
            ) {
            assert forall|k: int| 0 <= k < c.len() implies !c.take(k).contains(#[trigger] c[k]) by {
                assert(c[k] == m.iloc_entries[k].item_id);
            }
        }
    }
    assert((forall|k: int|
        0 <= k < d.len() ==> !d.take(k).contains(#[trigger] d[k])) <==> (forall|k: int|
        0 <= k < m.ipma_entries.len() ==> !d.take(k).contains((#[trigger] m.ipma_entries[k]).item_id)))
        by {
        if forall|k: int|
            0 <= k < m.ipma_entries.len() ==> !d.take(k).contains(
                (#[trigger] m.ipma_entries[k]).item_id,
            ) {
            assert forall|k: int| 0 <= k < d.len() implies !d.take(k).contains(#[trigger] d[k]) by {
                assert(d[k] == m.ipma_entries[k].item_id);
            }
        }
    }
    assert((forall|x: int, y: int| 0 <= x < y < a.len() ==> a[x] != a[y]) <==> (forall|x: int, y: int|
        0 <= x < y < m.items.len() ==> (#[trigger] m.items[x]).item_id != (#[trigger] m.items[y]).item_id))
        by {
        if forall|x: int, y: int|
            0 <= x < y < m.items.len() ==> (#[trigger] m.items[x]).item_id != (#[trigger] m.items[y]).item_id {
            assert forall|x: int, y: int| 0 <= x < y < a.len() implies a[x] != a[y] by {
                assert(m.items[x].item_id != m.items[y].item_id);
            }
        }
    }
    assert((forall|x: int, y: int| 0 <= x < y < b.len() ==> b[x] != b[y]) <==> (forall|x: int, y: int|
        0 <= x < y < m.props.len() ==> (#[trigger] m.props[x]).index != (#[trigger] m.props[y]).index)) by {
        if forall|x: int, y: int|
            0 <= x < y < m.props.len() ==> (#[trigger] m.props[x]).index != (#[trigger] m.props[y]).index {
            assert forall|x: int, y: int| 0 <= x < y < b.len() implies b[x] != b[y] by {
                assert(m.props[x].index != m.props[y].index);
            }
        }
    }
    assert((forall|x: int, y: int| 0 <= x < y < c.len() ==> c[x] != c[y]) <==> (forall|x: int, y: int|
        0 <= x < y < m.iloc_entries.len() ==> (#[trigger] m.iloc_entries[x]).item_id != (
        #[trigger] m.iloc_entries[y]).item_id)) by {
        if forall|x: int, y: int|
            0 <= x < y < m.iloc_entries.len() ==> (#[trigger] m.iloc_entries[x]).item_id != (
            #[trigger] m.iloc_entries[y]).item_id {
            assert forall|x: int, y: int| 0 <= x < y < c.len() implies c[x] != c[y] by {
                assert(m.iloc_entries[x].item_id != m.iloc_entries[y].item_id);
            }
        }
    }
    assert((forall|x: int, y: int| 0 <= x < y < d.len() ==> d[x] != d[y]) <==> (forall|x: int, y: int|
        0 <= x < y < m.ipma_entries.len() ==> (#[trigger] m.ipma_entries[x]).item_id != (
        #[trigger] m.ipma_entries[y]).item_id)) by {
        if forall|x: int, y: int|
            0 <= x < y < m.ipma_entries.len() ==> (#[trigger] m.ipma_entries[x]).item_id != (
            #[trigger] m.ipma_entries[y]).item_id {
            assert forall|x: int, y: int| 0 <= x < y < d.len() implies d[x] != d[y] by {
                assert(m.ipma_entries[x].item_id != m.ipma_entries[y].item_id);
            }
        }
    }
}

// ---------------------------------------------------------------------------
// Valid files
// ---------------------------------------------------------------------------

proof fn lemma_grid_payload(p: Seq<u8>, v: StructureView)
    ensures
        stated_grid(p) == Ok::<(u32, u32, u32, u32), Seq<char>>((v.rows, v.columns, v.width, v.height))
            <==> grid_says(p, v),
{
}

proof fn lemma_grid_shown(s: Seq<u8>, m: MetaView, idat: Option<(int, int)>, v: StructureView, g: GraphView)
    requires
        g.gain == v.gain_map_item_id,
        g.tiles == v.tile_item_ids,
        gain_grid(s, m, idat, g) == Some(
            Ok::<(u32, u32, u32, u32), Seq<char>>((v.rows, v.columns, v.width, v.height)),
        ),
    ensures
        shows_grid(s, m, idat, v),
{
    let e = lemma_located(m, g.gain);
    let payload = checked_payload(s, idat, m.iloc_entries[e])->0->Ok_0;
    lemma_grid_payload(payload, v);
    let base = lemma_stored(s, idat, m.iloc_entries[e]);
    assert(holds_grid(s, m, idat, v, e, base));
    let k = lemma_has_one(m, g.gain, "ispe"@);
    lemma_size(m.props[k].raw);
    assert(has_property(m, v.gain_map_item_id, "ispe"@, k) && size_says(
        m.props[k].raw,
        v.width as int,
        v.height as int,
    ));
}

proof fn lemma_shown_grid(s: Seq<u8>, m: MetaView, idat: Option<(int, int)>, v: StructureView, g: GraphView)
    requires
        g.gain == v.gain_map_item_id,
        g.tiles == v.tile_item_ids,
        shows_grid(s, m, idat, v),
        s.len() <= usize::MAX,
        idat matches Some(x) ==> 0 <= x.0 <= x.1 <= s.len(),
        forall|k: int| 0 <= k < m.props.len() ==> whole_box((#[trigger] m.props[k]).raw),
    ensures
        gain_grid(s, m, idat, g) == Some(
            Ok::<(u32, u32, u32, u32), Seq<char>>((v.rows, v.columns, v.width, v.height)),
        ),
{
    let (e, base) = choose|e: int, base: int| #[trigger] holds_grid(s, m, idat, v, e, base);
    let entry = m.iloc_entries[e];
    lemma_location(m, g.gain, e);
    assert(entry.extents.take(0) =~= Seq::empty());
    lemma_given(s, idat, entry, base, 0, Seq::empty());
    lemma_grid_payload(joined(s, base, entry.extents), v);
    let k = choose|k: int| #[trigger]
        has_property(m, v.gain_map_item_id, "ispe"@, k) && size_says(
            m.props[k].raw,
            v.width as int,
            v.height as int,
        );
    lemma_has(m, g.gain, "ispe"@, k);
    lemma_size(m.props[k].raw);
}

proof fn lemma_channels_shown(m: MetaView, v: StructureView, g: GraphView, d: Seq<u8>)
    requires
        g.gain == v.gain_map_item_id,
        g.tmap == v.tmap_item_id,
        gain_depths(m, g) == Ok::<Seq<u8>, Seq<char>>(d),
        v.channel_count == d.len(),
        channel_fault(d, profile_of(v)) is None,
    ensures
        shows_channels(m, v),
{
    let k = lemma_has_one(m, g.gain, "pixi"@);
    lemma_pixels(m.props[k].raw);
    let h = payload_place(m.props[k].raw);
    assert(d[0] == m.props[k].raw[h + 5 + 0]);
    if d.len() == 3 {
        assert(d[1] == m.props[k].raw[h + 5 + 1]);
        assert(d[2] == m.props[k].raw[h + 5 + 2]);
    }
    assert(has_property(m, v.gain_map_item_id, "pixi"@, k) && depths_say(m.props[k].raw, v));
    let k2 = lemma_has_one(m, g.tmap, "ispe"@);
    lemma_size(m.props[k2].raw);
    let z = stated_size(m.props[k2].raw)->Ok_0;
    assert(has_property(m, v.tmap_item_id, "ispe"@, k2) && size_says(
        m.props[k2].raw,
        z.0 as int,
        z.1 as int,
    ));
    let k3 = lemma_has_one(m, g.tmap, "pixi"@);
    lemma_pixels(m.props[k3].raw);
    let n = stated_depths(m.props[k3].raw)->Ok_0.len() as int;
    assert(has_property(m, v.tmap_item_id, "pixi"@, k3) && pixels_say(m.props[k3].raw, n));
}

proof fn lemma_shown_channels(m: MetaView, v: StructureView, g: GraphView) -> (d: Seq<u8>)
    requires
        g.gain == v.gain_map_item_id,
        g.tmap == v.tmap_item_id,
        shows_channels(m, v),
        forall|k: int| 0 <= k < m.props.len() ==> whole_box((#[trigger] m.props[k]).raw),
    ensures
        gain_depths(m, g) == Ok::<Seq<u8>, Seq<char>>(d),
        v.channel_count == d.len(),
        channel_fault(d, profile_of(v)) is None,
{
    let k = choose|k: int| #[trigger]
        has_property(m, v.gain_map_item_id, "pixi"@, k) && depths_say(m.props[k].raw, v);
    lemma_has(m, g.gain, "pixi"@, k);
    lemma_pixels(m.props[k].raw);
    lemma_behind_head(m.props[k].raw);
    let n = v.channel_count as int;
    let d = m.props[k].raw.subrange(13, 13 + n);
    let (k2, w, h) = choose|k2: int, w: int, h: int| #[trigger]
        has_property(m, v.tmap_item_id, "ispe"@, k2) && #[trigger] size_says(m.props[k2].raw, w, h);
    lemma_has(m, g.tmap, "ispe"@, k2);
    lemma_size(m.props[k2].raw);
    let (k3, n3) = choose|k3: int, n3: int| #[trigger]
        has_property(m, v.tmap_item_id, "pixi"@, k3) && #[trigger] pixels_say(m.props[k3].raw, n3);
    lemma_has(m, g.tmap, "pixi"@, k3);
    lemma_pixels(m.props[k3].raw);
    assert(d =~= profile_depths(n, profile_of(v)));
    d
}

/// A structure is read off the metadata just where the metadata shows it: the tone map
/// made of the primary image and the gain map, the grid and its tiles in order, the
/// sizes, the channels and the decoder configuration that all tiles share.
pub proof fn structures_are_those_that_are_shown(
    s: Seq<u8>,
    m: MetaView,
    idat: Option<(int, int)>,
    v: StructureView,
)
    requires
        s.len() <= usize::MAX,
        idat matches Some(x) ==> 0 <= x.0 <= x.1 <= s.len(),
    ensures
        structure_of(s, m, idat) == Some(Ok::<StructureView, Seq<char>>(v)) ==> shows_gain_map(s, m, idat, v),
        shows_gain_map(s, m, idat, v) && (forall|k: int|
            0 <= k < m.props.len() ==> whole_box((#[trigger] m.props[k]).raw)) ==> structure_of(s, m, idat)
            == Some(Ok::<StructureView, Seq<char>>(v)),
{
    let g = GraphView { tmap: v.tmap_item_id, gain: v.gain_map_item_id, tiles: v.tile_item_ids };
    if structure_of(s, m, idat) == Some(Ok::<StructureView, Seq<char>>(v)) {
        assert(gain_graph(m)->Ok_0 == g);
        lemma_graph_shown(m, v);
        lemma_grid_shown(s, m, idat, v, g);
        let d = gain_depths(m, g)->Ok_0;
        lemma_channels_shown(m, v, g, d);
        lemma_tiles_shown(m, v.tile_item_ids, 0, None, profile_of(v));
        assert forall|t: int| 0 <= t < v.tile_item_ids.len() implies shows_tile(
            m,
            v,
            #[trigger] v.tile_item_ids[t],
        ) by {
            lemma_tile_shown(m, v, v.tile_item_ids[t]);
        }
    }
    if shows_gain_map(s, m, idat, v) && (forall|k: int|
        0 <= k < m.props.len() ==> whole_box((#[trigger] m.props[k]).raw)) {
        lemma_shown_graph(m, v);
        lemma_shown_grid(s, m, idat, v, g);
        let d = lemma_shown_channels(m, v, g);
        assert forall|t: int| 0 <= t < v.tile_item_ids.len() implies crate::iso_validate::tile_profile(
            m,
            #[trigger] v.tile_item_ids[t],
        ) == Ok::<HvcCProfile, Seq<char>>(profile_of(v)) by {
            lemma_shown_tile(m, v, v.tile_item_ids[t]);
        }
        lemma_shown_tiles(m, v.tile_item_ids, 0, None, profile_of(v));
    }
}

/// The box at place `i` is the only one of its type at the top of the file.
pub open spec fn only_box(s: Seq<u8>, btype: Seq<u8>, i: int) -> bool {
    let top = boxes_in(s, 0, s.len() as int);
    &&& 0 <= i < top.len()
    &&& top[i].btype == btype
    &&& forall|j: int| 0 <= j < top.len() && j != i ==> (#[trigger] top[j]).btype != btype
}

/// The item data box of the metadata box at place `i` spans the range, where there is
/// one.
pub open spec fn item_data(s: Seq<u8>, i: int, idat: Option<(int, int)>) -> bool {
    let meta = boxes_in(s, 0, s.len() as int)[i];
    let inner = boxes_in(s, meta.data_start + 4, meta.data_end);
    match idat {
        None => forall|j: int|
            0 <= j < inner.len() ==> (#[trigger] inner[j]).btype != seq![0x69u8, 0x64, 0x61, 0x74],
        Some(x) => exists|k: int|
            0 <= k < inner.len() && (#[trigger] inner[k]).btype == seq![0x69u8, 0x64, 0x61, 0x74]
                && inner[k].data_start == x.0 && inner[k].data_end == x.1 && forall|j: int|
                0 <= j < k ==> (#[trigger] inner[j]).btype != seq![0x69u8, 0x64, 0x61, 0x74],
    }
}

proof fn lemma_only_box(s: Seq<u8>, btype: Seq<u8>, name: Seq<char>)
    ensures
        sole_box(boxes_in(s, 0, s.len() as int), btype, name) is Ok <==> exists|i: int| #[trigger]
            only_box(s, btype, i),
        forall|i: int| #[trigger]
            only_box(s, btype, i) ==> sole_box(boxes_in(s, 0, s.len() as int), btype, name) == Ok::<
                BoxView,
                Seq<char>,
            >(boxes_in(s, 0, s.len() as int)[i]),
{
    let top = boxes_in(s, 0, s.len() as int);
    let p = of_type(btype);
    assert forall|i: int| #[trigger] only_box(s, btype, i) implies sole_box(top, btype, name) == Ok::<
        BoxView,
        Seq<char>,
    >(top[i]) by {
        lemma_one_picked(top, p, i);
    }
    if sole_box(top, btype, name) is Ok {
        let i = lemma_picked_one(top, p);
        assert forall|j: int| 0 <= j < top.len() && j != i implies (#[trigger] top[j]).btype != btype by {
            assert(!p(top[j]));
        }
        assert(only_box(s, btype, i));
    }
}

proof fn lemma_item_data(s: Seq<u8>, i: int)
    requires
        0 <= i < boxes_in(s, 0, s.len() as int).len(),
    ensures
        item_data(s, i, idat_range(s, boxes_in(s, 0, s.len() as int)[i])),
        forall|idat: Option<(int, int)>| #[trigger]
            item_data(s, i, idat) ==> idat == idat_range(s, boxes_in(s, 0, s.len() as int)[i]),
        idat_range(s, boxes_in(s, 0, s.len() as int)[i]) matches Some(x) ==> 0 <= x.0 <= x.1 <= s.len(),
{
    let meta = boxes_in(s, 0, s.len() as int)[i];
    lemma_boxes_within(s, 0, s.len() as int);
    assert(box_within(meta, s.len() as int));
    let inner = boxes_in(s, meta.data_start + 4, meta.data_end);
    lemma_boxes_within(s, meta.data_start + 4, meta.data_end);
    let name = seq![0x69u8, 0x64, 0x61, 0x74];
    assert(IDAT@ =~= name);
    let p = of_type(name);
    if first_where(inner, p) is Some {
        let k = lemma_first_place(inner, p);
        assert(box_within(inner[k], s.len() as int));
        assert forall|j: int| 0 <= j < k implies (#[trigger] inner[j]).btype != name by {
            assert(!p(inner[j]));
        }
    } else {
        lemma_first_where_has(inner, p);
        assert forall|j: int| 0 <= j < inner.len() implies (#[trigger] inner[j]).btype != name by {
            assert(!p(inner[j]));
        }
    }
    assert forall|idat: Option<(int, int)>| #[trigger] item_data(s, i, idat) implies idat == idat_range(
        s,
        meta,
    ) by {
        match idat {
            None => {
                if first_where(inner, p) is Some {
                    let k = lemma_first_place(inner, p);
                }
            },
            Some(x) => {
                let k = choose|k: int|
                    0 <= k < inner.len() && (#[trigger] inner[k]).btype == name && inner[k].data_start
                        == x.0 && inner[k].data_end == x.1 && forall|j: int|
                        0 <= j < k ==> (#[trigger] inner[j]).btype != name;
                lemma_first_where_at(inner, p, k);
            },
        }
    }
}

/// The boxes of a file with a gain map: one of each of the three types, the second of
/// them with the item data.
pub open spec fn has_the_boxes(s: Seq<u8>, i: int, idat: Option<(int, int)>) -> bool {
    let ftyp = seq![0x66u8, 0x74, 0x79, 0x70];
    let mdat = seq![0x6du8, 0x64, 0x61, 0x74];
    &&& exists|f: int| #[trigger] only_box(s, ftyp, f)
    &&& only_box(s, seq![0x6du8, 0x65, 0x74, 0x61], i)
    &&& exists|d: int| #[trigger] only_box(s, mdat, d)
    &&& item_data(s, i, idat)
}

/// A file is valid with a structure only where it has one file type box, one metadata
/// box and one media data box, and its metadata is closed and shows that structure.
/// Where its properties are boxes that state their length, it is valid wherever that
/// holds.
pub proof fn valid_files_show_their_gain_map(s: Seq<u8>, m: MetaView, v: StructureView)
    requires
        s.len() <= usize::MAX,
        source_meta(s) == Some(Ok::<MetaView, Seq<char>>(m)),
    ensures
        gain_map_structure(s) == Some(Ok::<StructureView, Seq<char>>(v)) ==> exists|
            i: int,
            idat: Option<(int, int)>,
        | #[trigger]
            has_the_boxes(s, i, idat) && distinct_metadata(m) && closed_metadata(s, m, idat)
                && shows_gain_map(s, m, idat, v),
        (exists|i: int, idat: Option<(int, int)>| #[trigger]
            has_the_boxes(s, i, idat) && distinct_metadata(m) && closed_metadata(s, m, idat)
                && shows_gain_map(s, m, idat, v)) && (forall|k: int|
            0 <= k < m.props.len() ==> whole_box((#[trigger] m.props[k]).raw)) ==> gain_map_structure(s)
            == Some(Ok::<StructureView, Seq<char>>(v)),
{
    let top = boxes_in(s, 0, s.len() as int);
    let ftyp = seq![0x66u8, 0x74, 0x79, 0x70];
    let meta = seq![0x6du8, 0x65, 0x74, 0x61];
    let mdat = seq![0x6du8, 0x64, 0x61, 0x74];
    assert(FTYP@ =~= ftyp && META@ =~= meta && MDAT@ =~= mdat);
    lemma_only_box(s, ftyp, "ftyp"@);
    lemma_only_box(s, meta, "meta"@);
    lemma_only_box(s, mdat, "mdat"@);
    if gain_map_structure(s) == Some(Ok::<StructureView, Seq<char>>(v)) {
        let i = choose|i: int| #[trigger] only_box(s, meta, i);
        let idat = idat_range(s, top[i]);
        lemma_item_data(s, i);
        metadata_is_faultless_where_it_is_closed(s, m, idat);
        structures_are_those_that_are_shown(s, m, idat, v);
        assert(has_the_boxes(s, i, idat));
    }
    if exists|i: int, idat: Option<(int, int)>| #[trigger]
        has_the_boxes(s, i, idat) && distinct_metadata(m) && closed_metadata(s, m, idat)
            && shows_gain_map(s, m, idat, v) {
        let (i, idat) = choose|i: int, idat: Option<(int, int)>| #[trigger]
            has_the_boxes(s, i, idat) && distinct_metadata(m) && closed_metadata(s, m, idat)
                && shows_gain_map(s, m, idat, v);
        lemma_item_data(s, i);
        metadata_is_faultless_where_it_is_closed(s, m, idat);
        structures_are_those_that_are_shown(s, m, idat, v);
    }
}

} // verus!
