//! How the items of an output belong together.

use crate::assemble::{
    ConfigView, GainView, SourceView, added_numbers, at_least_one, colour_number, config_for,
    number_among, output_associations, output_refs, rotation_number, shares_ispe, source_refs,
    tmap_ispe, with_association,
};
use crate::bytes::{be16, be32, enc16};
use crate::container::OppoCameraTail;
use crate::exif::{ExifOrientation, OppoCompat, orientation_of};
use crate::fourcc::{HVCC, IROT, ISPE};
use crate::gain_laws::{
    is_primary_entry, is_primary_turn, is_turn, lemma_first_entry, lemma_number, lemma_one_turn,
    shown_at,
};
use crate::gain_tiles::{GainMetadata, PreparedTiles, chroma_of, encoded_gain_map};
use crate::hevc::tile_payload;
use crate::isobmff::{
    IlocView, IrefView, ItemView, MetaView, box_bytes, grid_payload, ipma_for, irot_bytes,
    ispe_bytes,
};
use crate::output_laws::{
    added_properties_are_numbered, output_items, output_properties, output_view, raw_properties,
};
use crate::round_trip::{
    built_item, integers_of_16_bits_read_back, sizes_read_back, turns_read_back,
};
use crate::seqs::{first_where, lemma_first_where_at};
use vstd::prelude::*;
use vstd::string::*;

verus! {

/// Whether there is an item of this number and type.
pub open spec fn has_item(n: MetaView, id: u32, itype: Seq<char>) -> bool {
    exists|i: int|
        0 <= i < n.items.len() && (#[trigger] n.items[i]).item_id == id && n.items[i].itype == itype
}

/// Whether an item refers to others, in this order.
pub open spec fn refers(n: MetaView, rtype: Seq<char>, from: u32, to: Seq<u32>) -> bool {
    exists|i: int|
        0 <= i < n.refs.len() && #[trigger] n.refs[i] == (IrefView { rtype, from, to })
}

/// Whether an item has a property of which `p` holds.
pub open spec fn has_property(n: MetaView, id: u32, p: spec_fn(Seq<u8>) -> bool) -> bool {
    exists|e: int, j: int|
        0 <= e < n.ipma_entries.len() && n.ipma_entries[e].item_id == id && 0 <= j
            < n.ipma_entries[e].associations.len() && associates(
            n,
            #[trigger] n.ipma_entries[e].associations[j],
            p,
        )
}

/// Whether an association is with a property of which `p` holds.
pub open spec fn associates(n: MetaView, a: (u32, bool), p: spec_fn(Seq<u8>) -> bool) -> bool {
    1 <= a.0 <= n.props.len() && p(n.props[a.0 - 1].raw)
}

/// Being a box that says a size.
pub open spec fn says_size(width: int, height: int) -> spec_fn(Seq<u8>) -> bool {
    |raw: Seq<u8>|
        {
            &&& raw.len() >= 20
            &&& raw.subrange(4, 8) == seq![0x69u8, 0x73u8, 0x70u8, 0x65u8]
            &&& be32(raw, 12) == width
            &&& be32(raw, 16) == height
        }
}

/// Being a box that says quarter turns, counter-clockwise.
pub open spec fn says_turns(turns: int) -> spec_fn(Seq<u8>) -> bool {
    |raw: Seq<u8>|
        {
            &&& raw.len() >= 9
            &&& raw.subrange(4, 8) == seq![0x69u8, 0x72u8, 0x6fu8, 0x74u8]
            &&& raw[8] % 4 == turns
        }
}

/// Being this very box.
pub open spec fn is_box(b: Seq<u8>) -> spec_fn(Seq<u8>) -> bool {
    |raw: Seq<u8>| raw == b
}

/// Being a decoder configuration of this content.
pub open spec fn is_configuration(hvcc: Seq<u8>) -> spec_fn(Seq<u8>) -> bool {
    |raw: Seq<u8>|
        {
            &&& raw.len() == hvcc.len() + 8
            &&& raw.subrange(4, 8) == seq![0x68u8, 0x76u8, 0x63u8, 0x43u8]
            &&& raw.skip(8) == hvcc
        }
}

/// What an output says, once it is read.
pub open spec fn is_output_view(
    n: MetaView,
    src: SourceView,
    c: ConfigView,
    o: ExifOrientation,
    ispe: u32,
    entries: Seq<IlocView>,
) -> bool {
    &&& n == output_view(src, c, o, ispe, entries)
    &&& 1 <= ispe <= src.props.len()
    &&& src.props.len() + 16 <= u32::MAX
    &&& 0 < c.tile_ids.len() < u32::MAX
}

/// The items of a gain map belong together: the tone map is made of the primary and, behind
/// it, the gain map; the gain map is a grid of its tiles, in order; the XMP describes the
/// primary and the tone map.
pub proof fn tone_maps_are_made_of_primary_and_gain_map(
    n: MetaView,
    src: SourceView,
    c: ConfigView,
    o: ExifOrientation,
    ispe: u32,
    entries: Seq<IlocView>,
    k: int,
)
    requires
        is_output_view(n, src, c, o, ispe, entries),
        0 <= k < c.tile_ids.len(),
    ensures
        n.primary_id == src.primary_id,
        has_item(n, c.tmap_id, "tmap"@),
        has_item(n, c.gain_grid_id, "grid"@),
        has_item(n, c.tile_ids[k], "hvc1"@),
        refers(n, "dimg"@, c.tmap_id, seq![src.primary_id, c.gain_grid_id]),
        refers(n, "dimg"@, c.gain_grid_id, c.tile_ids),
        refers(n, "cdsc"@, c.xmp_id, seq![src.primary_id, c.tmap_id]),
        forall|i: int| 0 <= i < src.items.len() ==> n.items[i] == #[trigger] src.items[i],
{
    lemma_output_items(n.items, src, c, k);
    lemma_output_refs(n.refs, src, c);
}

proof fn lemma_output_items(items: Seq<ItemView>, src: SourceView, c: ConfigView, k: int)
    requires
        items == output_items(src, c),
        0 <= k < c.tile_ids.len(),
    ensures
        ({
            let a = src.items.len() as int;
            let m = c.tile_ids.len() as int;
            &&& items.len() == a + m + 3
            &&& items[a + k] == built_item(c.tile_ids[k], "hvc1"@, 1)
            &&& items[a + m] == built_item(c.gain_grid_id, "grid"@, 1)
            &&& items[a + m + 1] == built_item(c.tmap_id, "tmap"@, 0)
            &&& forall|i: int| 0 <= i < a ==> items[i] == #[trigger] src.items[i]
        }),
{
}

proof fn lemma_output_refs(refs: Seq<IrefView>, src: SourceView, c: ConfigView)
    requires
        refs == output_refs(src, c),
        c.tile_ids.len() > 0,
    ensures
        ({
            let end = refs.len() as int;
            &&& end >= 3
            &&& refs[end - 1] == IrefView {
                rtype: "cdsc"@,
                from: c.xmp_id,
                to: seq![src.primary_id, c.tmap_id],
            }
            &&& refs[end - 2] == IrefView {
                rtype: "dimg"@,
                from: c.tmap_id,
                to: seq![src.primary_id, c.gain_grid_id],
            }
            &&& refs[end - 3] == IrefView { rtype: "dimg"@, from: c.gain_grid_id, to: c.tile_ids }
        }),
{
    reveal(output_refs);
    let old = source_refs(
        src.refs,
        src.items,
        src.primary_id,
        c.tmap_id,
        0,
        Seq::empty(),
        Seq::empty(),
    );
    let front = old.0 + old.1;
    assert(refs.len() == front.len() + 3);
}

proof fn lemma_property(
    n: MetaView,
    e: int,
    j: int,
    id: u32,
    number: u32,
    essential: bool,
    p: spec_fn(Seq<u8>) -> bool,
)
    requires
        0 <= e < n.ipma_entries.len(),
        n.ipma_entries[e].item_id == id,
        0 <= j < n.ipma_entries[e].associations.len(),
        n.ipma_entries[e].associations[j] == (number, essential),
        1 <= number <= n.props.len(),
        p(n.props[number - 1].raw),
    ensures
        has_property(n, id, p),
{
    assert(associates(n, n.ipma_entries[e].associations[j], p));
}

proof fn lemma_size(width: u32, height: u32)
    ensures
        says_size(width as int, height as int)(ispe_bytes(width as int, height as int)),
{
    sizes_read_back(width, height);
    assert(ISPE@ =~= seq![0x69u8, 0x73u8, 0x70u8, 0x65u8]);
}

/// Each item of a gain map has its properties: a tile its size of 512 by 512 and the decoder
/// configuration, the grid the size of the gain map, and the tone map the size of the primary
/// and its light level.
pub proof fn gain_maps_have_their_properties(
    n: MetaView,
    src: SourceView,
    c: ConfigView,
    o: ExifOrientation,
    ispe: u32,
    entries: Seq<IlocView>,
    k: int,
)
    requires
        is_output_view(n, src, c, o, ispe, entries),
        0 <= k < c.tile_ids.len(),
        0 < c.gain_width,
        0 < c.gain_height,
        c.gain_hvcc.len() + 8 <= u32::MAX,
    ensures
        has_property(n, c.tile_ids[k], says_size(512, 512)),
        has_property(n, c.tile_ids[k], is_configuration(c.gain_hvcc)),
        has_property(n, c.gain_grid_id, says_size(c.gain_width as int, c.gain_height as int)),
        has_property(
            n,
            c.tmap_id,
            says_size(
                be32(src.props[ispe - 1].raw, 12),
                be32(src.props[ispe - 1].raw, 16),
            ),
        ),
        has_property(n, c.tmap_id, is_box(c.tmap_clli)),
{
    lemma_numbered(n, src, c, o, ispe, entries);
    lemma_tile_properties(n, src, c, o, ispe, entries, k);
    lemma_map_properties(n, src, c, o, ispe, entries);
}

/// What the added properties of an output are.
proof fn lemma_numbered(
    n: MetaView,
    src: SourceView,
    c: ConfigView,
    o: ExifOrientation,
    ispe: u32,
    entries: Seq<IlocView>,
)
    requires
        is_output_view(n, src, c, o, ispe, entries),
    ensures
        ({
            let p = added_numbers(src, c, ispe);
            let len = n.props.len();
            &&& 1 <= p.tile_ispe <= len && n.props[p.tile_ispe - 1].raw == ispe_bytes(512, 512)
            &&& 1 <= p.gain_hvcc <= len && n.props[p.gain_hvcc - 1].raw == box_bytes(
                HVCC@,
                c.gain_hvcc,
            )
            &&& 1 <= p.grid_ispe <= len && n.props[p.grid_ispe - 1].raw == ispe_bytes(
                at_least_one(c.gain_width),
                at_least_one(c.gain_height),
            )
            &&& 1 <= p.tmap_clli <= len && n.props[p.tmap_clli - 1].raw == c.tmap_clli
            &&& 1 <= p.tmap_ispe <= len && n.props[p.tmap_ispe - 1].raw == tmap_ispe(src, ispe)
            &&& 1 <= p.irot <= len && n.props[p.irot - 1].raw == irot_bytes(o.turns())
            &&& src.props.len() <= len
            &&& forall|i: int|
                0 <= i < src.props.len() ==> (#[trigger] n.props[i]).raw == src.props[i].raw
        }),
{
    let irot = irot_bytes(o.turns());
    let own: Option<Seq<u8>> = if shares_ispe(src, ispe) {
        None
    } else {
        Some(tmap_ispe(src, ispe))
    };
    let boxes = output_properties(src, c, irot, own);
    added_properties_are_numbered(src, c, irot, own, ispe);
    assert forall|i: int| 0 <= i < boxes.len() implies (#[trigger] n.props[i]).raw == boxes[i] by {}
    assert forall|i: int| 0 <= i < src.props.len() implies (#[trigger] n.props[i]).raw
        == src.props[i].raw by {
        assert(boxes[i] == raw_properties(src.props)[i]);
    }
}

proof fn lemma_tile_properties(
    n: MetaView,
    src: SourceView,
    c: ConfigView,
    o: ExifOrientation,
    ispe: u32,
    entries: Seq<IlocView>,
    k: int,
)
    requires
        is_output_view(n, src, c, o, ispe, entries),
        0 <= k < c.tile_ids.len(),
        c.gain_hvcc.len() + 8 <= u32::MAX,
    ensures
        has_property(n, c.tile_ids[k], says_size(512, 512)),
        has_property(n, c.tile_ids[k], is_configuration(c.gain_hvcc)),
{
    let p = added_numbers(src, c, ispe);
    let a = src.ipma_entries.len() as int;
    lemma_numbered(n, src, c, o, ispe, entries);
    let hvcc = box_bytes(HVCC@, c.gain_hvcc);
    assert(is_configuration(c.gain_hvcc)(hvcc)) by {
        reveal(box_bytes);
        assert(HVCC@ =~= seq![0x68u8, 0x76u8, 0x63u8, 0x43u8]);
        assert(hvcc.subrange(4, 8) =~= HVCC@);
        assert(hvcc.skip(8) =~= c.gain_hvcc);
    }
    lemma_size(512, 512);
    lemma_property(n, a + k, 0, c.tile_ids[k], p.tile_ispe, true, says_size(512, 512));
    lemma_property(n, a + k, 2, c.tile_ids[k], p.gain_hvcc, true, is_configuration(c.gain_hvcc));
}

proof fn lemma_map_properties(
    n: MetaView,
    src: SourceView,
    c: ConfigView,
    o: ExifOrientation,
    ispe: u32,
    entries: Seq<IlocView>,
)
    requires
        is_output_view(n, src, c, o, ispe, entries),
        0 < c.gain_width,
        0 < c.gain_height,
    ensures
        has_property(n, c.gain_grid_id, says_size(c.gain_width as int, c.gain_height as int)),
        has_property(
            n,
            c.tmap_id,
            says_size(
                be32(src.props[ispe - 1].raw, 12),
                be32(src.props[ispe - 1].raw, 16),
            ),
        ),
        has_property(n, c.tmap_id, is_box(c.tmap_clli)),
{
    let p = added_numbers(src, c, ispe);
    let a = src.ipma_entries.len() as int;
    let m = c.tile_ids.len() as int;
    let raw = src.props[ispe - 1].raw;
    lemma_numbered(n, src, c, o, ispe, entries);
    lemma_size(c.gain_width, c.gain_height);
    lemma_size(be32(raw, 12) as u32, be32(raw, 16) as u32);
    lemma_property(
        n,
        a + m,
        0,
        c.gain_grid_id,
        p.grid_ispe,
        true,
        says_size(c.gain_width as int, c.gain_height as int),
    );
    lemma_property(
        n,
        a + m + 1,
        2,
        c.tmap_id,
        p.tmap_ispe,
        true,
        says_size(be32(raw, 12), be32(raw, 16)),
    );
    lemma_property(n, a + m + 1, 3, c.tmap_id, p.tmap_clli, false, is_box(c.tmap_clli));
}

// ---------------------------------------------------------------------------
// Rotation
// ---------------------------------------------------------------------------

/// Where the pixel at column `x` of row `y` of an image stands once it is turned counter-
/// clockwise by quarters.
pub open spec fn turned_left(turns: int, width: int, height: int, x: int, y: int) -> (int, int)
    decreases turns,
{
    if turns <= 0 {
        (x, y)
    } else {
        turned_left(turns - 1, height, width, y, width - 1 - x)
    }
}

/// The quarter turns of an orientation show an image as the Exif orientation says, where that
/// is a rotation; an orientation that mirrors has none.
pub proof fn turns_show_the_orientation(
    o: ExifOrientation,
    number: int,
    width: int,
    height: int,
    x: int,
    y: int,
)
    requires
        orientation_of(number) == Some(o),
    ensures
        0 <= o.turns() < 4,
        number == 1 || number == 3 || number == 6 || number == 8 ==> turned_left(
            o.turns(),
            width,
            height,
            x,
            y,
        ) == shown_at(number, width, height, x, y),
        number == 2 || number == 4 || number == 5 || number == 7 ==> o.turns() == 0,
{
    reveal_with_fuel(turned_left, 4);
}

/// The primary, the gain map and the tone map of an output are shown with one rotation: that
/// of the source's primary where it has one, else the turns of the source's orientation.
pub proof fn items_are_shown_with_one_rotation(
    n: MetaView,
    src: SourceView,
    c: ConfigView,
    o: ExifOrientation,
    ispe: u32,
    entries: Seq<IlocView>,
    e: int,
    j: int,
)
    requires
        is_output_view(n, src, c, o, ispe, entries),
        is_primary_entry(src, e),
    ensures
        ({
            let own = is_primary_turn(src, e, j);
            let raw = src.props[src.ipma_entries[e].associations[j].0 - 1].raw;
            let none = forall|i: int|
                0 <= i < src.ipma_entries[e].associations.len() ==> !is_turn(
                    src,
                    (#[trigger] src.ipma_entries[e].associations[i]).0,
                );
            &&& own ==> {
                &&& has_property(n, src.primary_id, is_box(raw))
                &&& has_property(n, c.gain_grid_id, is_box(raw))
                &&& has_property(n, c.tmap_id, is_box(raw))
            }
            &&& none ==> {
                &&& has_property(n, src.primary_id, says_turns(o.turns()))
                &&& has_property(n, c.gain_grid_id, says_turns(o.turns()))
                &&& has_property(n, c.tmap_id, says_turns(o.turns()))
            }
        }),
{
    let p = added_numbers(src, c, ispe);
    let irot = irot_bytes(o.turns());
    let size: Option<Seq<u8>> = if shares_ispe(src, ispe) {
        None
    } else {
        Some(tmap_ispe(src, ispe))
    };
    let boxes = output_properties(src, c, irot, size);
    added_properties_are_numbered(src, c, irot, size, ispe);
    assert forall|i: int| 0 <= i < boxes.len() implies (#[trigger] n.props[i]).raw == boxes[i] by {}
    turns_read_back(o.turns() as u8);
    assert(IROT@ =~= seq![0x69u8, 0x72u8, 0x6fu8, 0x74u8]);
    let r = rotation_number(src, p);
    let a = src.ipma_entries.len() as int;
    let m = c.tile_ids.len() as int;
    let x = src.ipma_entries[e];
    let colr = colour_number(src.props);
    lemma_first_entry(src.ipma_entries, src.primary_id);
    assert(first_where(src.ipma_entries, ipma_for(src.primary_id)) == Some(x)) by {
        assert forall|i: int| 0 <= i < e implies !ipma_for(src.primary_id)(
            #[trigger] src.ipma_entries[i],
        ) by {}
        lemma_first_where_at(src.ipma_entries, ipma_for(src.primary_id), e);
    }
    lemma_number(src, x.associations, 0);
    let all = output_associations(x, src.primary_id, colr, p.base_clli, r);
    let i = lemma_associated(
        with_association(with_association(x.associations, colr, true), p.base_clli, false),
        r,
        true,
    );
    assert(n.ipma_entries[e].associations == all);
    if is_primary_turn(src, e, j) {
        let raw = src.props[x.associations[j].0 - 1].raw;
        assert(r == x.associations[j].0) by {
            let q = number_among(src.props, x.associations, 0, "irot"@);
            if q is None {
                assert(!is_turn(src, x.associations[j].0));
            } else {
                let k = choose|k: int|
                    0 <= k < x.associations.len() && (#[trigger] x.associations[k]).0 == q->0
                        && is_turn(src, q->0) && forall|i: int|
                        0 <= i < k ==> !is_turn(src, (#[trigger] x.associations[i]).0);
                lemma_one_turn(src, e, j, e, k);
            }
        }
        assert(boxes[r - 1] == raw);
        lemma_property(n, e, i, src.primary_id, r, all[i].1, is_box(raw));
        lemma_property(n, a + m, 3, c.gain_grid_id, r, true, is_box(raw));
        lemma_property(n, a + m + 1, 4, c.tmap_id, r, true, is_box(raw));
    }
    if forall|i: int|
        0 <= i < x.associations.len() ==> !is_turn(src, (#[trigger] x.associations[i]).0) {
        assert(number_among(src.props, x.associations, 0, "irot"@) is None) by {
            let q = number_among(src.props, x.associations, 0, "irot"@);
            if q is Some {
                let k = choose|k: int|
                    0 <= k < x.associations.len() && (#[trigger] x.associations[k]).0 == q->0
                        && is_turn(src, q->0);
                assert(!is_turn(src, x.associations[k].0));
            }
        }
        lemma_property(n, e, i, src.primary_id, r, all[i].1, says_turns(o.turns()));
        lemma_property(n, a + m, 3, c.gain_grid_id, r, true, says_turns(o.turns()));
        lemma_property(n, a + m + 1, 4, c.tmap_id, r, true, says_turns(o.turns()));
    }
}

proof fn lemma_associated(assocs: Seq<(u32, bool)>, index: u32, essential: bool) -> (i: int)
    ensures
        0 <= i < with_association(assocs, index, essential).len(),
        with_association(assocs, index, essential)[i].0 == index,
{
    if exists|i: int| 0 <= i < assocs.len() && (#[trigger] assocs[i]).0 == index {
        choose|i: int| 0 <= i < assocs.len() && (#[trigger] assocs[i]).0 == index
    } else {
        assocs.len() as int
    }
}

/// A grid says its rows, its columns and its size: each counted from one, and the size in 16
/// bits.
pub proof fn grids_say_their_layout(rows: int, cols: int, width: int, height: int)
    requires
        1 <= rows <= 256,
        1 <= cols <= 256,
        0 <= width < 0x1_0000,
        0 <= height < 0x1_0000,
    ensures
        ({
            let p = grid_payload(rows, cols, width, height);
            &&& p.len() == 8
            &&& p[0] == 0
            &&& p[1] % 2 == 0
            &&& p[2] + 1 == rows
            &&& p[3] + 1 == cols
            &&& be16(p, 4) == width
            &&& be16(p, 6) == height
        }),
{
    let p = grid_payload(rows, cols, width, height);
    assert(p.subrange(4, 6) =~= enc16(width));
    assert(p.subrange(6, 8) =~= enc16(height));
    integers_of_16_bits_read_back(p, 4, width);
    integers_of_16_bits_read_back(p, 6, height);
}

/// What goes into an output of a gain map is that gain map, under numbers that follow each
/// other: first the tiles, then the grid, the tone map and the XMP.
pub proof fn outputs_take_the_gain_map(src: SourceView, g: GainView, policy: OppoCameraTail, k: int)
    requires
        0 <= k < g.tiles.len(),
        src.max_src_id + g.tiles.len() + 5 <= u32::MAX,
    ensures
        ({
            let c = config_for(src, g, policy);
            let first = c.tile_ids[0];
            &&& c.tiles == g.tiles
            &&& c.tile_ids.len() == g.tiles.len()
            &&& src.max_src_id < first
            &&& c.tile_ids[k] == first + k
            &&& c.gain_grid_id == first + g.tiles.len()
            &&& c.tmap_id == c.gain_grid_id + 1
            &&& c.xmp_id == c.tmap_id + 1
            &&& c.group_id == c.xmp_id + 1
            &&& c.gain_width == g.width
            &&& c.gain_height == g.height
            &&& c.cols == g.cols
            &&& c.rows == g.rows
            &&& c.oppo_rgb == g.oppo_rgb
            &&& c.gain_hvcc == g.hvcc
            &&& c.tmap_payload == g.tmap_payload
            &&& c.xmp == g.xmp
            &&& c.base_clli == g.base_clli
            &&& c.tmap_clli == g.tmap_clli
            &&& c.tail_policy == policy
        }),
{
}

/// The gain map of encoded tiles has the size and the layout of the tiles that were encoded,
/// the payload of each stream as a tile, and what describes it.
pub proof fn encoded_tiles_keep_their_layout(
    p: PreparedTiles,
    streams: Seq<Seq<u8>>,
    chroma: u8,
    m: GainMetadata,
    k: int,
)
    requires
        0 <= k < streams.len(),
        tile_payload(streams[k]) is Some,
    ensures
        ({
            let g = encoded_gain_map(p, streams, chroma, m);
            &&& g.width == p.gain_width
            &&& g.height == p.gain_height
            &&& g.cols == p.cols
            &&& g.rows == p.rows
            &&& g.oppo_rgb == p.oppo_rgb
            &&& g.tiles.len() == streams.len()
            &&& tile_payload(streams[k]) == Some(g.tiles[k])
            &&& g.tmap_payload == m.tmap_payload@
            &&& g.xmp == m.xmp_bytes@
            &&& g.base_clli == m.base_clli@
            &&& g.tmap_clli == m.tmap_clli@
        }),
{
}

/// Gray tiles are declared without chroma, tiles for OPPO with 4:2:0, and others with 4:4:4.
pub proof fn chroma_follows_the_tiles(rgb: bool, compat: OppoCompat)
    ensures
        chroma_of(rgb, compat) == 0 <==> !rgb,
        chroma_of(rgb, compat) == 1 <==> rgb && compat != OppoCompat::Off,
        chroma_of(rgb, compat) == 3 <==> rgb && compat == OppoCompat::Off,
{
}

} // verus!
