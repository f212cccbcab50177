//! What is read back of a tiled file: its items, their properties and references, and the
//! bytes of each item where the file says that it lies.

use crate::assemble::tiles_len;
use crate::bytes::{be32, enc16, enc32, occurs_at, zeros};
use crate::container_build::{
    EMPTY_EXIF, EXIF_ITEM, FIRST_TILE, GridView, HEIC_BRANDS, LIMITED_NCLX, MAX_TILES, PICT_HANDLER,
    TILE, grid_base, grid_file, grid_iinf, grid_iprp, grid_item, grid_locations, grid_media,
    grid_meta, grid_refs, heic_grid, one_piece, shared_properties, tile_association, tile_infe,
    tile_items, tiles_across,
};
use crate::fourcc::{COLR, FTYP, HDLR, HVCC, IDAT, IINF, ILOC, IPCO, IPRP, IREF, MDAT, META, PITM};
use crate::hevc::{hvcc_of, tile_payloads};
use crate::isobmff::{
    DINF_BOX, IlocView, IpmaView, ItemView, MetaView, PIXI_RGB8_BOX, as_is, box_bytes, full_head,
    iloc_bytes, infe_bytes, ipma_entry_bytes, iref_bytes, ispe_bytes, pitm_bytes, source_meta,
};
use crate::output_laws::{
    built_properties, iprp_payload, lemma_associations_said, lemma_built_len, lemma_built_typed,
    lemma_constant_boxes, lemma_first_two, lemma_ispe_sized, lemma_items_typed,
    lemma_locations_typed, lemma_primary_typed, lemma_properties_typed, lemma_references_typed,
    lemma_tags, lemma_types, properties_in_boxes,
};
use crate::payload_laws::lemma_ascii_type;
use crate::reopened::{
    all_sized, built_counted_items, built_item_info, built_locations, built_primary,
    built_references, children_say, counted_iinf, is_first_of, lemma_built_is_sized,
    lemma_children_read_back, lemma_flat_same_len, lemma_iloc_len, lemma_part_len, says_item,
    says_items, says_locations, says_properties, says_references,
};
use crate::round_trip::{
    association_bytes, associations_fit, boxes_read_back, built_item, kept_ids, kept_references,
    lemma_parts, reference_fits, stored_extents, stored_location, stored_locations,
};
use crate::seqs::{flat, lemma_flat_add, lemma_flat_push, lemma_flat_take};
use vstd::prelude::*;
use vstd::string::*;
use vstd::utf8::*;

verus! {

// ---------------------------------------------------------------------------
// Runs
// ---------------------------------------------------------------------------

/// Two runs of equal parts are equal.
pub proof fn lemma_flat_equal<S, T>(
    x: Seq<S>,
    f: spec_fn(S) -> Seq<u8>,
    y: Seq<T>,
    g: spec_fn(T) -> Seq<u8>,
)
    requires
        x.len() == y.len(),
        forall|i: int| 0 <= i < x.len() ==> f(#[trigger] x[i]) == g(y[i]),
    ensures
        flat(x, f) == flat(y, g),
    decreases x.len(),
{
    if x.len() > 0 {
        let n = x.len() - 1;
        assert(f(x[n]) == g(y[n]));
        assert forall|i: int| 0 <= i < n implies f(#[trigger] x.drop_last()[i]) == g(
            y.drop_last()[i],
        ) by {
            assert(f(x[i]) == g(y[i]));
        }
        lemma_flat_equal(x.drop_last(), f, y.drop_last(), g);
    }
}

proof fn lemma_flat_pair<T>(a: T, b: T, f: spec_fn(T) -> Seq<u8>)
    ensures
        flat(seq![a, b], f) == f(a) + f(b),
{
    lemma_flat_push(Seq::<T>::empty(), f, a);
    lemma_flat_push(Seq::empty().push(a), f, b);
    assert(seq![a, b] =~= Seq::empty().push(a).push(b));
    assert(flat(Seq::<T>::empty(), f) + f(a) =~= f(a));
}

/// Two parts and a run behind a head.
proof fn lemma_head_and_pair(h: Seq<u8>, a: Seq<u8>, b: Seq<u8>, run: Seq<u8>)
    ensures
        h + a + b + run == h + ((a + b) + run),
{
    assert(h + a + b + run =~= h + ((a + b) + run));
}

proof fn lemma_five(a: Seq<u8>, b: Seq<u8>, c: Seq<u8>, d: Seq<u8>, e: Seq<u8>)
    ensures
        flat(seq![a, b, c, d, e], as_is()) == a + b + c + d + e,
{
    let s0 = Seq::<Seq<u8>>::empty();
    lemma_flat_push(s0, as_is(), a);
    lemma_flat_push(s0.push(a), as_is(), b);
    lemma_flat_push(s0.push(a).push(b), as_is(), c);
    lemma_flat_push(s0.push(a).push(b).push(c), as_is(), d);
    lemma_flat_push(s0.push(a).push(b).push(c).push(d), as_is(), e);
    assert(seq![a, b, c, d, e] =~= s0.push(a).push(b).push(c).push(d).push(e));
    assert(flat(s0, as_is()) + a =~= a);
}

proof fn lemma_three_more(run: Seq<Seq<u8>>, f: Seq<u8>, g: Seq<u8>, h: Seq<u8>)
    ensures
        flat(run + seq![f, g, h], as_is()) == flat(run, as_is()) + f + g + h,
{
    lemma_flat_push(run, as_is(), f);
    lemma_flat_push(run.push(f), as_is(), g);
    lemma_flat_push(run.push(f).push(g), as_is(), h);
    assert(run + seq![f, g, h] =~= run.push(f).push(g).push(h));
}

proof fn lemma_behind(z: Seq<u8>, a: Seq<u8>, b: Seq<u8>)
    ensures
        z + a + b == z + (a + b),
{
    assert(z + a + b =~= z + (a + b));
}

proof fn lemma_behind_eight(
    z: Seq<u8>,
    a: Seq<u8>,
    b: Seq<u8>,
    c: Seq<u8>,
    d: Seq<u8>,
    e: Seq<u8>,
    f: Seq<u8>,
    g: Seq<u8>,
    h: Seq<u8>,
)
    ensures
        z + a + b + c + d + e + f + g + h == z + (a + b + c + d + e + f + g + h),
{
    lemma_behind(z, a, b);
    lemma_behind(z, a + b, c);
    lemma_behind(z, a + b + c, d);
    lemma_behind(z, a + b + c + d, e);
    lemma_behind(z, a + b + c + d + e, f);
    lemma_behind(z, a + b + c + d + e + f, g);
    lemma_behind(z, a + b + c + d + e + f + g, h);
}

// ---------------------------------------------------------------------------
// Items, references and properties
// ---------------------------------------------------------------------------

/// The items of a tiled file.
pub open spec fn grid_items(n: nat) -> Seq<ItemView> {
    seq![built_item(1, "grid"@, 0), built_item(EXIF_ITEM, "Exif"@, 1)] + Seq::new(
        n,
        |i: int| built_item(tile_items(n)[i], "hvc1"@, 1),
    )
}

/// The item information boxes of a tiled file.
pub open spec fn grid_infes(n: nat) -> Seq<Seq<u8>> {
    seq![infe_bytes(1, "grid"@, 0), infe_bytes(EXIF_ITEM as int, "Exif"@, 1)] + Seq::new(
        n,
        |i: int| tile_infe()(tile_items(n)[i]),
    )
}

proof fn lemma_grid_iinf_form(n: nat)
    ensures
        grid_iinf(n) == counted_iinf(0, enc16(2int + n), grid_infes(n)),
{
    reveal(grid_iinf);
    let a = infe_bytes(1, "grid"@, 0);
    let b = infe_bytes(EXIF_ITEM as int, "Exif"@, 1);
    let rest = Seq::new(n, |i: int| tile_infe()(tile_items(n)[i]));
    lemma_flat_add(seq![a, b], rest, as_is());
    lemma_flat_pair(a, b, as_is());
    lemma_flat_equal(tile_items(n), tile_infe(), rest, as_is());
    let run = flat(rest, as_is());
    assert(zeros(4) =~= full_head(0));
    lemma_head_and_pair(zeros(4) + enc16(2int + n), a, b, run);
}

/// The item information box says the items of a tiled file.
proof fn lemma_grid_items_said(n: nat)
    requires
        n <= MAX_TILES,
        grid_iinf(n).len() <= u32::MAX,
    ensures
        says_items(grid_iinf(n), 0, grid_items(n)),
{
    lemma_grid_iinf_form(n);
    lemma_types();
    reveal_strlit("Exif");
    lemma_ascii_type("Exif"@);
    built_item_info(1, "grid"@, 0);
    built_item_info(EXIF_ITEM, "Exif"@, 1);
    let infes = grid_infes(n);
    let items = grid_items(n);
    assert forall|k: int| 0 <= k < infes.len() implies says_item(#[trigger] infes[k], items[k]) by {
        if k >= 2 {
            let id = tile_items(n)[k - 2];
            assert(infes[k] == tile_infe()(id));
            assert(items[k] == built_item(id, "hvc1"@, 1));
            built_item_info(id, "hvc1"@, 1);
        }
    }
    built_counted_items(0, enc16(2int + n), infes, items);
}

proof fn lemma_grid_references_said(n: nat)
    requires
        n <= MAX_TILES,
        iref_bytes(0, grid_refs(n)).len() <= u32::MAX,
    ensures
        says_references(iref_bytes(0, grid_refs(n)), grid_refs(n)),
{
    lemma_types();
    let refs = grid_refs(n);
    assert forall|i: int| 0 <= i < refs.len() implies reference_fits(#[trigger] refs[i]) by {
        assert(refs[0].to == tile_items(n));
    }
    built_references(0, refs);
    let kept = kept_references(refs, false);
    assert(kept_ids(tile_items(n), false) =~= tile_items(n));
    assert(kept_ids(seq![1u32], false) =~= seq![1u32]);
    assert(kept =~= refs);
}

/// The association of an item with all properties.
pub open spec fn shared_entry(id: u32) -> IpmaView {
    IpmaView { item_id: id, associations: shared_properties() }
}

/// The associations of a tiled file.
pub open spec fn grid_entries(n: nat) -> Seq<IpmaView> {
    seq![shared_entry(1), shared_entry(EXIF_ITEM)] + Seq::new(
        n,
        |i: int| shared_entry(tile_items(n)[i]),
    )
}

/// The property boxes of a tiled file.
pub open spec fn grid_property_boxes(hvcc: Seq<u8>, width: int, height: int) -> Seq<Seq<u8>> {
    seq![
        ispe_bytes(width, height),
        box_bytes(HVCC@, hvcc),
        ispe_bytes(TILE as int, TILE as int),
        PIXI_RGB8_BOX@,
        box_bytes(COLR@, LIMITED_NCLX@),
    ]
}

spec fn grid_ipma(n: nat) -> Seq<u8> {
    zeros(4) + enc32(grid_entries(n).len() as int) + flat(grid_entries(n), association_bytes(0))
}

proof fn lemma_grid_iprp_form(hvcc: Seq<u8>, width: int, height: int, n: nat)
    ensures
        grid_iprp(hvcc, width, height, n) == box_bytes(
            IPRP@,
            iprp_payload(grid_property_boxes(hvcc, width, height), grid_ipma(n)),
        ),
{
    reveal(grid_iprp);
    let e = grid_entries(n);
    let rest = Seq::new(n, |i: int| shared_entry(tile_items(n)[i]));
    let f = association_bytes(0);
    lemma_flat_add(seq![shared_entry(1), shared_entry(EXIF_ITEM)], rest, f);
    lemma_flat_pair(shared_entry(1), shared_entry(EXIF_ITEM), f);
    lemma_flat_equal(tile_items(n), tile_association(), rest, f);
    let a = ipma_entry_bytes(1, shared_properties(), 0);
    let b = ipma_entry_bytes(EXIF_ITEM as int, shared_properties(), 0);
    let run = flat(tile_items(n), tile_association());
    lemma_head_and_pair(zeros(4) + enc32(2int + n), a, b, run);
    lemma_five(
        ispe_bytes(width, height),
        box_bytes(HVCC@, hvcc),
        ispe_bytes(TILE as int, TILE as int),
        PIXI_RGB8_BOX@,
        box_bytes(COLR@, LIMITED_NCLX@),
    );
}

proof fn lemma_grid_properties_said(hvcc: Seq<u8>, width: int, height: int, n: nat)
    requires
        n <= MAX_TILES,
        grid_iprp(hvcc, width, height, n).len() <= u32::MAX,
    ensures
        says_properties(
            grid_iprp(hvcc, width, height, n),
            properties_in_boxes(grid_property_boxes(hvcc, width, height)),
            0,
            grid_entries(n),
        ),
{
    lemma_grid_iprp_form(hvcc, width, height, n);
    let boxes = grid_property_boxes(hvcc, width, height);
    let ipma = grid_ipma(n);
    let run = flat(boxes, as_is());
    lemma_built_len(IPRP@, iprp_payload(boxes, ipma));
    lemma_built_len(IPCO@, run);
    lemma_part_len(boxes, 1);
    assert(boxes[1] == box_bytes(HVCC@, hvcc));
    lemma_built_len(HVCC@, hvcc);
    lemma_ispe_sized(width, height);
    lemma_ispe_sized(TILE as int, TILE as int);
    lemma_built_is_sized(HVCC@, hvcc);
    lemma_built_is_sized(COLR@, LIMITED_NCLX@);
    lemma_constant_boxes();
    assert(all_sized(boxes));
    let entries = grid_entries(n);
    assert forall|i: int| 0 <= i < entries.len() implies associations_fit(
        #[trigger] entries[i],
        false,
    ) by {
        assert(entries[i].associations == shared_properties());
    }
    assert(be32(zeros(4), 0) == 0);
    lemma_associations_said(zeros(4), 0, entries);
    built_properties(boxes, ipma, 0, entries);
}

// ---------------------------------------------------------------------------
// Metadata
// ---------------------------------------------------------------------------

/// What a tiled file says.
pub open spec fn grid_view(hvcc: Seq<u8>, width: int, height: int, n: nat, entries: Seq<IlocView>) -> MetaView {
    MetaView {
        iloc_entries: entries,
        ipma_entries: grid_entries(n),
        ipma_flags: 0,
        items: grid_items(n),
        refs: grid_refs(n),
        props: properties_in_boxes(grid_property_boxes(hvcc, width, height)),
        primary_id: 1,
        pitm_version: 0,
        iinf_version: 0,
    }
}

/// The children of the metadata box of a tiled file.
pub open spec fn grid_children(hvcc: Seq<u8>, width: int, height: int, n: nat, iloc: Seq<u8>) -> Seq<
    Seq<u8>,
> {
    seq![
        box_bytes(HDLR@, PICT_HANDLER@),
        DINF_BOX@,
        pitm_bytes(0, 1),
        grid_iinf(n),
        iref_bytes(0, grid_refs(n)),
    ] + seq![grid_iprp(hvcc, width, height, n), box_bytes(IDAT@, Seq::empty()), iloc]
}

proof fn lemma_grid_meta_form(hvcc: Seq<u8>, width: int, height: int, n: nat, iloc: Seq<u8>)
    ensures
        grid_meta(hvcc, width, height, n, iloc) == box_bytes(
            META@,
            zeros(4) + flat(grid_children(hvcc, width, height, n, iloc), as_is()),
        ),
{
    reveal(grid_meta);
    let a = box_bytes(HDLR@, PICT_HANDLER@);
    let b = DINF_BOX@;
    let c = pitm_bytes(0, 1);
    let d = grid_iinf(n);
    let e = iref_bytes(0, grid_refs(n));
    let f = grid_iprp(hvcc, width, height, n);
    let g = box_bytes(IDAT@, Seq::empty());
    lemma_five(a, b, c, d, e);
    lemma_three_more(seq![a, b, c, d, e], f, g, iloc);
    lemma_behind_eight(zeros(4), a, b, c, d, e, f, g, iloc);
}

proof fn lemma_grid_says(
    hvcc: Seq<u8>,
    width: int,
    height: int,
    n: nat,
    iloc: Seq<u8>,
    entries: Seq<IlocView>,
)
    requires
        n <= MAX_TILES,
        flat(grid_children(hvcc, width, height, n, iloc), as_is()).len() <= u32::MAX,
        says_locations(iloc, entries),
    ensures
        children_say(
            grid_children(hvcc, width, height, n, iloc),
            grid_view(hvcc, width, height, n, entries),
        ),
{
    let boxes = grid_children(hvcc, width, height, n, iloc);
    let m = grid_view(hvcc, width, height, n, entries);
    lemma_part_len(boxes, 3);
    lemma_part_len(boxes, 4);
    lemma_part_len(boxes, 5);
    lemma_grid_items_said(n);
    lemma_grid_references_said(n);
    lemma_grid_properties_said(hvcc, width, height, n);
    built_primary(0, 1);
    lemma_locations_typed(iloc, entries);
    lemma_items_typed(boxes[3], 0, m.items);
    lemma_primary_typed(boxes[2], 0, 1);
    lemma_properties_typed(boxes[5], m.props, 0, m.ipma_entries);
    lemma_references_typed(boxes[4], m.refs);
    lemma_built_typed(HDLR@, PICT_HANDLER@);
    lemma_built_typed(IDAT@, Seq::empty());
    lemma_constant_boxes();
    lemma_tags();
    assert(all_sized(boxes));
    assert(is_first_of(boxes, PITM@, 2));
    assert(is_first_of(boxes, IINF@, 3));
    assert(is_first_of(boxes, IREF@, 4));
    assert(is_first_of(boxes, IPRP@, 5));
    assert(is_first_of(boxes, ILOC@, 7));
    reveal(children_say);
}

/// What is written of the locations is what is read of them.
proof fn lemma_grid_locations_stored(tiles: Seq<Seq<u8>>, base: int)
    requires
        tiles.len() <= MAX_TILES,
    ensures
        stored_locations(grid_locations(tiles, base)) == grid_locations(tiles, base),
        grid_locations(tiles, base).len() == tiles.len() + 2,
        forall|i: int|
            0 <= i < tiles.len() + 2 ==> (#[trigger] grid_locations(tiles, base)[i]).extents.len()
                == 1,
{
    let e = grid_locations(tiles, base);
    assert forall|i: int| 0 <= i < e.len() implies stored_location(#[trigger] e[i]) == e[i] by {
        assert(e[i].extents.len() == 1);
        assert(e[i].extents[0].0 < 0x1_0000_0000 && e[i].extents[0].1 < 0x1_0000_0000);
        assert(stored_extents(e[i].extents) =~= e[i].extents);
    }
    assert(stored_locations(e) =~= e);
}

/// A tiled file is read as it was built: a primary grid, an Exif item that describes it, and
/// the tiles that it is derived from, each with all properties.
#[verifier::rlimit(60)]
pub proof fn grids_read_back(hvcc: Seq<u8>, tiles: Seq<Seq<u8>>, width: int, height: int)
    requires
        tiles.len() <= MAX_TILES,
        grid_file(hvcc, tiles, width, height).len() <= u32::MAX,
    ensures
        source_meta(grid_file(hvcc, tiles, width, height)) == Some(
            Ok::<MetaView, Seq<char>>(
                grid_view(
                    hvcc,
                    width,
                    height,
                    tiles.len(),
                    grid_locations(tiles, grid_base(hvcc, tiles, width, height)),
                ),
            ),
        ),
{
    let n = tiles.len();
    let t = grid_file(hvcc, tiles, width, height);
    let entries = grid_locations(tiles, grid_base(hvcc, tiles, width, height));
    let iloc = iloc_bytes(entries);
    let boxes = grid_children(hvcc, width, height, n, iloc);
    let ftyp = box_bytes(FTYP@, HEIC_BRANDS@);
    let payload = zeros(4) + flat(boxes, as_is());
    lemma_grid_meta_form(hvcc, width, height, n, iloc);
    lemma_built_len(META@, payload);
    lemma_part_len(boxes, 7);
    assert(boxes[7] == iloc);
    lemma_grid_locations_stored(tiles, grid_base(hvcc, tiles, width, height));
    built_locations(entries);
    lemma_grid_says(hvcc, width, height, n, iloc, entries);
    lemma_built_typed(FTYP@, HEIC_BRANDS@);
    lemma_first_two(t, ftyp, payload, box_bytes(MDAT@, grid_media(tiles, width, height)));
    lemma_children_read_back(
        t,
        ftyp.len() as int,
        zeros(4),
        boxes,
        grid_view(hvcc, width, height, n, entries),
    );
}

// ---------------------------------------------------------------------------
// Payloads
// ---------------------------------------------------------------------------

/// The metadata of a tiled file is as long wherever its media lies.
proof fn lemma_grid_meta_len(hvcc: Seq<u8>, tiles: Seq<Seq<u8>>, width: int, height: int, base: int)
    requires
        tiles.len() <= MAX_TILES,
    ensures
        grid_meta(hvcc, width, height, tiles.len(), iloc_bytes(grid_locations(tiles, base))).len()
            == grid_meta(hvcc, width, height, tiles.len(), iloc_bytes(grid_locations(tiles, 0))).len(),
{
    let n = tiles.len();
    let x = iloc_bytes(grid_locations(tiles, base));
    let y = iloc_bytes(grid_locations(tiles, 0));
    lemma_grid_locations_stored(tiles, base);
    lemma_grid_locations_stored(tiles, 0);
    lemma_iloc_len(grid_locations(tiles, base), grid_locations(tiles, 0));
    lemma_grid_meta_form(hvcc, width, height, n, x);
    lemma_grid_meta_form(hvcc, width, height, n, y);
    let a = grid_children(hvcc, width, height, n, x);
    let b = grid_children(hvcc, width, height, n, y);
    lemma_flat_same_len(a, as_is(), b, as_is());
    lemma_built_len(META@, zeros(4) + flat(a, as_is()));
    lemma_built_len(META@, zeros(4) + flat(b, as_is()));
}

proof fn lemma_tile_in_run(t: Seq<u8>, tiles: Seq<Seq<u8>>, p: int, i: int)
    requires
        0 <= i < tiles.len(),
        occurs_at(t, flat(tiles, as_is()), p),
    ensures
        occurs_at(t, tiles[i], p + tiles_len(tiles.take(i))),
{
    let rest = tiles.skip(i + 1);
    assert(tiles =~= tiles.take(i + 1) + rest);
    lemma_flat_add(tiles.take(i + 1), rest, as_is());
    lemma_parts(t, flat(tiles.take(i + 1), as_is()), flat(rest, as_is()), p);
    lemma_flat_take(tiles, as_is(), i);
    lemma_parts(t, flat(tiles.take(i), as_is()), tiles[i], p);
}

/// The media of a tiled file lies at its base.
proof fn lemma_grid_media_at(hvcc: Seq<u8>, tiles: Seq<Seq<u8>>, width: int, height: int)
    requires
        tiles.len() <= MAX_TILES,
        grid_file(hvcc, tiles, width, height).len() <= u32::MAX,
    ensures
        occurs_at(
            grid_file(hvcc, tiles, width, height),
            grid_media(tiles, width, height),
            grid_base(hvcc, tiles, width, height),
        ),
{
    let t = grid_file(hvcc, tiles, width, height);
    let base = grid_base(hvcc, tiles, width, height);
    let ftyp = box_bytes(FTYP@, HEIC_BRANDS@);
    let meta = grid_meta(
        hvcc,
        width,
        height,
        tiles.len(),
        iloc_bytes(grid_locations(tiles, base)),
    );
    let media = grid_media(tiles, width, height);
    assert(t.subrange(0, t.len() as int) =~= t);
    lemma_parts(t, ftyp + meta, box_bytes(MDAT@, media), 0);
    lemma_built_len(FTYP@, HEIC_BRANDS@);
    lemma_built_len(MDAT@, media);
    lemma_grid_meta_len(hvcc, tiles, width, height, base);
    boxes_read_back(t, base - 8, t.len() as int, MDAT@, media);
}

/// The grid item, the tiles and the Exif item lie one behind the other.
proof fn lemma_grid_media_parts(t: Seq<u8>, tiles: Seq<Seq<u8>>, width: int, height: int, base: int)
    requires
        occurs_at(t, grid_media(tiles, width, height), base),
    ensures
        occurs_at(t, grid_item(tiles_across(height), tiles_across(width), width, height), base),
        occurs_at(t, flat(tiles, as_is()), base + 14),
        occurs_at(t, EMPTY_EXIF@, base + 14 + tiles_len(tiles)),
{
    let item = grid_item(tiles_across(height), tiles_across(width), width, height);
    let run = flat(tiles, as_is());
    assert(item.len() == 14);
    lemma_parts(t, item + run, EMPTY_EXIF@, base);
    lemma_parts(t, item, run, base);
}

/// Whether an item lies in one piece, its bytes `b`, where a location says.
pub open spec fn stands_at(t: Seq<u8>, e: IlocView, id: int, b: Seq<u8>) -> bool {
    &&& e.item_id == id
    &&& e.extents.len() == 1
    &&& e.extents[0].1 == b.len()
    &&& occurs_at(t, b, e.extents[0].0 as int)
}

proof fn lemma_stands_at(t: Seq<u8>, id: u32, b: Seq<u8>, offset: int)
    requires
        occurs_at(t, b, offset),
        t.len() <= u32::MAX,
    ensures
        stands_at(t, one_piece(id, offset, b.len() as int), id as int, b),
{
}

/// The bytes of the grid item, of each tile and of the Exif item stand in a tiled file where
/// it says that they lie.
#[verifier::rlimit(60)]
pub proof fn grid_payloads_stand(hvcc: Seq<u8>, tiles: Seq<Seq<u8>>, width: int, height: int)
    requires
        tiles.len() <= MAX_TILES,
        grid_file(hvcc, tiles, width, height).len() <= u32::MAX,
    ensures
        ({
            let t = grid_file(hvcc, tiles, width, height);
            let e = grid_locations(tiles, grid_base(hvcc, tiles, width, height));
            &&& stands_at(
                t,
                e[0],
                1,
                grid_item(tiles_across(height), tiles_across(width), width, height),
            )
            &&& stands_at(t, e[1], EXIF_ITEM as int, EMPTY_EXIF@)
            &&& forall|i: int|
                #![trigger tiles[i]]
                0 <= i < tiles.len() ==> stands_at(t, e[i + 2], FIRST_TILE + i, tiles[i])
        }),
{
    let t = grid_file(hvcc, tiles, width, height);
    let base = grid_base(hvcc, tiles, width, height);
    let e = grid_locations(tiles, base);
    let item = grid_item(tiles_across(height), tiles_across(width), width, height);
    lemma_grid_media_at(hvcc, tiles, width, height);
    lemma_grid_media_parts(t, tiles, width, height, base);
    lemma_stands_at(t, 1, item, base);
    lemma_stands_at(t, EXIF_ITEM, EMPTY_EXIF@, base + 14 + tiles_len(tiles));
    assert forall|i: int| #![trigger tiles[i]] 0 <= i < tiles.len() implies stands_at(
        t,
        e[i + 2],
        FIRST_TILE + i,
        tiles[i],
    ) by {
        lemma_tile_in_run(t, tiles, base + 14, i);
        lemma_stands_at(
            t,
            (FIRST_TILE + i) as u32,
            tiles[i],
            base + 14 + tiles_len(tiles.take(i)),
        );
    }
}

/// A tiled file that was built of encoded tiles says so when it is read: its items, with
/// the decoder configuration of the first tile among their properties, and where the stored
/// form of each tile lies.
pub proof fn built_grids_read_back(streams: Seq<Seq<u8>>, width: u32, height: u32, g: GridView)
    requires
        heic_grid(streams, width, height) == Some(Ok::<GridView, Seq<char>>(g)),
        g.data.len() <= u32::MAX,
    ensures
        ({
            let hvcc = hvcc_of(streams[0], 1)->0;
            let tiles = tile_payloads(streams);
            let e = grid_locations(tiles, grid_base(hvcc, tiles, width as int, height as int));
            &&& source_meta(g.data) == Some(
                Ok::<MetaView, Seq<char>>(
                    grid_view(hvcc, width as int, height as int, streams.len(), e),
                ),
            )
            &&& forall|i: int|
                #![trigger tiles[i]]
                0 <= i < streams.len() ==> stands_at(g.data, e[i + 2], FIRST_TILE + i, tiles[i])
        }),
{
    let hvcc = hvcc_of(streams[0], 1)->0;
    let tiles = tile_payloads(streams);
    grids_read_back(hvcc, tiles, width as int, height as int);
    grid_payloads_stand(hvcc, tiles, width as int, height as int);
}

} // verus!
