//! Where an assembled output holds the tiles, the gain map's data and the source's media.

use crate::assemble::{
    ConfigView, GainView, PartsView, SourceView, box_payload, config_for, idat_extent, iso_output,
    media_for, meta_with, output_bytes, output_file, output_idat, output_kid, output_locations,
    output_meta, output_parts, output_start, patched_extents, placeholder_locations,
    property_number, repointed, source_locations, source_structure, tiles_placed,
};
use crate::bytes::{enc32, occurs_at};
use crate::container::{OppoCameraTail, file_tail_under};
use crate::exif::{
    ExifOrientation, OppoCompat, OppoUserCommentPatch, adjusted_extent, exif_location,
    exif_with_comment, item_payload_from, item_payload_of, patched_media,
};
use crate::fourcc::{DINF, FTYP, MDAT, META};
use crate::isobmff::{
    BoxView, IlocView, as_is, box_bytes, box_within, boxes_in, first_box, ftyp_bytes, grid_payload,
    iloc_bytes, lemma_boxes_within, source_meta,
};
use crate::isobmff_write::idat_box;
use crate::items::iloc_for;
use crate::output_laws::{
    assembled_output_reads_back, lemma_output_counts, lemma_output_idat_at, lemma_source_view,
    output_entry_locations, output_fits, same_counts, source_view,
};
use crate::payload_laws::{names_media, same_bytes};
use crate::rebuild::{iloc_index, moved, single_extent};
use crate::reopened::{
    extents_counted, lemma_entries_count, lemma_first_index, lemma_flat_same_len, lemma_iloc_index,
    lemma_iloc_len, sized_metadata,
};
use crate::round_trip::{lemma_parts, stored_extent, stored_location, stored_locations};
use crate::seqs::{first_where, flat, lemma_first_where_at, lemma_flat_add, lemma_flat_take};
use vstd::prelude::*;

verus! {

// ---------------------------------------------------------------------------
// Locations
// ---------------------------------------------------------------------------

/// The extent of the source at its new place.
pub open spec fn moved_extent(
    x: (u64, u64),
    patch: Option<OppoUserCommentPatch>,
    old: int,
    new: int,
) -> Option<(u64, u64)> {
    match adjusted_extent(x.0, x.1, patch) {
        None => None,
        Some((offset, length)) => Some((moved(offset, old, new), length)),
    }
}

proof fn lemma_patched_extents(
    x: Seq<(u64, u64)>,
    patch: Option<OppoUserCommentPatch>,
    old: int,
    new: int,
    i: int,
    acc: Seq<(u64, u64)>,
)
    requires
        0 <= i <= x.len(),
        acc.len() == i,
        forall|k: int|
            0 <= k < i ==> moved_extent(x[k], patch, old, new) == Some(#[trigger] acc[k]),
    ensures
        patched_extents(x, patch, old, new, i, acc) matches Some(y) ==> y.len() == x.len()
            && forall|k: int|
            0 <= k < x.len() ==> moved_extent(x[k], patch, old, new) == Some(#[trigger] y[k]),
    decreases x.len() - i,
{
    if i < x.len() {
        match adjusted_extent(x[i].0, x[i].1, patch) {
            None => {},
            Some((offset, length)) => {
                lemma_patched_extents(
                    x,
                    patch,
                    old,
                    new,
                    i + 1,
                    acc.push((moved(offset, old, new), length)),
                );
            },
        }
    }
}

/// Whether `y` is the location `e` of the source at its new place.
pub open spec fn is_moved_location(
    e: IlocView,
    y: IlocView,
    patch: Option<OppoUserCommentPatch>,
    old: int,
    new: int,
) -> bool {
    &&& y == (IlocView { extents: y.extents, ..e })
    &&& y.extents.len() == e.extents.len()
    &&& e.construction_method != 0 ==> y == e
    &&& e.construction_method == 0 ==> forall|k: int|
        0 <= k < e.extents.len() ==> moved_extent(e.extents[k], patch, old, new) == Some(
            #[trigger] y.extents[k],
        )
}

proof fn lemma_source_locations(
    entries: Seq<IlocView>,
    patch: Option<OppoUserCommentPatch>,
    old: int,
    new: int,
    i: int,
    acc: Seq<IlocView>,
)
    requires
        0 <= i <= entries.len(),
        acc.len() == i,
        forall|k: int|
            0 <= k < i ==> is_moved_location(entries[k], #[trigger] acc[k], patch, old, new),
    ensures
        source_locations(entries, patch, old, new, i, acc) matches Some(y) ==> y.len()
            == entries.len() && forall|k: int|
            0 <= k < y.len() ==> is_moved_location(entries[k], #[trigger] y[k], patch, old, new),
    decreases entries.len() - i,
{
    if i < entries.len() {
        let e = entries[i];
        if e.construction_method != 0 {
            lemma_source_locations(entries, patch, old, new, i + 1, acc.push(e));
        } else {
            lemma_patched_extents(e.extents, patch, old, new, 0, Seq::empty());
            match patched_extents(e.extents, patch, old, new, 0, Seq::empty()) {
                None => {},
                Some(extents) => {
                    let f = IlocView { extents, ..e };
                    assert(is_moved_location(e, f, patch, old, new));
                    lemma_source_locations(entries, patch, old, new, i + 1, acc.push(f));
                },
            }
        }
    }
}

/// Where the `k`-th tile stands behind `offset`.
pub open spec fn tile_place(tiles: Seq<Seq<u8>>, offset: int, k: int) -> int {
    offset + flat(tiles.take(k), as_is()).len()
}

/// Whether the locations from the `n`-th on are those of the tiles, and no location
/// before them has the number of a tile.
pub open spec fn tiles_stand_at(entries: Seq<IlocView>, ids: Seq<u32>, n: int) -> bool {
    &&& 0 <= n
    &&& n + ids.len() <= entries.len()
    &&& forall|k: int| 0 <= k < ids.len() ==> entries[n + k].item_id == #[trigger] ids[k]
    &&& forall|i: int, k: int|
        0 <= i < n && 0 <= k < ids.len() ==> (#[trigger] entries[i]).item_id != #[trigger] ids[k]
    &&& forall|j: int, k: int|
        0 <= j < k < ids.len() ==> #[trigger] ids[j] != #[trigger] ids[k]
}

proof fn lemma_index_of_tile(entries: Seq<IlocView>, ids: Seq<u32>, n: int, k: int)
    requires
        tiles_stand_at(entries, ids, n),
        0 <= k < ids.len(),
    ensures
        iloc_index(entries, ids[k], 0) == Some(n + k),
{
    lemma_iloc_index(entries, ids[k], 0);
    match iloc_index(entries, ids[k], 0) {
        None => {
            assert(entries[n + k].item_id == ids[k]);
        },
        Some(i) => {
            assert(entries[n + k].item_id == ids[k]);
            if i < n {
                assert(entries[i].item_id != ids[k]);
            } else if i < n + k {
                let j = i - n;
                assert(entries[n + j].item_id == ids[j]);
                assert(ids[j] != ids[k]);
            }
        },
    }
}

proof fn lemma_tiles_placed(
    entries: Seq<IlocView>,
    ids: Seq<u32>,
    tiles: Seq<Seq<u8>>,
    offset: int,
    i: int,
    n: int,
)
    requires
        ids.len() == tiles.len(),
        0 <= i <= tiles.len(),
        tiles_stand_at(entries, ids, n),
    ensures
        ({
            let r = tiles_placed(entries, ids, tiles, tile_place(tiles, offset, i), i);
            &&& r.len() == entries.len()
            &&& forall|j: int|
                0 <= j < r.len() && !(n + i <= j < n + ids.len()) ==> #[trigger] r[j] == entries[j]
            &&& forall|k: int|
                i <= k < ids.len() ==> #[trigger] r[n + k] == (IlocView {
                    extents: seq![
                        (tile_place(tiles, offset, k) as u64, tiles[k].len() as u64),
                    ],
                    ..entries[n + k]
                })
        }),
    decreases tiles.len() - i,
{
    if i < tiles.len() {
        let here = tile_place(tiles, offset, i);
        let next = repointed(entries, ids[i], here, tiles[i].len() as int);
        lemma_index_of_tile(entries, ids, n, i);
        lemma_flat_take(tiles, as_is(), i);
        assert(tile_place(tiles, offset, i + 1) == here + tiles[i].len());
        assert(tiles_stand_at(next, ids, n));
        lemma_tiles_placed(next, ids, tiles, offset, i + 1, n);
        let r = tiles_placed(next, ids, tiles, tile_place(tiles, offset, i + 1), i + 1);
        assert(r[n + i] == next[n + i]);
        assert forall|k: int| i <= k < ids.len() implies #[trigger] r[n + k] == (IlocView {
            extents: seq![(tile_place(tiles, offset, k) as u64, tiles[k].len() as u64)],
            ..entries[n + k]
        }) by {
            if k > i {
                assert(next[n + k] == entries[n + k]);
            }
        }
        assert forall|j: int| 0 <= j < r.len() && !(n + i <= j < n + ids.len()) implies
            #[trigger] r[j] == entries[j] by {
            assert(next[j] == entries[j]);
        }
    }
}

/// Whether no location of the source can be taken for that of an added item, also when
/// item numbers are cut to 16 bits.
pub open spec fn numbers_unused(src: SourceView, c: ConfigView) -> bool {
    forall|i: int|
        0 <= i < src.iloc_entries.len() ==> {
            let id = (#[trigger] src.iloc_entries[i]).item_id as int % 0x1_0000;
            &&& src.iloc_entries[i].item_id < c.gain_grid_id
            &&& id < c.gain_grid_id
            &&& forall|k: int| 0 <= k < c.tile_ids.len() ==> id != #[trigger] c.tile_ids[k]
                && src.iloc_entries[i].item_id != c.tile_ids[k]
        }
}

/// Whether the added items have numbers of their own, in order.
pub open spec fn numbers_ordered(c: ConfigView) -> bool {
    &&& c.tile_ids.len() == c.tiles.len()
    &&& forall|j: int, k: int|
        0 <= j < k < c.tile_ids.len() ==> #[trigger] c.tile_ids[j] < #[trigger] c.tile_ids[k]
    &&& forall|k: int| 0 <= k < c.tile_ids.len() ==> #[trigger] c.tile_ids[k] < c.gain_grid_id
    &&& c.gain_grid_id < c.tmap_id < c.xmp_id < 0x1_0000
}

/// The locations of an output: the source's at their new places, the tiles one after the
/// other behind the media, and the gain grid, the tmap and the XMP in the idat box.
proof fn lemma_output_locations(
    src: SourceView,
    c: ConfigView,
    idat: int,
    patch: Option<OppoUserCommentPatch>,
    old: int,
    start: int,
    media_len: int,
    entries: Seq<IlocView>,
)
    requires
        numbers_ordered(c),
        numbers_unused(src, c),
        output_locations(
            src,
            c,
            placeholder_locations(src, c, idat),
            patch,
            old,
            start,
            media_len,
        ) == Some(entries),
    ensures
        ({
            let n = src.iloc_entries.len() as int;
            let m = c.tiles.len() as int;
            let first = placeholder_locations(src, c, idat);
            &&& same_counts(entries, first)
            &&& entries.len() == n + m + 3
            &&& forall|i: int|
                0 <= i < n ==> is_moved_location(
                    src.iloc_entries[i],
                    #[trigger] entries[i],
                    patch,
                    old,
                    start,
                )
            &&& forall|k: int|
                0 <= k < m ==> #[trigger] entries[n + k] == single_extent(
                    c.tile_ids[k],
                    tile_place(c.tiles, start + media_len, k) as u64,
                    c.tiles[k].len() as u64,
                )
            &&& entries[n + m] == idat_extent(c.gain_grid_id, idat, 8)
            &&& entries[n + m + 1] == idat_extent(
                c.tmap_id,
                idat + 8,
                c.tmap_payload.len() as int,
            )
            &&& entries[n + m + 2] == idat_extent(
                c.xmp_id,
                idat + 8 + c.tmap_payload.len(),
                c.xmp.len() as int,
            )
        }),
{
    reveal(placeholder_locations);
    let first = placeholder_locations(src, c, idat);
    let n = src.iloc_entries.len() as int;
    let m = c.tiles.len() as int;
    lemma_source_locations(src.iloc_entries, patch, old, start, 0, Seq::empty());
    let located = source_locations(src.iloc_entries, patch, old, start, 0, Seq::empty())->0;
    let all = located + first.skip(n);
    assert(all.len() == n + m + 3);
    assert forall|j: int| n <= j < all.len() implies #[trigger] all[j] == first[j] by {}
    assert forall|k: int| 0 <= k < m implies #[trigger] all[n + k] == single_extent(
        c.tile_ids[k],
        0,
        c.tiles[k].len() as u64,
    ) by {}
    assert(tiles_stand_at(all, c.tile_ids, n)) by {
        assert forall|k: int| 0 <= k < c.tile_ids.len() implies all[n + k].item_id
            == #[trigger] c.tile_ids[k] by {
            assert(all[n + k] == single_extent(c.tile_ids[k], 0, c.tiles[k].len() as u64));
        }
        assert forall|i: int, k: int|
            0 <= i < n && 0 <= k < c.tile_ids.len() implies (#[trigger] all[i]).item_id
            != #[trigger] c.tile_ids[k] by {
            assert(all[i] == located[i]);
            assert(is_moved_location(src.iloc_entries[i], located[i], patch, old, start));
            assert(src.iloc_entries[i].item_id != c.tile_ids[k]);
        }
        assert forall|j: int, k: int| 0 <= j < k < c.tile_ids.len() implies #[trigger] c.tile_ids[j]
            != #[trigger] c.tile_ids[k] by {}
    }
    lemma_tiles_placed(all, c.tile_ids, c.tiles, start + media_len, 0, n);
    assert(c.tiles.take(0) =~= Seq::empty());
    assert(tile_place(c.tiles, start + media_len, 0) == start + media_len);
    assert forall|i: int| 0 <= i < n implies is_moved_location(
        src.iloc_entries[i],
        #[trigger] entries[i],
        patch,
        old,
        start,
    ) by {
        assert(entries[i] == all[i]);
        assert(all[i] == located[i]);
    }
    assert forall|k: int| 0 <= k < m implies #[trigger] entries[n + k] == single_extent(
        c.tile_ids[k],
        tile_place(c.tiles, start + media_len, k) as u64,
        c.tiles[k].len() as u64,
    ) by {
        assert(all[n + k] == single_extent(c.tile_ids[k], 0, c.tiles[k].len() as u64));
    }
    assert(entries[n + m] == all[n + m]);
    assert(entries[n + m + 1] == all[n + m + 1]);
    assert(entries[n + m + 2] == all[n + m + 2]);
    assert forall|i: int| 0 <= i < entries.len() implies (#[trigger] entries[i]).extents.len()
        == first[i].extents.len() by {
        if i < n {
            assert(is_moved_location(src.iloc_entries[i], entries[i], patch, old, start));
            assert(first[i] == src.iloc_entries[i]);
        } else if i < n + m {
            let k = i - n;
            assert(entries[n + k].extents.len() == 1);
            assert(first[n + k] == all[n + k]);
        } else {
            assert(entries[i] == all[i]);
        }
    }
}

// ---------------------------------------------------------------------------
// Places
// ---------------------------------------------------------------------------

proof fn lemma_meta_len(
    s: Seq<u8>,
    meta: BoxView,
    m: PartsView,
    x: Seq<IlocView>,
    y: Seq<IlocView>,
)
    requires
        same_counts(x, y),
    ensures
        meta_with(s, meta, m, x).len() == meta_with(s, meta, m, y).len(),
{
    reveal(output_meta);
    lemma_iloc_len(x, y);
    let kids = boxes_in(s, meta.data_start + 4, meta.data_end);
    let has_dinf = first_box(kids, DINF@) is Some;
    let f = output_kid(s, has_dinf, m.pitm, m.iinf, iloc_bytes(x), m.iprp, m.iref, m.idat);
    let g = output_kid(s, has_dinf, m.pitm, m.iinf, iloc_bytes(y), m.iprp, m.iref, m.idat);
    lemma_flat_same_len(kids, f, kids, g);
    reveal(box_bytes);
}

/// The media and the tiles stand where the locations are reckoned from.
proof fn lemma_output_layout(
    s: Seq<u8>,
    ftyp: BoxView,
    meta: BoxView,
    mdat: BoxView,
    m: PartsView,
    first: Seq<IlocView>,
    entries: Seq<IlocView>,
    media: Seq<u8>,
    c: ConfigView,
)
    requires
        same_counts(entries, first),
        0 <= meta.data_end <= mdat.box_start <= s.len(),
    ensures
        ({
            let t = output_bytes(s, ftyp, meta, mdat, m, entries, media, c);
            let start = output_start(s, ftyp, meta, mdat, m, first);
            &&& occurs_at(t, media, start)
            &&& occurs_at(t, flat(c.tiles, as_is()), start + media.len())
        }),
{
    let t = output_bytes(s, ftyp, meta, mdat, m, entries, media, c);
    let start = output_start(s, ftyp, meta, mdat, m, first);
    let front = ftyp_bytes(s.subrange(ftyp.data_start, ftyp.data_end));
    let whole = meta_with(s, meta, m, entries);
    let between = s.subrange(meta.data_end, mdat.box_start);
    let body = media + flat(c.tiles, as_is());
    let last = box_bytes(MDAT@, body);
    let tail = match file_tail_under(s, c.tail_policy) {
        Some(tail) => tail,
        None => Seq::empty(),
    };
    lemma_meta_len(s, meta, m, entries, first);
    assert(t.subrange(0, t.len() as int) =~= t);
    lemma_parts(t, front + whole + between + last, tail, 0);
    lemma_parts(t, front + whole + between, last, 0);
    let header = enc32(body.len() as int + 8) + MDAT@;
    assert(last == header + body) by {
        reveal(box_bytes);
    }
    lemma_parts(t, header, body, start - 8);
    lemma_parts(t, media, flat(c.tiles, as_is()), start);
}

/// A tile stands in the tiles that follow each other.
proof fn lemma_tile_stands(t: Seq<u8>, tiles: Seq<Seq<u8>>, offset: int, k: int)
    requires
        0 <= k < tiles.len(),
        occurs_at(t, flat(tiles, as_is()), offset),
    ensures
        occurs_at(t, tiles[k], tile_place(tiles, offset, k)),
{
    lemma_flat_take(tiles, as_is(), k);
    assert(tiles =~= tiles.take(k + 1) + tiles.skip(k + 1));
    lemma_flat_add(tiles.take(k + 1), tiles.skip(k + 1), as_is());
    let before = flat(tiles.take(k), as_is());
    lemma_parts(t, before + tiles[k], flat(tiles.skip(k + 1), as_is()), offset);
    lemma_parts(t, before, tiles[k], offset);
}

// ---------------------------------------------------------------------------
// What is read of an output
// ---------------------------------------------------------------------------

/// Whether `t` is the output of a well-formed source and what was added to it, in which
/// the added items have numbers of their own and all numbers fit.
#[verifier::opaque]
pub open spec fn is_output(
    s: Seq<u8>,
    ftyp: BoxView,
    meta: BoxView,
    mdat: BoxView,
    src: SourceView,
    media: Seq<u8>,
    patch: Option<OppoUserCommentPatch>,
    orientation: ExifOrientation,
    c: ConfigView,
    t: Seq<u8>,
) -> bool {
    &&& first_box(boxes_in(s, 0, s.len() as int), FTYP@) == Some(ftyp)
    &&& first_box(boxes_in(s, 0, s.len() as int), META@) == Some(meta)
    &&& first_box(boxes_in(s, 0, s.len() as int), MDAT@) == Some(mdat)
    &&& source_structure(s, meta) == Some(Ok::<SourceView, Seq<char>>(src))
    &&& property_number(src, src.primary_id, "ispe"@) matches Some(ispe) && output_fits(
        s,
        src,
        c,
        ispe,
    )
    &&& numbers_ordered(c)
    &&& numbers_unused(src, c)
    &&& output_file(s, ftyp, meta, mdat, src, media, patch, orientation, c) == Some(
        Ok::<Seq<u8>, Seq<char>>(t),
    )
    &&& t.len() <= u32::MAX
}

/// The payload of an item of a file, read through its location.
pub open spec fn payload_in(t: Seq<u8>, id: u32) -> Option<Seq<u8>> {
    match source_meta(t) {
        Some(Ok(n)) => match first_where(n.iloc_entries, iloc_for(id)) {
            Some(e) => match item_payload_of(t, e, idat_box(t)) {
                Ok(payload) => Some(payload),
                Err(_) => None,
            },
            None => None,
        },
        _ => None,
    }
}

/// Where the parts of an output stand, and what is read of its locations.
proof fn lemma_output_places(
    s: Seq<u8>,
    ftyp: BoxView,
    meta: BoxView,
    mdat: BoxView,
    src: SourceView,
    media: Seq<u8>,
    patch: Option<OppoUserCommentPatch>,
    orientation: ExifOrientation,
    c: ConfigView,
    t: Seq<u8>,
) -> (r: (Seq<IlocView>, int))
    requires
        is_output(s, ftyp, meta, mdat, src, media, patch, orientation, c, t),
    ensures
        ({
            let (entries, start) = r;
            let idat = box_payload(s, src.idat).len() as int;
            &&& numbers_ordered(c)
            &&& numbers_unused(src, c)
            &&& t.len() <= u32::MAX
            &&& source_meta(t) matches Some(Ok(n)) && n.iloc_entries == stored_locations(entries)
            &&& output_locations(
                src,
                c,
                placeholder_locations(src, c, idat),
                patch,
                mdat.data_start,
                start,
                media.len() as int,
            ) == Some(entries)
            &&& 0 <= start
            &&& occurs_at(t, media, start)
            &&& occurs_at(t, flat(c.tiles, as_is()), start + media.len())
            &&& idat_box(t) matches Some(b) && 0 <= b.data_start && occurs_at(
                t,
                output_idat(s, src, c),
                b.data_start,
            )
        }),
{
    reveal(is_output);
    let ispe = property_number(src, src.primary_id, "ispe"@)->0;
    let m = output_parts(s, src, c, orientation, ispe);
    let idat = box_payload(s, src.idat).len() as int;
    let first = placeholder_locations(src, c, idat);
    let start = output_start(s, ftyp, meta, mdat, m, first);
    let entries = output_entry_locations(s, ftyp, meta, mdat, src, media, patch, orientation, c);
    assembled_output_reads_back(s, ftyp, meta, mdat, src, media, patch, orientation, c, t);
    lemma_output_locations(
        src,
        c,
        idat,
        patch,
        mdat.data_start,
        start,
        media.len() as int,
        entries,
    );
    lemma_boxes_within(s, 0, s.len() as int);
    lemma_first_index(boxes_in(s, 0, s.len() as int), MDAT@);
    lemma_first_index(boxes_in(s, 0, s.len() as int), META@);
    lemma_output_layout(s, ftyp, meta, mdat, m, first, entries, media, c);
    lemma_counts_of_source(s, meta, src);
    lemma_output_counts(src, c, idat, patch, mdat.data_start, start, media.len() as int);
    lemma_output_idat_at(s, ftyp, meta, mdat, src, c, orientation, ispe, entries, media, t);
    (entries, start)
}

proof fn lemma_counts_of_source(s: Seq<u8>, meta: BoxView, src: SourceView)
    requires
        sized_metadata(s),
        first_box(boxes_in(s, 0, s.len() as int), META@) == Some(meta),
        source_structure(s, meta) == Some(Ok::<SourceView, Seq<char>>(src)),
    ensures
        extents_counted(src.iloc_entries),
{
    lemma_source_view(s, meta, src);
    lemma_entries_count(s, source_view(src));
}

/// A location in the file with one extent gives what stands there.
proof fn lemma_one_extent(t: Seq<u8>, e: IlocView, payload: Seq<u8>, at: int)
    requires
        t.len() <= u32::MAX,
        occurs_at(t, payload, at),
        e == single_extent(e.item_id, at as u64, payload.len() as u64),
    ensures
        item_payload_of(t, e, idat_box(t)) == Ok::<Seq<u8>, Seq<char>>(payload),
{
    assert(e.extents[0] == (at as u64, payload.len() as u64));
    assert(Seq::<u8>::empty() + t.subrange(at, at + payload.len()) =~= payload);
    reveal_with_fuel(item_payload_from, 2);
}

/// A location in the idat box with one extent gives what stands there.
proof fn lemma_one_idat_extent(t: Seq<u8>, e: IlocView, payload: Seq<u8>, at: int)
    requires
        t.len() <= u32::MAX,
        idat_box(t) matches Some(b) && 0 <= b.data_start && occurs_at(t, payload, b.data_start + at),
        0 <= at,
        e == idat_extent(e.item_id, at, payload.len() as int),
    ensures
        item_payload_of(t, e, idat_box(t)) == Ok::<Seq<u8>, Seq<char>>(payload),
{
    let p = idat_box(t)->0.data_start + at;
    assert(e.extents[0] == (at as u64, payload.len() as u64));
    assert(Seq::<u8>::empty() + t.subrange(p, p + payload.len()) =~= payload);
    reveal_with_fuel(item_payload_from, 2);
}

/// Every tile of the gain map is read back from an output through its item's location,
/// byte for byte.
pub proof fn tiles_read_back(
    s: Seq<u8>,
    ftyp: BoxView,
    meta: BoxView,
    mdat: BoxView,
    src: SourceView,
    media: Seq<u8>,
    patch: Option<OppoUserCommentPatch>,
    orientation: ExifOrientation,
    c: ConfigView,
    t: Seq<u8>,
    k: int,
)
    requires
        is_output(s, ftyp, meta, mdat, src, media, patch, orientation, c, t),
        0 <= k < c.tiles.len(),
    ensures
        payload_in(t, c.tile_ids[k]) == Some(c.tiles[k]),
{
    let (entries, start) = lemma_output_places(
        s,
        ftyp,
        meta,
        mdat,
        src,
        media,
        patch,
        orientation,
        c,
        t,
    );
    let at = tile_place(c.tiles, start + media.len(), k);
    lemma_tile_stands(t, c.tiles, start + media.len(), k);
    lemma_tile_location(
        src,
        c,
        box_payload(s, src.idat).len() as int,
        patch,
        mdat.data_start,
        start,
        media.len() as int,
        entries,
        k,
    );
    let e = single_extent(c.tile_ids[k], at as u64, c.tiles[k].len() as u64);
    lemma_one_extent(t, e, c.tiles[k], at);
}

/// The first location of a tile's number is where the tile was placed.
proof fn lemma_tile_location(
    src: SourceView,
    c: ConfigView,
    idat: int,
    patch: Option<OppoUserCommentPatch>,
    old: int,
    start: int,
    media_len: int,
    entries: Seq<IlocView>,
    k: int,
)
    requires
        numbers_ordered(c),
        numbers_unused(src, c),
        output_locations(
            src,
            c,
            placeholder_locations(src, c, idat),
            patch,
            old,
            start,
            media_len,
        ) == Some(entries),
        0 <= k < c.tiles.len(),
        0 <= tile_place(c.tiles, start + media_len, k) <= u32::MAX,
        c.tiles[k].len() <= u32::MAX,
    ensures
        first_where(stored_locations(entries), iloc_for(c.tile_ids[k])) == Some(
            single_extent(
                c.tile_ids[k],
                tile_place(c.tiles, start + media_len, k) as u64,
                c.tiles[k].len() as u64,
            ),
        ),
{
    let n = src.iloc_entries.len() as int;
    lemma_output_locations(src, c, idat, patch, old, start, media_len, entries);
    let id = c.tile_ids[k];
    let at = tile_place(c.tiles, start + media_len, k);
    let st = stored_locations(entries);
    assert(entries[n + k] == single_extent(id, at as u64, c.tiles[k].len() as u64));
    assert(st[n + k] == stored_location(entries[n + k]));
    assert(st[n + k].extents =~= seq![(at as u64, c.tiles[k].len() as u64)]);
    assert(st[n + k] == single_extent(id, at as u64, c.tiles[k].len() as u64));
    assert forall|j: int| 0 <= j < n + k implies !iloc_for(id)(#[trigger] st[j]) by {
        if j < n {
            assert(is_moved_location(src.iloc_entries[j], entries[j], patch, old, start));
            assert(src.iloc_entries[j].item_id as int % 0x1_0000 != c.tile_ids[k]);
        } else {
            let i = j - n;
            assert(entries[n + i].item_id == c.tile_ids[i]);
            assert(c.tile_ids[i] < c.tile_ids[k]);
        }
    }
    lemma_first_where_at(st, iloc_for(id), n + k);
}

/// The gain grid, the parameters of the tone map and the XMP are read back from an output
/// through their items' locations, byte for byte.
pub proof fn gain_map_data_reads_back(
    s: Seq<u8>,
    ftyp: BoxView,
    meta: BoxView,
    mdat: BoxView,
    src: SourceView,
    media: Seq<u8>,
    patch: Option<OppoUserCommentPatch>,
    orientation: ExifOrientation,
    c: ConfigView,
    t: Seq<u8>,
)
    requires
        is_output(s, ftyp, meta, mdat, src, media, patch, orientation, c, t),
    ensures
        payload_in(t, c.gain_grid_id) == Some(
            grid_payload(
                c.rows as int,
                c.cols as int,
                c.gain_width as int,
                c.gain_height as int,
            ),
        ),
        payload_in(t, c.tmap_id) == Some(c.tmap_payload),
        payload_in(t, c.xmp_id) == Some(c.xmp),
{
    let (entries, start) = lemma_output_places(
        s,
        ftyp,
        meta,
        mdat,
        src,
        media,
        patch,
        orientation,
        c,
        t,
    );
    let old = box_payload(s, src.idat);
    let grid = grid_payload(c.rows as int, c.cols as int, c.gain_width as int, c.gain_height as int);
    let b = idat_box(t)->0.data_start;
    assert(occurs_at(t, old + grid + c.tmap_payload + c.xmp, b)) by {
        reveal(output_idat);
    }
    lemma_parts(t, old + grid + c.tmap_payload, c.xmp, b);
    lemma_parts(t, old + grid, c.tmap_payload, b);
    lemma_parts(t, old, grid, b);
    let a0 = old.len() as int;
    let a1 = a0 + 8;
    let a2 = a1 + c.tmap_payload.len();
    lemma_idat_locations(
        src,
        c,
        a0,
        patch,
        mdat.data_start,
        start,
        media.len() as int,
        entries,
    );
    lemma_one_idat_extent(t, idat_extent(c.gain_grid_id, a0, 8), grid, a0);
    lemma_one_idat_extent(
        t,
        idat_extent(c.tmap_id, a1, c.tmap_payload.len() as int),
        c.tmap_payload,
        a1,
    );
    lemma_one_idat_extent(t, idat_extent(c.xmp_id, a2, c.xmp.len() as int), c.xmp, a2);
}

/// The first locations of the gain grid, the tmap and the XMP are those in the idat box.
proof fn lemma_idat_locations(
    src: SourceView,
    c: ConfigView,
    idat: int,
    patch: Option<OppoUserCommentPatch>,
    old: int,
    start: int,
    media_len: int,
    entries: Seq<IlocView>,
)
    requires
        numbers_ordered(c),
        numbers_unused(src, c),
        output_locations(
            src,
            c,
            placeholder_locations(src, c, idat),
            patch,
            old,
            start,
            media_len,
        ) == Some(entries),
        0 <= idat,
        idat + 8 + c.tmap_payload.len() + c.xmp.len() <= u32::MAX,
    ensures
        ({
            let st = stored_locations(entries);
            let n = c.tmap_payload.len() as int;
            &&& first_where(st, iloc_for(c.gain_grid_id)) == Some(
                idat_extent(c.gain_grid_id, idat, 8),
            )
            &&& first_where(st, iloc_for(c.tmap_id)) == Some(idat_extent(c.tmap_id, idat + 8, n))
            &&& first_where(st, iloc_for(c.xmp_id)) == Some(
                idat_extent(c.xmp_id, idat + 8 + n, c.xmp.len() as int),
            )
        }),
{
    let n = src.iloc_entries.len() as int;
    let m = c.tiles.len() as int;
    lemma_output_locations(src, c, idat, patch, old, start, media_len, entries);
    let st = stored_locations(entries);
    let a1 = idat + 8;
    let a2 = a1 + c.tmap_payload.len();
    lemma_idat_location(entries, n + m, c.gain_grid_id, idat, 8);
    lemma_idat_location(entries, n + m + 1, c.tmap_id, a1, c.tmap_payload.len() as int);
    lemma_idat_location(entries, n + m + 2, c.xmp_id, a2, c.xmp.len() as int);
    assert forall|j: int| 0 <= j < n + m implies (#[trigger] st[j]).item_id < c.gain_grid_id by {
        if j < n {
            assert(is_moved_location(src.iloc_entries[j], entries[j], patch, old, start));
            assert(src.iloc_entries[j].item_id as int % 0x1_0000 < c.gain_grid_id);
        } else {
            let i = j - n;
            assert(entries[n + i].item_id == c.tile_ids[i]);
            assert(c.tile_ids[i] < c.gain_grid_id);
        }
    }
    lemma_first_where_at(st, iloc_for(c.gain_grid_id), n + m);
    lemma_first_where_at(st, iloc_for(c.tmap_id), n + m + 1);
    lemma_first_where_at(st, iloc_for(c.xmp_id), n + m + 2);
}

proof fn lemma_idat_location(entries: Seq<IlocView>, i: int, id: u32, at: int, len: int)
    requires
        0 <= i < entries.len(),
        entries[i] == idat_extent(id, at, len),
        id < 0x1_0000,
        0 <= at <= u32::MAX,
        0 <= len <= u32::MAX,
    ensures
        stored_locations(entries)[i] == idat_extent(id, at, len),
{
    let e = stored_locations(entries)[i];
    assert(e.extents =~= seq![(at as u64, len as u64)]);
}

/// Whether an extent does not touch the patched Exif item.
pub open spec fn apart_from(x: (u64, u64), patch: Option<OppoUserCommentPatch>) -> bool {
    patch matches Some(p) ==> x.0 + x.1 <= p.source_range.0 || x.0 >= p.source_range.1
}

/// Where bytes of the media stand once the Exif item was patched.
#[verifier::rlimit(60)]
proof fn lemma_patched_place(
    held: Seq<u8>,
    old: int,
    e: IlocView,
    mode: OppoCompat,
    media: Seq<u8>,
    p: OppoUserCommentPatch,
    x: (u64, u64),
)
    requires
        patched_media(held, old, e, mode) == Some((media, p)),
        0 <= old,
        old + held.len() <= usize::MAX,
        old + held.len() <= i64::MAX,
        media.len() <= u32::MAX,
        old <= x.0,
        x.0 + x.1 <= old + held.len(),
        apart_from(x, Some(p)),
    ensures
        adjusted_extent(x.0, x.1, Some(p)) matches Some(y) && {
            &&& y.1 == x.1
            &&& old <= y.0
            &&& y.0 - old + y.1 <= media.len()
            &&& media.subrange(y.0 - old, y.0 - old + y.1) == held.subrange(
                x.0 - old,
                x.0 - old + x.1,
            )
        },
{
    let (offset, length) = e.extents[0];
    let from = offset - old;
    let to = from + length;
    let new = exif_with_comment(held.subrange(from, to), mode)->0;
    assert(media == held.take(from) + new + held.skip(to));
    assert(p.source_range.0 == offset);
    assert(p.source_range.1 == offset + length);
    assert(p.delta == new.len() - length);
    let y = adjusted_extent(x.0, x.1, Some(p))->0;
    let a = x.0 - old;
    if x.0 + x.1 <= offset {
        assert(media.subrange(a, a + x.1) =~= held.subrange(a, a + x.1));
    } else {
        let d = p.delta as int;
        assert(0 <= x.0 + d <= u64::MAX);
        assert(media.subrange(a + d, a + d + x.1) =~= held.subrange(a, a + x.1));
    }
}

/// The media of the source is kept: each extent of a source item that names bytes of the
/// source's media data names the same bytes in the output, unless it is that of the Exif
/// item whose comment was adjusted.
pub proof fn source_media_is_kept(
    s: Seq<u8>,
    ftyp: BoxView,
    meta: BoxView,
    mdat: BoxView,
    src: SourceView,
    compat: OppoCompat,
    media: Seq<u8>,
    patch: Option<OppoUserCommentPatch>,
    orientation: ExifOrientation,
    c: ConfigView,
    t: Seq<u8>,
    i: int,
    k: int,
)
    requires
        is_output(s, ftyp, meta, mdat, src, media, patch, orientation, c, t),
        s.len() <= isize::MAX,
        (media, patch) == media_for(
            src,
            s.subrange(mdat.data_start, mdat.data_end),
            mdat.data_start,
            compat,
        ),
        0 <= i < src.iloc_entries.len(),
        names_media(src.iloc_entries[i], k, mdat),
        apart_from(src.iloc_entries[i].extents[k], patch),
    ensures
        source_meta(t) matches Some(Ok(n)) && {
            &&& i < n.iloc_entries.len()
            &&& n.iloc_entries[i].item_id == src.iloc_entries[i].item_id % 0x1_0000
            &&& n.iloc_entries[i].construction_method == 0
            &&& same_bytes(s, src.iloc_entries[i].extents[k], t, n.iloc_entries[i].extents[k])
        },
{
    let (entries, start) = lemma_output_places(
        s,
        ftyp,
        meta,
        mdat,
        src,
        media,
        patch,
        orientation,
        c,
        t,
    );
    let old = mdat.data_start;
    lemma_output_locations(
        src,
        c,
        box_payload(s, src.idat).len() as int,
        patch,
        old,
        start,
        media.len() as int,
        entries,
    );
    assert(is_moved_location(src.iloc_entries[i], entries[i], patch, old, start));
    assert(first_box(boxes_in(s, 0, s.len() as int), MDAT@) == Some(mdat)) by {
        reveal(is_output);
    }
    lemma_boxes_within(s, 0, s.len() as int);
    lemma_first_index(boxes_in(s, 0, s.len() as int), MDAT@);
    let x = src.iloc_entries[i].extents[k];
    lemma_adjusted_bytes(s, mdat, src, compat, media, patch, x);
    lemma_moved_bytes(s, old, media, patch, start, t, x);
    assert(moved_extent(src.iloc_entries[i].extents[k], patch, old, start) == Some(
        entries[i].extents[k],
    ));
    assert(stored_locations(entries)[i] == stored_location(entries[i]));
}

proof fn lemma_moved_bytes(
    s: Seq<u8>,
    old: int,
    media: Seq<u8>,
    patch: Option<OppoUserCommentPatch>,
    start: int,
    t: Seq<u8>,
    x: (u64, u64),
)
    requires
        adjusted_extent(x.0, x.1, patch) matches Some(z) && {
            let a = z.0 - old;
            &&& z.1 == x.1
            &&& 0 <= a
            &&& a + z.1 <= media.len()
            &&& media.subrange(a, a + z.1) == s.subrange(x.0 as int, x.0 + x.1)
        },
        0 <= old,
        0 <= start,
        occurs_at(t, media, start),
        t.len() <= u32::MAX,
    ensures
        moved_extent(x, patch, old, start) matches Some(y) && same_bytes(s, x, t, y)
            && stored_extent(y) == y,
{
    let z = adjusted_extent(x.0, x.1, patch)->0;
    lemma_shifted_bytes(t, media, start, old, z);
}

/// An extent that was adjusted for the patch names the same bytes of the new media.
proof fn lemma_adjusted_bytes(
    s: Seq<u8>,
    mdat: BoxView,
    src: SourceView,
    compat: OppoCompat,
    media: Seq<u8>,
    patch: Option<OppoUserCommentPatch>,
    x: (u64, u64),
)
    requires
        box_within(mdat, s.len() as int),
        s.len() <= isize::MAX,
        (media, patch) == media_for(
            src,
            s.subrange(mdat.data_start, mdat.data_end),
            mdat.data_start,
            compat,
        ),
        media.len() <= u32::MAX,
        mdat.data_start <= x.0,
        x.0 + x.1 <= mdat.data_end,
        apart_from(x, patch),
    ensures
        adjusted_extent(x.0, x.1, patch) matches Some(z) && {
            let a = z.0 - mdat.data_start;
            &&& z.1 == x.1
            &&& 0 <= a
            &&& a + z.1 <= media.len()
            &&& media.subrange(a, a + z.1) == s.subrange(x.0 as int, x.0 + x.1)
        },
{
    let held = s.subrange(mdat.data_start, mdat.data_end);
    let old = mdat.data_start;
    let b = x.0 - old;
    assert(held.subrange(b, b + x.1) =~= s.subrange(x.0 as int, x.0 + x.1));
    match patch {
        None => {
            assert(media == held);
        },
        Some(p) => {
            let e = exif_location(src.items, src.iloc_entries)->0;
            lemma_patched_place(held, old, e, compat, media, p, x);
        },
    }
}

/// Media that moved to `start` holds at its moved places what it held.
proof fn lemma_shifted_bytes(t: Seq<u8>, media: Seq<u8>, start: int, old: int, z: (u64, u64))
    requires
        0 <= start,
        occurs_at(t, media, start),
        t.len() <= u32::MAX,
        0 <= old <= z.0,
        z.0 - old + z.1 <= media.len(),
    ensures
        ({
            let y = moved(z.0, old, start);
            let a = z.0 - old;
            &&& y == start + a
            &&& y + z.1 <= t.len()
            &&& t.subrange(y as int, y + z.1) == media.subrange(a, a + z.1)
        }),
{
    let a = z.0 - old;
    let y = start + a;
    assert(z.0 + start - old == y);
    assert(t.subrange(y, y + z.1) =~= t.subrange(start, start + media.len()).subrange(a, a + z.1));
}

/// What is assembled of a source and a gain map is an output of which all of this holds:
/// its tiles, its gain-map data and the source's media are read back.
pub proof fn assembled_files_are_outputs(
    s: Seq<u8>,
    orientation: ExifOrientation,
    compat: OppoCompat,
    policy: OppoCameraTail,
    g: GainView,
    ftyp: BoxView,
    meta: BoxView,
    mdat: BoxView,
    src: SourceView,
    t: Seq<u8>,
)
    requires
        iso_output(s, orientation, compat, policy, g) == Some(Ok::<Seq<u8>, Seq<char>>(t)),
        first_box(boxes_in(s, 0, s.len() as int), FTYP@) == Some(ftyp),
        first_box(boxes_in(s, 0, s.len() as int), META@) == Some(meta),
        first_box(boxes_in(s, 0, s.len() as int), MDAT@) == Some(mdat),
        source_structure(s, meta) == Some(Ok::<SourceView, Seq<char>>(src)),
        property_number(src, src.primary_id, "ispe"@) matches Some(ispe) && output_fits(
            s,
            src,
            config_for(src, g, policy),
            ispe,
        ),
        numbers_unused(src, config_for(src, g, policy)),
        t.len() <= u32::MAX,
    ensures
        ({
            let (media, patch) = media_for(
                src,
                s.subrange(mdat.data_start, mdat.data_end),
                mdat.data_start,
                compat,
            );
            is_output(
                s,
                ftyp,
                meta,
                mdat,
                src,
                media,
                patch,
                orientation,
                config_for(src, g, policy),
                t,
            )
        }),
        s.len() <= isize::MAX,
{
    reveal(is_output);
    let c = config_for(src, g, policy);
    assert(numbers_ordered(c)) by {
        assert forall|j: int, k: int| 0 <= j < k < c.tile_ids.len() implies #[trigger] c.tile_ids[j]
            < #[trigger] c.tile_ids[k] by {}
    }
}

} // verus!
