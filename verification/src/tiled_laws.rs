use crate::bytes::{be32, enc32};
use crate::container_build::{
    FIRST_TILE, GridView, MAX_TILES, grid_base, grid_item, grid_locations, heic_grid, tile_items,
    tiles_across,
};
use crate::fourcc::{HVCC, ISPE};
use crate::grid_laws::{built_grids_read_back, grid_property_boxes, grid_view, stands_at};
use crate::hevc::{hvcc_of, tile_payload, tile_payloads};
use crate::isobmff::{IlocView, MetaView, box_bytes, is_ispe, ispe_bytes, source_meta};
use crate::raster::{is_tile_of, pixel_index, tile_byte, tile_count};
use crate::round_trip::{integers_of_32_bits_read_back, sizes_read_back};
use crate::validate_laws::size_says;
use vstd::prelude::*;

verus! {

/// The metadata of a tiled file, and where its tiles stand.
proof fn lemma_tiled_source(streams: Seq<Seq<u8>>, width: u32, height: u32, g: GridView) -> (e: Seq<IlocView>)
    requires
        heic_grid(streams, width, height) == Some(Ok::<GridView, Seq<char>>(g)),
        g.data.len() <= u32::MAX,
    ensures
        source_meta(g.data) == Some(
            Ok::<MetaView, Seq<char>>(
                grid_view(hvcc_of(streams[0], 1)->0, width as int, height as int, streams.len(), e),
            ),
        ),
        forall|k: int|
            #![trigger tile_payloads(streams)[k]]
            0 <= k < streams.len() ==> stands_at(g.data, e[k + 2], FIRST_TILE + k, tile_payloads(streams)[k]),
        streams.len() <= MAX_TILES,
{
    built_grids_read_back(streams, width, height, g);
    let hvcc = hvcc_of(streams[0], 1)->0;
    let tiles = tile_payloads(streams);
    grid_locations(tiles, grid_base(hvcc, tiles, width as int, height as int))
}

/// A tiled file is a grid of its tiles: the grid is the primary image and is made of the tiles in their
/// order, and every item is associated with the same five properties, of which the sizes and the decoder
/// configuration are essential.
#[verifier::rlimit(60)]
pub proof fn tiled_files_are_grids_of_their_tiles(
    streams: Seq<Seq<u8>>,
    width: u32,
    height: u32,
    g: GridView,
    m: MetaView,
    i: int,
)
    requires
        heic_grid(streams, width, height) == Some(Ok::<GridView, Seq<char>>(g)),
        g.data.len() <= u32::MAX,
        0 <= i < streams.len(),
        source_meta(g.data) == Some(Ok::<MetaView, Seq<char>>(m)),
    ensures
        m.primary_id == 1,
        m.items.len() == streams.len() + 2,
        m.items[0].item_id == 1 && m.items[0].itype == "grid"@,
        m.items[1].item_id == 2 && m.items[1].itype == "Exif"@,
        m.items[i + 2].item_id == 3 + i && m.items[i + 2].itype == "hvc1"@,
        m.refs.len() == 2,
        m.refs[0].rtype == "dimg"@ && m.refs[0].from == 1 && m.refs[0].to.len() == streams.len(),
        m.refs[0].to[i] == 3 + i,
        m.refs[1].rtype == "cdsc"@ && m.refs[1].from == 2 && m.refs[1].to == seq![1u32],
        m.ipma_entries[i + 2].item_id == 3 + i && m.ipma_entries[0].item_id == 1,
        m.ipma_entries[i + 2].associations == seq![(1u32, true), (2, true), (3, true), (4, false), (5, false)],
        m.ipma_entries[0].associations == m.ipma_entries[i + 2].associations,
{
    let e = lemma_tiled_source(streams, width, height, g);
    lemma_tiled_items(hvcc_of(streams[0], 1)->0, width as int, height as int, streams.len(), e, m, i);
}

/// A tiled file stores each tile as it was encoded, where it says.
#[verifier::rlimit(60)]
pub proof fn tiled_files_hold_their_tiles(
    streams: Seq<Seq<u8>>,
    width: u32,
    height: u32,
    g: GridView,
    m: MetaView,
    i: int,
)
    requires
        heic_grid(streams, width, height) == Some(Ok::<GridView, Seq<char>>(g)),
        g.data.len() <= u32::MAX,
        0 <= i < streams.len(),
        source_meta(g.data) == Some(Ok::<MetaView, Seq<char>>(m)),
    ensures
        m.iloc_entries[i + 2].item_id == 3 + i && m.iloc_entries[i + 2].extents.len() == 1,
        m.iloc_entries[i + 2].extents[0].0 + m.iloc_entries[i + 2].extents[0].1 <= g.data.len(),
        tile_payload(streams[i]) == Some(
            g.data.subrange(
                m.iloc_entries[i + 2].extents[0].0 as int,
                m.iloc_entries[i + 2].extents[0].0 + m.iloc_entries[i + 2].extents[0].1,
            ),
        ),
{
    let e = lemma_tiled_source(streams, width, height, g);
    lemma_tiled(streams, width, height, g, i);
    lemma_tiled_place(g.data, e, tile_payloads(streams), i);
    assert(m.iloc_entries == e);
}

/// The properties of a tiled file are its size, the decoder configuration of its first tile, the size of
/// a tile, and what the pixels and colours are.
#[verifier::rlimit(60)]
pub proof fn tiled_files_say_their_size(streams: Seq<Seq<u8>>, width: u32, height: u32, g: GridView, m: MetaView)
    requires
        heic_grid(streams, width, height) == Some(Ok::<GridView, Seq<char>>(g)),
        g.data.len() <= u32::MAX,
        source_meta(g.data) == Some(Ok::<MetaView, Seq<char>>(m)),
    ensures
        m.props.len() == 5,
        size_says(m.props[0].raw, width as int, height as int),
        size_says(m.props[2].raw, 512, 512),
        Some(m.props[1].raw.skip(8)) == hvcc_of(streams[0], 1),
        m.props[1].raw.subrange(4, 8) == seq![0x68u8, 0x76, 0x63, 0x43],
{
    let e = lemma_tiled_source(streams, width, height, g);
    let hvcc = hvcc_of(streams[0], 1)->0;
    lemma_tiled_properties(hvcc, width, height, streams.len(), e);
}

/// A tiled file has as many tiles as it takes to cover its size, one for each stream.
pub proof fn tiled_files_have_a_tile_for_each_stream(
    streams: Seq<Seq<u8>>,
    width: u32,
    height: u32,
    g: GridView,
    i: int,
)
    requires
        heic_grid(streams, width, height) == Some(Ok::<GridView, Seq<char>>(g)),
        0 <= i < streams.len(),
    ensures
        g.cols == (width + 511) / 512 && g.rows == (height + 511) / 512,
        g.width == width && g.height == height,
        streams.len() == g.rows * g.cols,
        tile_payload(streams[i]) is Some,
{
    lemma_tiled(streams, width, height, g, i);
}

proof fn lemma_tiled(streams: Seq<Seq<u8>>, width: u32, height: u32, g: GridView, i: int)
    requires
        heic_grid(streams, width, height) == Some(Ok::<GridView, Seq<char>>(g)),
        0 <= i < streams.len(),
    ensures
        g.cols == (width + 511) / 512 && g.rows == (height + 511) / 512,
        g.width == width && g.height == height,
        streams.len() == g.rows * g.cols,
        tile_payload(streams[i]) == Some(tile_payloads(streams)[i]),
        tile_payloads(streams).len() == streams.len(),
        hvcc_of(streams[0], 1) is Some,
{
    let (cols, rows) = (tiles_across(width as int), tiles_across(height as int));
    assert(cols * rows == rows * cols) by (nonlinear_arith);
    assert(tile_payload(streams[i]) is Some);
}

proof fn lemma_tiled_place(data: Seq<u8>, e: Seq<IlocView>, tiles: Seq<Seq<u8>>, i: int)
    requires
        0 <= i < tiles.len(),
        forall|k: int|
            #![trigger tiles[k]]
            0 <= k < tiles.len() ==> stands_at(data, e[k + 2], FIRST_TILE + k, tiles[k]),
    ensures
        e[i + 2].item_id == 3 + i,
        e[i + 2].extents.len() == 1,
        e[i + 2].extents[0].0 + e[i + 2].extents[0].1 <= data.len(),
        data.subrange(
            e[i + 2].extents[0].0 as int,
            e[i + 2].extents[0].0 + e[i + 2].extents[0].1,
        ) == tiles[i],
{
    assert(stands_at(data, e[i + 2], FIRST_TILE + i, tiles[i]));
}

proof fn lemma_tiled_items(hvcc: Seq<u8>, width: int, height: int, n: nat, e: Seq<IlocView>, m: MetaView, i: int)
    requires
        0 <= i < n,
        n <= MAX_TILES,
        m == grid_view(hvcc, width, height, n, e),
    ensures
        ({
            &&& m.primary_id == 1
            &&& m.items.len() == n + 2
            &&& m.items[0].item_id == 1 && m.items[0].itype == "grid"@
            &&& m.items[1].item_id == 2 && m.items[1].itype == "Exif"@
            &&& m.items[i + 2].item_id == 3 + i && m.items[i + 2].itype == "hvc1"@
            &&& m.refs.len() == 2
            &&& m.refs[0].rtype == "dimg"@ && m.refs[0].from == 1 && m.refs[0].to.len() == n
            &&& m.refs[0].to[i] == 3 + i
            &&& m.refs[1].rtype == "cdsc"@ && m.refs[1].from == 2 && m.refs[1].to == seq![1u32]
            &&& m.ipma_entries[i + 2].item_id == 3 + i && m.ipma_entries[0].item_id == 1
            &&& m.ipma_entries[i + 2].associations == seq![(1u32, true), (2, true), (3, true), (4, false), (5, false)]
            &&& m.ipma_entries[0].associations == m.ipma_entries[i + 2].associations
            &&& m.iloc_entries == e
        }),
{
    assert(tile_items(n)[i] == 3 + i);
}

proof fn lemma_tiled_properties(hvcc: Seq<u8>, width: u32, height: u32, n: nat, e: Seq<IlocView>)
    ensures
        ({
            let m = grid_view(hvcc, width as int, height as int, n, e);
            &&& m.props.len() == 5
            &&& size_says(m.props[0].raw, width as int, height as int)
            &&& size_says(m.props[2].raw, 512, 512)
            &&& m.props[1].raw.skip(8) == hvcc
            &&& m.props[1].raw.subrange(4, 8) == seq![0x68u8, 0x76, 0x63, 0x43]
        }),
{
    let m = grid_view(hvcc, width as int, height as int, n, e);
    let boxes = grid_property_boxes(hvcc, width as int, height as int);
    lemma_size_box(width, height);
    lemma_size_box(512, 512);
    lemma_record_box(hvcc);
    assert(m.props[0].raw == boxes[0] && m.props[1].raw == boxes[1] && m.props[2].raw == boxes[2]);
}

proof fn lemma_size_box(width: u32, height: u32)
    ensures
        size_says(ispe_bytes(width as int, height as int), width as int, height as int),
{
    sizes_read_back(width, height);
    lemma_ispe_says(ispe_bytes(width as int, height as int));
}

proof fn lemma_record_box(hvcc: Seq<u8>)
    ensures
        box_bytes(HVCC@, hvcc).skip(8) == hvcc,
        box_bytes(HVCC@, hvcc).subrange(4, 8) == seq![0x68u8, 0x76, 0x63, 0x43],
{
    reveal(box_bytes);
    let b = box_bytes(HVCC@, hvcc);
    assert(b.skip(8) =~= hvcc);
    assert(b.subrange(4, 8) =~= seq![0x68u8, 0x76, 0x63, 0x43]);
}

proof fn lemma_ispe_says(raw: Seq<u8>)
    requires
        is_ispe(raw),
    ensures
        size_says(raw, be32(raw, 12), be32(raw, 16)),
{
    let t = raw.subrange(4, 8);
    assert(t == ISPE@);
    assert(t[0] == raw[4] && t[1] == raw[5] && t[2] == raw[6] && t[3] == raw[7]);
}

/// The grid item of a tiled file says its rows and its columns, each counted from one, and its size in
/// 32 bits.
pub proof fn tiled_grids_say_their_layout(rows: int, cols: int, width: u32, height: u32)
    requires
        1 <= rows <= 256,
        1 <= cols <= 256,
    ensures
        ({
            let p = grid_item(rows, cols, width as int, height as int);
            &&& p.len() == 14
            &&& p[0] == 0 && p[1] == 0 && p[2] == 0 && p[3] == 0
            &&& p[4] + 1 == rows
            &&& p[5] + 1 == cols
            &&& be32(p, 6) == width
            &&& be32(p, 10) == height
        }),
{
    let p = grid_item(rows, cols, width as int, height as int);
    assert(p.subrange(6, 10) =~= enc32(width as int));
    assert(p.subrange(10, 14) =~= enc32(height as int));
    integers_of_32_bits_read_back(p, 6, width as int);
    integers_of_32_bits_read_back(p, 10, height as int);
}

/// A tile of a gain map holds the pixels of the raster from its corner on. Beyond the right edge of the
/// raster each row repeats its last pixel, and beyond the bottom edge the last row is repeated.
pub proof fn gain_tiles_repeat_the_edges_of_the_raster(
    tile: Seq<u8>,
    pixels: Seq<u8>,
    width: u32,
    height: u32,
    n: int,
    stride: int,
    x0: u32,
    y0: u32,
    x: int,
    y: int,
    c: int,
)
    requires
        is_tile_of(tile, pixels, width, height, n, stride, x0, y0),
        x0 < width,
        y0 < height,
        0 <= x < 512,
        0 <= y < 512,
        0 <= c < n,
    ensures
        ({
            let b = tile[(y * 512 + x) * n + c];
            let (last_x, last_y) = (width - 1 - x0, height - 1 - y0);
            &&& x0 + x < width && y0 + y < height ==> b == pixels[(y0 + y) * stride + (x0 + x) * n + c]
            &&& x0 + x >= width ==> b == tile[(y * 512 + last_x) * n + c]
            &&& y0 + y >= height ==> b == tile[(last_y * 512 + x) * n + c]
        }),
{
    let (last_x, last_y) = (width - 1 - x0, height - 1 - y0);
    let here = tile_byte(pixels, width, height, n, stride, x0, y0, x, y, c);
    assert(tile[pixel_index(y, x, 512, n, c)] == here);
    if x0 + x >= width {
        let edge = tile_byte(pixels, width, height, n, stride, x0, y0, last_x, y, c);
        assert(tile[pixel_index(y, last_x, 512, n, c)] == edge);
    }
    if y0 + y >= height {
        let edge = tile_byte(pixels, width, height, n, stride, x0, y0, x, last_y, c);
        assert(tile[pixel_index(last_y, x, 512, n, c)] == edge);
    }
}

/// A gain map is cut into as many tiles of 512 pixels as it takes to cover it, and into at least one.
pub proof fn gain_tiles_are_as_few_as_cover_the_raster(len: int)
    requires
        0 <= len,
    ensures
        tile_count(len) >= 1,
        len <= 512 * tile_count(len),
        tile_count(len) > 1 ==> 512 * (tile_count(len) - 1) < len,
{
}

} // verus!
