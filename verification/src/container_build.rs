//! A tiled HEIC of one frame: the primary grid, its HEVC tiles with a shared
//! decoder configuration, and an empty Exif item.

use crate::assemble::tiles_len;
use crate::bytes::{append, append_zeros, enc16, enc32, lemma_mod_part, push16, push32, zeros};
use crate::fourcc::{COLR, FTYP, HDLR, HVCC, IDAT, IINF, IPCO, IPMA, IPRP, MDAT, META};
use crate::hevc::{
    all_packable, extract_hvcc_config_with_chroma, first_hvcc, hvcc_of, package_tiles,
    tile_payloads,
};
use crate::isobmff::{
    DINF_BOX, IlocEntry, IlocView, IrefEntry, IrefView, PIXI_RGB8_BOX, append_all, as_is, box_bytes,
    iloc_bytes, infe_bytes, ipma_entry_bytes, iref_bytes, ispe_bytes, make_box, make_iloc_box,
    make_infe_box, make_ipma_entry, make_iref_full_box, make_ispe_box, make_pitm_box, pitm_bytes,
};
use crate::items::copy_ids;
use crate::seqs::{flat, lemma_flat_take, told, told_some, views};
use vstd::prelude::*;
use vstd::string::*;
use vstd::utf8::*;

verus! {

/// The side of a tile in pixels.
pub const TILE: u32 = 512;

/// The bytes of a tile row: three for each pixel.
pub const TILE_ROW: u32 = 1536;

/// The most rows or columns of tiles that a grid item can count.
pub const MAX_SIDE: u32 = 256;

/// The most tiles that a container can number: an item number has 16 bits, and the grid and
/// the Exif item come first.
pub const MAX_TILES: u32 = 65533;

/// The number of the Exif item; the primary grid is item 1.
pub const EXIF_ITEM: u32 = 2;

/// The number of the first tile item.
pub const FIRST_TILE: u32 = 3;

/// The payload of the handler box: an image (`pict`) without a name.
pub const PICT_HANDLER: [u8; 25] = [
    0x00, 0x00, 0x00, 0x00, 0x00, 0x00, 0x00, 0x00, 0x70, 0x69, 0x63, 0x74, 0x00, 0x00, 0x00, 0x00,
    0x00, 0x00, 0x00, 0x00, 0x00, 0x00, 0x00, 0x00, 0x00,
];

/// The payload of the colour box: `nclx` with primaries 1, transfer 13, matrix 6
/// and limited range.
pub const LIMITED_NCLX: [u8; 11] = [
    0x6e, 0x63, 0x6c, 0x78, 0x00, 0x01, 0x00, 0x0d, 0x00, 0x06, 0x00,
];

/// The file type payload: `heic`, compatible with `mif1`, `heic` and `miaf`.
pub const HEIC_BRANDS: [u8; 20] = [
    0x68, 0x65, 0x69, 0x63, 0x00, 0x00, 0x00, 0x00, 0x6d, 0x69, 0x66, 0x31, 0x68, 0x65, 0x69, 0x63,
    0x6d, 0x69, 0x61, 0x66,
];

/// The payload of the Exif item: an offset of six, the Exif marker, and a
/// big-endian TIFF structure whose only entry points at an empty Exif directory.
pub const EMPTY_EXIF: [u8; 42] = [
    0x00, 0x00, 0x00, 0x06, 0x45, 0x78, 0x69, 0x66, 0x00, 0x00, 0x4d, 0x4d, 0x00, 0x2a, 0x00, 0x00,
    0x00, 0x08, 0x00, 0x01, 0x87, 0x69, 0x00, 0x04, 0x00, 0x00, 0x00, 0x01, 0x00, 0x00, 0x00, 0x1a,
    0x00, 0x00, 0x00, 0x00, 0x00, 0x00, 0x00, 0x00, 0x00, 0x00,
];

/// A tiled HEIC file.
pub struct GridContainer {
    pub data: Vec<u8>,
    pub cols: u32,
    pub rows: u32,
    pub width: u32,
    pub height: u32,
}

/// What a tiled HEIC file is made of.
#[verifier::ext_equal]
pub struct GridView {
    pub data: Seq<u8>,
    pub cols: u32,
    pub rows: u32,
    pub width: u32,
    pub height: u32,
}

impl View for GridContainer {
    type V = GridView;

    open spec fn view(&self) -> GridView {
        GridView {
            data: self.data@,
            cols: self.cols,
            rows: self.rows,
            width: self.width,
            height: self.height,
        }
    }
}

/// How many tiles cover `len` pixels.
pub open spec fn tiles_across(len: int) -> int {
    (len + TILE - 1) / (TILE as int)
}

/// Whether a frame of this size can be stored: it has pixels, and its tiles can be counted
/// and numbered.
pub open spec fn grid_fits(width: u32, height: u32) -> bool {
    &&& width > 0
    &&& height > 0
    &&& tiles_across(width as int) <= MAX_SIDE
    &&& tiles_across(height as int) <= MAX_SIDE
    &&& tiles_across(width as int) * tiles_across(height as int) <= MAX_TILES
}

/// The columns and rows of tiles of a frame; `None` where it cannot be stored.
pub fn grid_size(width: u32, height: u32) -> (r: Option<(u32, u32)>)
    ensures
        r is Some <==> grid_fits(width, height),
        r matches Some(g) ==> g.0 == tiles_across(width as int) && g.1 == tiles_across(height as int)
            && 1 <= g.0 <= MAX_SIDE && 1 <= g.1 <= MAX_SIDE && g.0 * g.1 <= MAX_TILES,
{
    if width == 0 || height == 0 {
        return None;
    }
    let cols: u64 = (width as u64 + TILE as u64 - 1) / TILE as u64;
    let rows: u64 = (height as u64 + TILE as u64 - 1) / TILE as u64;
    if cols > MAX_SIDE as u64 || rows > MAX_SIDE as u64 {
        return None;
    }
    assert(cols * rows <= 256 * 256) by (nonlinear_arith)
        requires
            cols <= 256,
            rows <= 256,
    ;
    if cols * rows > MAX_TILES as u64 {
        return None;
    }
    Some((cols as u32, rows as u32))
}

/// A byte of a frame with three bytes for each pixel, zero beyond its edges: `xb`
/// counts bytes along row `y`.
pub open spec fn frame_byte(rgb: Seq<u8>, width: int, height: int, xb: int, y: int) -> u8 {
    if xb < 3 * width && y < height {
        rgb[y * (3 * width) + xb]
    } else {
        0
    }
}

/// The pixels of the tile in row `row` and column `col`.
pub open spec fn frame_tile(rgb: Seq<u8>, width: int, height: int, row: int, col: int) -> Seq<u8> {
    Seq::new(
        (TILE * TILE_ROW) as nat,
        |k: int|
            frame_byte(
                rgb,
                width,
                height,
                col * TILE_ROW + k % TILE_ROW as int,
                row * TILE + k / TILE_ROW as int,
            ),
    )
}

/// Cut one tile out of a frame.
fn cut_tile(rgb: &[u8], width: u32, height: u32, row: u32, col: u32) -> (r: Vec<u8>)
    requires
        3 * (width * height) <= rgb.len(),
        row < MAX_SIDE,
        col < MAX_SIDE,
    ensures
        r@ == frame_tile(rgb@, width as int, height as int, row as int, col as int),
{
    let mut tile: Vec<u8> = Vec::new();
    let mut k: u32 = 0;
    while k < TILE * TILE_ROW
        invariant
            k <= TILE * TILE_ROW,
            3 * (width * height) <= rgb.len(),
            row < MAX_SIDE,
            col < MAX_SIDE,
            tile@ == frame_tile(rgb@, width as int, height as int, row as int, col as int).take(k as int),
        decreases TILE * TILE_ROW - k,
    {
        let xb: u32 = col * TILE_ROW + k % TILE_ROW;
        let y: u32 = row * TILE + k / TILE_ROW;
        let b: u8 = if (xb as u64) < 3 * width as u64 && y < height {
            assert(0 <= y * (3 * width) && y * (3 * width) + 3 * width <= 3 * (width * height))
                by (nonlinear_arith)
                requires
                    y < height,
            ;
            rgb[y as usize * (3 * width as usize) + xb as usize]
        } else {
            0
        };
        tile.push(b);
        k = k + 1;
        assert(tile@ =~= frame_tile(
            rgb@,
            width as int,
            height as int,
            row as int,
            col as int,
        ).take(k as int));
    }
    assert(tile@ =~= frame_tile(rgb@, width as int, height as int, row as int, col as int));
    tile
}

/// The tiles of a frame, row by row.
pub open spec fn frame_tiles(rgb: Seq<u8>, width: int, height: int) -> Seq<Seq<u8>> {
    let cols = tiles_across(width);
    Seq::new(
        (cols * tiles_across(height)) as nat,
        |i: int| frame_tile(rgb, width, height, i / cols, i % cols),
    )
}

/// Cut a frame of three bytes for each pixel into tiles of 512 by 512 pixels, row
/// by row, black beyond the frame's edges. `None` where the frame has no pixels,
/// where it takes more tiles than a container can hold, or where bytes are missing.
pub fn cut_frame(rgb: &[u8], width: u32, height: u32) -> (r: Option<Vec<Vec<u8>>>)
    ensures
        r is Some <==> grid_fits(width, height) && 3 * (width * height) <= rgb@.len(),
        r matches Some(t) ==> views(t@) == frame_tiles(rgb@, width as int, height as int),
{
    let (cols, rows): (u32, u32) = match grid_size(width, height) {
        Some(g) => g,
        None => {
            return None;
        },
    };
    assert(width * height <= 131072 * 131072) by (nonlinear_arith)
        requires
            width <= 131072,
            height <= 131072,
    ;
    if 3 * (width as u64 * height as u64) > rgb.len() as u64 {
        return None;
    }
    let ghost all = frame_tiles(rgb@, width as int, height as int);
    let mut tiles: Vec<Vec<u8>> = Vec::new();
    let mut i: u32 = 0;
    while i < cols * rows
        invariant
            i <= cols * rows,
            cols * rows <= MAX_TILES,
            1 <= cols <= MAX_SIDE,
            1 <= rows <= MAX_SIDE,
            cols == tiles_across(width as int),
            rows == tiles_across(height as int),
            3 * (width * height) <= rgb.len(),
            all == frame_tiles(rgb@, width as int, height as int),
            views(tiles@) == all.take(i as int),
        decreases cols * rows - i,
    {
        assert(0 <= i / cols < rows && 0 <= i % cols < cols) by (nonlinear_arith)
            requires
                1 <= cols,
                0 <= i < cols * rows,
        ;
        let tile: Vec<u8> = cut_tile(rgb, width, height, i / cols, i % cols);
        let ghost before = views(tiles@);
        tiles.push(tile);
        i = i + 1;
        assert(views(tiles@) =~= before.push(tile@));
        assert(views(tiles@) =~= all.take(i as int));
    }
    assert(views(tiles@) =~= all);
    Some(tiles)
}

/// The payload of the grid item.
pub open spec fn grid_item(rows: int, cols: int, width: int, height: int) -> Seq<u8> {
    zeros(4) + seq![(rows - 1) as u8, (cols - 1) as u8] + enc32(width) + enc32(height)
}

/// The numbers of `n` tiles.
pub open spec fn tile_items(n: nat) -> Seq<u32> {
    Seq::new(n, |i: int| (FIRST_TILE + i) as u32)
}

/// The low 32 bits of a number.
pub open spec fn low32(v: int) -> u64 {
    (v % 0x1_0000_0000) as u64
}

/// An item that lies in the file in one piece.
pub open spec fn one_piece(id: u32, offset: int, length: int) -> IlocView {
    IlocView {
        item_id: id,
        construction_method: 0,
        data_reference_index: 0,
        extents: seq![(low32(offset), low32(length))],
    }
}

/// Where the items lie when the grid item lies at `base`: behind it the tiles, then
/// the Exif item.
pub open spec fn grid_locations(tiles: Seq<Seq<u8>>, base: int) -> Seq<IlocView> {
    seq![one_piece(1, base, 14), one_piece(EXIF_ITEM, base + 14 + tiles_len(tiles), 42)] + Seq::new(
        tiles.len(),
        |i: int|
            one_piece(
                (FIRST_TILE + i) as u32,
                base + 14 + tiles_len(tiles.take(i)),
                tiles[i].len() as int,
            ),
    )
}

/// The item information of a tile.
pub open spec fn tile_infe() -> spec_fn(u32) -> Seq<u8> {
    |id: u32| infe_bytes(id as int, "hvc1"@, 1)
}

/// The item information box, with its entry count in 16 bits.
#[verifier::opaque]
pub open spec fn grid_iinf(n: nat) -> Seq<u8> {
    box_bytes(
        IINF@,
        zeros(4) + enc16(2int + n) + infe_bytes(1, "grid"@, 0) + infe_bytes(
            EXIF_ITEM as int,
            "Exif"@,
            1,
        ) + flat(tile_items(n), tile_infe()),
    )
}

/// The grid is derived from the tiles, and the Exif item describes the grid.
pub open spec fn grid_refs(n: nat) -> Seq<IrefView> {
    seq![
        IrefView { rtype: "dimg"@, from: 1, to: tile_items(n) },
        IrefView { rtype: "cdsc"@, from: EXIF_ITEM, to: seq![1u32] },
    ]
}

/// Every item has all properties: the sizes of the grid and of a tile, and the
/// decoder configuration, are essential; the pixel and colour information is not.
pub open spec fn shared_properties() -> Seq<(u32, bool)> {
    seq![(1u32, true), (2u32, true), (3u32, true), (4u32, false), (5u32, false)]
}

/// The association of a tile with all properties.
pub open spec fn tile_association() -> spec_fn(u32) -> Seq<u8> {
    |id: u32| ipma_entry_bytes(id as int, shared_properties(), 0)
}

/// The item properties box.
#[verifier::opaque]
pub open spec fn grid_iprp(hvcc: Seq<u8>, width: int, height: int, n: nat) -> Seq<u8> {
    let ipco = box_bytes(
        IPCO@,
        ispe_bytes(width, height) + box_bytes(HVCC@, hvcc) + ispe_bytes(TILE as int, TILE as int)
            + PIXI_RGB8_BOX@ + box_bytes(COLR@, LIMITED_NCLX@),
    );
    let ipma = box_bytes(
        IPMA@,
        zeros(4) + enc32(2int + n) + ipma_entry_bytes(1, shared_properties(), 0) + ipma_entry_bytes(
            EXIF_ITEM as int,
            shared_properties(),
            0,
        ) + flat(tile_items(n), tile_association()),
    );
    box_bytes(IPRP@, ipco + ipma)
}

/// The metadata box around the item locations `iloc`.
#[verifier::opaque]
pub open spec fn grid_meta(hvcc: Seq<u8>, width: int, height: int, n: nat, iloc: Seq<u8>) -> Seq<u8> {
    box_bytes(
        META@,
        zeros(4) + box_bytes(HDLR@, PICT_HANDLER@) + DINF_BOX@ + pitm_bytes(0, 1) + grid_iinf(n)
            + iref_bytes(0, grid_refs(n)) + grid_iprp(hvcc, width, height, n) + box_bytes(
            IDAT@,
            Seq::empty(),
        ) + iloc,
    )
}

/// Where the grid item lies: behind the file type, the metadata and the header of
/// the media data.
pub open spec fn grid_base(hvcc: Seq<u8>, tiles: Seq<Seq<u8>>, width: int, height: int) -> int {
    28int + grid_meta(hvcc, width, height, tiles.len(), iloc_bytes(grid_locations(tiles, 0))).len() + 8
}

/// The media data: the grid item, the tiles and the Exif item.
pub open spec fn grid_media(tiles: Seq<Seq<u8>>, width: int, height: int) -> Seq<u8> {
    grid_item(tiles_across(height), tiles_across(width), width, height) + flat(tiles, as_is())
        + EMPTY_EXIF@
}

/// A tiled HEIC file of a frame.
pub open spec fn grid_file(hvcc: Seq<u8>, tiles: Seq<Seq<u8>>, width: int, height: int) -> Seq<u8> {
    let base = grid_base(hvcc, tiles, width, height);
    box_bytes(FTYP@, HEIC_BRANDS@) + grid_meta(
        hvcc,
        width,
        height,
        tiles.len(),
        iloc_bytes(grid_locations(tiles, base)),
    ) + box_bytes(MDAT@, grid_media(tiles, width, height))
}

fn number_of_tiles(n: usize) -> (r: Vec<u32>)
    requires
        n <= MAX_TILES,
    ensures
        r@ == tile_items(n as nat),
{
    let mut ids: Vec<u32> = Vec::new();
    let mut i: usize = 0;
    while i < n
        invariant
            i <= n <= MAX_TILES,
            ids@ == tile_items(i as nat),
        decreases n - i,
    {
        ids.push(FIRST_TILE + i as u32);
        i = i + 1;
        assert(ids@ =~= tile_items(i as nat));
    }
    ids
}

fn make_grid_iinf(ids: &Vec<u32>) -> (r: Vec<u8>)
    requires
        ids@ == tile_items(ids@.len()),
        ids@.len() <= MAX_TILES,
    ensures
        r@ == grid_iinf(ids@.len()),
{
    let mut body: Vec<u8> = Vec::new();
    append_zeros(&mut body, 4);
    push16(&mut body, 2 + ids.len() as u16);
    append(&mut body, make_infe_box(1, "grid", 0).as_slice());
    append(&mut body, make_infe_box(EXIF_ITEM, "Exif", 1).as_slice());
    let ghost base = body@;
    let mut i: usize = 0;
    assert(ids@.take(0) =~= Seq::empty());
    assert(body@ =~= base + flat(ids@.take(0), tile_infe()));
    while i < ids.len()
        invariant
            i <= ids@.len(),
            body@ == base + flat(ids@.take(i as int), tile_infe()),
        decreases ids@.len() - i,
    {
        append(&mut body, make_infe_box(ids[i], "hvc1", 1).as_slice());
        proof {
            lemma_flat_take(ids@, tile_infe(), i as int);
        }
        i = i + 1;
        assert(body@ =~= base + flat(ids@.take(i as int), tile_infe()));
    }
    assert(ids@.take(i as int) =~= ids@);
    proof {
        reveal(grid_iinf);
    }
    assert(body@ =~= zeros(4) + enc16(2int + ids@.len()) + infe_bytes(1, "grid"@, 0) + infe_bytes(
        EXIF_ITEM as int,
        "Exif"@,
        1,
    ) + flat(tile_items(ids@.len()), tile_infe()));
    make_box(&IINF, body.as_slice())
}

fn make_grid_iref(ids: &Vec<u32>) -> (r: Vec<u8>)
    requires
        ids@ == tile_items(ids@.len()),
    ensures
        r@ == iref_bytes(0, grid_refs(ids@.len())),
{
    let dimg: IrefEntry = IrefEntry { rtype: "dimg".to_string(), from: 1, to: copy_ids(ids) };
    let cdsc: IrefEntry = IrefEntry { rtype: "cdsc".to_string(), from: EXIF_ITEM, to: vec![1u32] };
    let refs: Vec<IrefEntry> = vec![dimg, cdsc];
    proof {
        assert(refs@[0]@ =~= grid_refs(ids@.len())[0]);
        assert(refs@[1]@ =~= grid_refs(ids@.len())[1]);
        assert(views(refs@) =~= grid_refs(ids@.len()));
        reveal_strlit("dimg");
        reveal_strlit("cdsc");
        assert(is_ascii_chars("dimg"@));
        is_ascii_chars_encode_utf8("dimg"@);
        assert(is_ascii_chars("cdsc"@));
        is_ascii_chars_encode_utf8("cdsc"@);
    }
    make_iref_full_box(0, refs.as_slice())
}

fn make_grid_ipma(ids: &Vec<u32>) -> (r: Vec<u8>)
    requires
        ids@ == tile_items(ids@.len()),
        ids@.len() <= MAX_TILES,
    ensures
        r@ == box_bytes(
            IPMA@,
            zeros(4) + enc32(2int + ids@.len()) + ipma_entry_bytes(1, shared_properties(), 0)
                + ipma_entry_bytes(EXIF_ITEM as int, shared_properties(), 0) + flat(
                tile_items(ids@.len()),
                tile_association(),
            ),
        ),
{
    let shared: Vec<(u32, bool)> = vec![(1, true), (2, true), (3, true), (4, false), (5, false)];
    assert(shared@ =~= shared_properties());
    let mut body: Vec<u8> = Vec::new();
    append_zeros(&mut body, 4);
    push32(&mut body, 2 + ids.len() as u32);
    append(&mut body, make_ipma_entry(1, shared.as_slice(), 0).as_slice());
    append(&mut body, make_ipma_entry(EXIF_ITEM, shared.as_slice(), 0).as_slice());
    let ghost base = body@;
    let mut i: usize = 0;
    assert(ids@.take(0) =~= Seq::empty());
    assert(body@ =~= base + flat(ids@.take(0), tile_association()));
    while i < ids.len()
        invariant
            i <= ids@.len(),
            shared@ == shared_properties(),
            body@ == base + flat(ids@.take(i as int), tile_association()),
        decreases ids@.len() - i,
    {
        append(&mut body, make_ipma_entry(ids[i], shared.as_slice(), 0).as_slice());
        proof {
            lemma_flat_take(ids@, tile_association(), i as int);
        }
        i = i + 1;
        assert(body@ =~= base + flat(ids@.take(i as int), tile_association()));
    }
    assert(ids@.take(i as int) =~= ids@);
    assert(body@ =~= zeros(4) + enc32(2int + ids@.len()) + ipma_entry_bytes(1, shared_properties(), 0)
        + ipma_entry_bytes(EXIF_ITEM as int, shared_properties(), 0) + flat(
        tile_items(ids@.len()),
        tile_association(),
    ));
    make_box(&IPMA, body.as_slice())
}

fn make_grid_iprp(hvcc: &[u8], width: u32, height: u32, ids: &Vec<u32>) -> (r: Vec<u8>)
    requires
        ids@ == tile_items(ids@.len()),
        ids@.len() <= MAX_TILES,
    ensures
        r@ == grid_iprp(hvcc@, width as int, height as int, ids@.len()),
{
    let mut ipco: Vec<u8> = make_ispe_box(width, height);
    append(&mut ipco, make_box(&HVCC, hvcc).as_slice());
    append(&mut ipco, make_ispe_box(TILE, TILE).as_slice());
    append(&mut ipco, PIXI_RGB8_BOX.as_slice());
    append(&mut ipco, make_box(&COLR, LIMITED_NCLX.as_slice()).as_slice());
    let mut body: Vec<u8> = make_box(&IPCO, ipco.as_slice());
    append(&mut body, make_grid_ipma(ids).as_slice());
    proof {
        reveal(grid_iprp);
    }
    make_box(&IPRP, body.as_slice())
}

fn make_grid_meta(hvcc: &[u8], width: u32, height: u32, ids: &Vec<u32>, iloc: &[u8]) -> (r: Vec<u8>)
    requires
        ids@ == tile_items(ids@.len()),
        ids@.len() <= MAX_TILES,
    ensures
        r@ == grid_meta(hvcc@, width as int, height as int, ids@.len(), iloc@),
{
    let mut body: Vec<u8> = Vec::new();
    append_zeros(&mut body, 4);
    append(&mut body, make_box(&HDLR, PICT_HANDLER.as_slice()).as_slice());
    append(&mut body, DINF_BOX.as_slice());
    append(&mut body, make_pitm_box(0, 1).as_slice());
    append(&mut body, make_grid_iinf(ids).as_slice());
    append(&mut body, make_grid_iref(ids).as_slice());
    append(&mut body, make_grid_iprp(hvcc, width, height, ids).as_slice());
    let nothing: [u8; 0] = [];
    assert(nothing@ =~= Seq::<u8>::empty());
    append(&mut body, make_box(&IDAT, nothing.as_slice()).as_slice());
    append(&mut body, iloc);
    proof {
        reveal(grid_meta);
    }
    assert(body@ =~= zeros(4) + box_bytes(HDLR@, PICT_HANDLER@) + DINF_BOX@ + pitm_bytes(0, 1)
        + grid_iinf(ids@.len()) + iref_bytes(0, grid_refs(ids@.len())) + grid_iprp(
        hvcc@,
        width as int,
        height as int,
        ids@.len(),
    ) + box_bytes(IDAT@, Seq::empty()) + iloc@);
    make_box(&META, body.as_slice())
}

fn at_one_piece(id: u32, offset: u64, length: u64) -> (r: IlocEntry)
    ensures
        r@ == (IlocView {
            item_id: id,
            construction_method: 0,
            data_reference_index: 0,
            extents: seq![(offset, length)],
        }),
{
    let extents: Vec<(u64, u64)> = vec![(offset, length)];
    assert(extents@ =~= seq![(offset, length)]);
    IlocEntry { item_id: id, construction_method: 0, data_reference_index: 0, extents }
}

/// The item locations when the low 32 bits of the grid item's place are `base`.
fn make_grid_iloc(tiles: &Vec<Vec<u8>>, base: u64, Ghost(at): Ghost<int>) -> (r: Vec<u8>)
    requires
        tiles@.len() <= MAX_TILES,
        base == low32(at),
    ensures
        r@ == iloc_bytes(grid_locations(views(tiles@), at)),
{
    let ghost v = views(tiles@);
    let ghost all = grid_locations(v, at);
    let mut entries: Vec<IlocEntry> = Vec::new();
    let mut cur: u64 = (base + 14) % 0x1_0000_0000;
    let mut i: usize = 0;
    proof {
        lemma_mod_part(at, 14);
        assert(v.take(0) =~= Seq::empty());
    }
    while i < tiles.len()
        invariant
            i <= tiles@.len() <= MAX_TILES,
            v == views(tiles@),
            all == grid_locations(v, at),
            cur == low32(at + 14 + tiles_len(v.take(i as int))),
            views(entries@) == all.subrange(2, 2 + i),
        decreases tiles@.len() - i,
    {
        let len: u64 = tiles[i].len() as u64 % 0x1_0000_0000;
        let e: IlocEntry = at_one_piece(FIRST_TILE + i as u32, cur, len);
        proof {
            assert(v[i as int] == tiles@[i as int]@);
            assert(e@ =~= all[2 + i]);
            lemma_flat_take(v, as_is(), i as int);
            let before = at + 14 + tiles_len(v.take(i as int));
            lemma_mod_part(before, v[i as int].len() as int % 0x1_0000_0000);
            lemma_mod_part(v[i as int].len() as int, before);
        }
        let ghost done = views(entries@);
        entries.push(e);
        assert(views(entries@) =~= done.push(e@));
        cur = (cur + len) % 0x1_0000_0000;
        i = i + 1;
        assert(views(entries@) =~= all.subrange(2, 2 + i));
    }
    assert(v.take(i as int) =~= v);
    let mut list: Vec<IlocEntry> = vec![at_one_piece(1, base, 14), at_one_piece(EXIF_ITEM, cur, 42)];
    let ghost first = list@;
    assert(first[0]@ =~= all[0]);
    assert(first[1]@ =~= all[1]);
    let ghost rest = entries@;
    list.append(&mut entries);
    assert forall|k: int| 0 <= k < all.len() implies views(list@)[k] == all[k] by {
        if k >= 2 {
            assert(views(rest)[k - 2] == all.subrange(2, 2 + i)[k - 2]);
        }
    }
    assert(views(list@) =~= all);
    make_iloc_box(list.as_slice())
}

/// Lay out the items of a frame; the tiles have their stored form.
fn lay_out_grid(hvcc: &[u8], tiles: &Vec<Vec<u8>>, width: u32, height: u32, cols: u32, rows: u32) -> (r: Vec<u8>)
    requires
        tiles@.len() <= MAX_TILES,
        cols == tiles_across(width as int),
        rows == tiles_across(height as int),
        1 <= cols <= MAX_SIDE,
        1 <= rows <= MAX_SIDE,
    ensures
        r@ == grid_file(hvcc@, views(tiles@), width as int, height as int),
{
    let ghost v = views(tiles@);
    let ids: Vec<u32> = number_of_tiles(tiles.len());
    let blank: Vec<u8> = make_grid_iloc(tiles, 0, Ghost(0));
    let measured: Vec<u8> = make_grid_meta(hvcc, width, height, &ids, blank.as_slice());
    let base: u64 = (measured.len() as u64 % 0x1_0000_0000 + 36) % 0x1_0000_0000;
    let ghost at = grid_base(hvcc@, v, width as int, height as int);
    proof {
        lemma_mod_part(measured@.len() as int, 36);
    }
    let iloc: Vec<u8> = make_grid_iloc(tiles, base, Ghost(at));
    let meta: Vec<u8> = make_grid_meta(hvcc, width, height, &ids, iloc.as_slice());
    let mut media: Vec<u8> = Vec::new();
    append_zeros(&mut media, 4);
    media.push((rows - 1) as u8);
    media.push((cols - 1) as u8);
    push32(&mut media, width);
    push32(&mut media, height);
    append_all(&mut media, tiles.as_slice());
    append(&mut media, EMPTY_EXIF.as_slice());
    assert(media@ =~= grid_media(v, width as int, height as int));
    let mut out: Vec<u8> = make_box(&FTYP, HEIC_BRANDS.as_slice());
    append(&mut out, meta.as_slice());
    append(&mut out, make_box(&MDAT, media.as_slice()).as_slice());
    out
}

/// The tiled HEIC of a frame whose tiles were encoded to `streams`, or why there is
/// none. `None` where the frame cannot be stored, where there is not one stream for
/// each tile, or where a stream ends in a start code.
pub open spec fn heic_grid(streams: Seq<Seq<u8>>, width: u32, height: u32) -> Option<
    Result<GridView, Seq<char>>,
> {
    let cols = tiles_across(width as int);
    let rows = tiles_across(height as int);
    if !grid_fits(width, height) || streams.len() != cols * rows {
        None
    } else if hvcc_of(streams[0], 1) is None {
        Some(Err("tile hvcC extraction failed"@))
    } else if !all_packable(streams) {
        None
    } else {
        Some(
            Ok(
                GridView {
                    data: grid_file(
                        hvcc_of(streams[0], 1).unwrap(),
                        tile_payloads(streams),
                        width as int,
                        height as int,
                    ),
                    cols: cols as u32,
                    rows: rows as u32,
                    width,
                    height,
                },
            ),
        )
    }
}

/// The first decoder configuration is that of the first tile where it has one.
proof fn lemma_first_hvcc(streams: Seq<Seq<u8>>, chroma: u8, n: nat)
    requires
        0 < n <= streams.len(),
        hvcc_of(streams[0], chroma) is Some,
    ensures
        Some(first_hvcc(streams, chroma, n)) == hvcc_of(streams[0], chroma),
        first_hvcc(streams, chroma, n).len() > 0,
    decreases n,
{
    let h = hvcc_of(streams[0], chroma).unwrap();
    assert(h[0] == 1);
    if n > 1 {
        lemma_first_hvcc(streams, chroma, (n - 1) as nat);
    } else {
        assert(first_hvcc(streams, chroma, 0).len() == 0);
    }
}

/// Like `build_heic_grid`, for any input: `None` where it has nothing to say.
pub fn try_build_heic_grid(streams: &Vec<Vec<u8>>, width: u32, height: u32) -> (r: Option<
    Result<GridContainer, String>,
>)
    ensures
        told_some(r) == heic_grid(views(streams@), width, height),
{
    let (cols, rows): (u32, u32) = match grid_size(width, height) {
        Some(g) => g,
        None => {
            return None;
        },
    };
    assert(1 <= cols * rows) by (nonlinear_arith)
        requires
            1 <= cols,
            1 <= rows,
    ;
    if streams.len() as u64 != cols as u64 * rows as u64 {
        return None;
    }
    let ghost v = views(streams@);
    assert(streams@[0]@ == v[0]);
    if extract_hvcc_config_with_chroma(streams[0].as_slice(), 1).is_none() {
        return Some(Err("tile hvcC extraction failed".to_string()));
    }
    match package_tiles(streams.as_slice(), 1) {
        None => None,
        Some(p) => {
            proof {
                lemma_first_hvcc(v, 1, v.len());
            }
            let data: Vec<u8> = lay_out_grid(p.hvcc.as_slice(), &p.payloads, width, height, cols, rows);
            Some(Ok(GridContainer { data, cols, rows, width, height }))
        },
    }
}

/// Build a tiled HEIC of a frame from its encoded tiles, one HEVC byte stream each,
/// row by row. The decoder configuration is that of the first tile.
pub fn build_heic_grid(streams: &Vec<Vec<u8>>, width: u32, height: u32) -> (r: Result<
    GridContainer,
    String,
>)
    requires
        heic_grid(views(streams@), width, height) is Some,
    ensures
        Some(told(r)) == heic_grid(views(streams@), width, height),
{
    try_build_heic_grid(streams, width, height).unwrap()
}

} // verus!
