//! Where the values of a gain map stand in its tiles.

use crate::assemble::{SourceView, number_among, stored_as_presented};
use crate::exif::{ExifOrientation, OppoCompat, orientation_of};
use crate::fourcc::IROT;
use crate::frame_laws::lemma_div_row;
use crate::gain_tiles::{
    PreparedTiles, cut_fault, holds_raster, lhdr_prepared, oriented_source, size_fits,
    uhdr_prepared,
};
use crate::gainmap::{aligned, gains_of, mask_fits};
use crate::isobmff::{IpmaView, ipma_for};
use crate::raster::{
    destination, orient_error, orientation_is_a_permutation, pixel_index, presents, tile_byte,
    tripled,
};
use crate::seqs::{first_where, views};
use vstd::prelude::*;

verus! {

/// Where the pixel at column `x` of row `y` of a stored image is shown, column and row, as the
/// Exif orientation `n` says: 1 as it is, 2 mirrored, 3 upside down, 4 both, 6 turned clockwise
/// by a quarter, 8 counter-clockwise, and 5 and 7 these, mirrored.
pub open spec fn shown_at(n: int, width: int, height: int, x: int, y: int) -> (int, int) {
    if n == 2 {
        (width - 1 - x, y)
    } else if n == 3 {
        (width - 1 - x, height - 1 - y)
    } else if n == 4 {
        (x, height - 1 - y)
    } else if n == 5 {
        (y, x)
    } else if n == 6 {
        (height - 1 - y, x)
    } else if n == 7 {
        (height - 1 - y, width - 1 - x)
    } else if n == 8 {
        (y, width - 1 - x)
    } else {
        (x, y)
    }
}

/// The byte that a grid of these tiles shows as the `c`-th at column `x` of row `y`: tiles of
/// 512 pixels a side follow each other row by row, and so do the pixels of a tile.
pub open spec fn shown(p: PreparedTiles, x: int, y: int, c: int) -> u8 {
    let n: int = if p.oppo_rgb {
        3
    } else {
        1
    };
    let cols = (p.gain_width + 511) / 512;
    p.tiles@[(y / 512) * cols + x / 512]@[((y % 512) * 512 + x % 512) * n + c]
}

/// Whether tiles are as many as cover the size that they have, each of 512 pixels a side.
pub open spec fn tiled(p: PreparedTiles) -> bool {
    let n: int = if p.oppo_rgb {
        3
    } else {
        1
    };
    &&& p.cols == (p.gain_width + 511) / 512
    &&& p.rows == (p.gain_height + 511) / 512
    &&& p.tiles@.len() == p.cols * p.rows
    &&& forall|i: int| 0 <= i < p.tiles@.len() ==> (#[trigger] p.tiles@[i])@.len() == 512 * 512 * n
}

proof fn lemma_tiled(p: PreparedTiles, o: ExifOrientation, pixels: Seq<u8>, w: u32, h: u32)
    requires
        holds_raster(p, o, pixels, w, h),
        0 < w,
        0 < h,
    ensures
        tiled(p),
{
    let cols = (w + 511) / 512;
    let rows = (h + 511) / 512;
    let v = views(p.tiles@);
    assert(cols * rows == rows * cols) by (nonlinear_arith);
    assert forall|i: int| 0 <= i < p.tiles@.len() implies (#[trigger] p.tiles@[i])@.len() == 512
        * 512 * p.pixel_len() by {
        let row = i / cols;
        let col = i % cols;
        assert(0 <= row < rows && 0 <= col < cols && row * cols + col == i) by (nonlinear_arith)
            requires
                0 <= i < cols * rows,
                0 < cols,
                row == i / cols,
                col == i % cols,
        ;
        assert(v[row * cols + col] == p.tiles@[i]@);
    }
}

proof fn lemma_shown(
    p: PreparedTiles,
    o: ExifOrientation,
    pixels: Seq<u8>,
    w: u32,
    h: u32,
    x: int,
    y: int,
    c: int,
)
    requires
        holds_raster(p, o, pixels, w, h),
        0 <= x < w,
        0 <= y < h,
        0 <= c < p.pixel_len(),
    ensures
        shown(p, x, y, c) == pixels[(y * w + x) * p.pixel_len() + c],
{
    let n = p.pixel_len();
    let cols = (w + 511) / 512;
    let rows = (h + 511) / 512;
    let (row, col) = (y / 512, x / 512);
    let v = views(p.tiles@);
    let i = row * cols + col;
    assert(0 <= i < cols * rows) by (nonlinear_arith)
        requires
            0 <= row < rows,
            0 <= col < cols,
            i == row * cols + col,
    ;
    assert(v[row * cols + col] == p.tiles@[i]@);
    let (x0, y0) = ((col * 512) as u32, (row * 512) as u32);
    let b = tile_byte(pixels, w, h, n, w * n, x0, y0, x % 512, y % 512, c);
    assert(y * (w * n) + x * n + c == (y * w + x) * n + c) by (nonlinear_arith);
}

/// What a decoder gave as the gain map of a source: all its RGB pixels, of a size that can be
/// reckoned with.
pub open spec fn is_full_map(pixels: Seq<u8>, width: u32, height: u32) -> bool {
    &&& 0 < width <= u32::MAX - 511
    &&& 0 < height <= u32::MAX - 511
    &&& width * height * 3 <= usize::MAX
    &&& pixels.len() == width * height * 3
}

/// Whether the `j`-th association of the primary item is its first `irot` property.
pub open spec fn is_primary_turn(src: SourceView, e: int, j: int) -> bool {
    &&& is_primary_entry(src, e)
    &&& 0 <= j < src.ipma_entries[e].associations.len()
    &&& is_turn(src, src.ipma_entries[e].associations[j].0)
    &&& forall|i: int|
        0 <= i < j ==> !is_turn(src, (#[trigger] src.ipma_entries[e].associations[i]).0)
}

/// Whether the `e`-th associations are the first of the primary item.
pub open spec fn is_primary_entry(src: SourceView, e: int) -> bool {
    &&& 0 <= e < src.ipma_entries.len()
    &&& src.ipma_entries[e].item_id == src.primary_id
    &&& forall|i: int| 0 <= i < e ==> (#[trigger] src.ipma_entries[i]).item_id != src.primary_id
}

/// Whether the property of this number, counted from one, is of type `irot`.
pub open spec fn is_turn(src: SourceView, number: u32) -> bool {
    1 <= number <= src.props.len() && src.props[number - 1].ptype == "irot"@
}

/// Whether the primary item says that it is shown without a turn: it has an `irot` property,
/// and this reads zero.
pub open spec fn is_upright(src: SourceView) -> bool {
    exists|e: int, j: int|
        #![trigger src.ipma_entries[e].associations[j]]
        is_primary_turn(src, e, j) && {
            let raw = src.props[src.ipma_entries[e].associations[j].0 - 1].raw;
            raw.len() >= 9 && raw.subrange(4, 8) == seq![0x69u8, 0x72u8, 0x6fu8, 0x74u8] && raw[8]
                % 4 == 0
        }
}

pub proof fn lemma_number(src: SourceView, assocs: Seq<(u32, bool)>, i: int)
    requires
        0 <= i <= assocs.len(),
    ensures
        match number_among(src.props, assocs, i, "irot"@) {
            Some(n) => exists|j: int|
                i <= j < assocs.len() && (#[trigger] assocs[j]).0 == n && is_turn(src, n) && forall|
                    k: int,
                |
                    i <= k < j ==> !is_turn(src, (#[trigger] assocs[k]).0),
            None => forall|k: int| i <= k < assocs.len() ==> !is_turn(src, (#[trigger] assocs[k]).0),
        },
    decreases assocs.len() - i,
{
    if i < assocs.len() {
        lemma_number(src, assocs, i + 1);
        let n = assocs[i].0;
        if is_turn(src, n) {
            assert(assocs[i].0 == n);
        } else {
            match number_among(src.props, assocs, i + 1, "irot"@) {
                Some(m) => {
                    let j = choose|j: int|
                        i + 1 <= j < assocs.len() && (#[trigger] assocs[j]).0 == m && is_turn(src, m)
                            && forall|k: int|
                            i + 1 <= k < j ==> !is_turn(src, (#[trigger] assocs[k]).0);
                    assert(assocs[j].0 == m);
                },
                None => {},
            }
        }
    }
}

pub proof fn lemma_first_entry(entries: Seq<IpmaView>, id: u32)
    ensures
        match first_where(entries, ipma_for(id)) {
            None => forall|i: int| 0 <= i < entries.len() ==> (#[trigger] entries[i]).item_id != id,
            Some(x) => exists|e: int|
                0 <= e < entries.len() && #[trigger] entries[e] == x && x.item_id == id && forall|
                    i: int,
                |
                    0 <= i < e ==> (#[trigger] entries[i]).item_id != id,
        },
    decreases entries.len(),
{
    if entries.len() > 0 {
        let rest = entries.drop_first();
        lemma_first_entry(rest, id);
        if entries[0].item_id == id {
            assert(entries[0] == first_where(entries, ipma_for(id))->0);
        } else {
            match first_where(rest, ipma_for(id)) {
                None => {
                    assert forall|i: int| 0 <= i < entries.len() implies (
                    #[trigger] entries[i]).item_id != id by {
                        if i > 0 {
                            assert(rest[i - 1] == entries[i]);
                        }
                    }
                },
                Some(x) => {
                    let e = choose|e: int|
                        0 <= e < rest.len() && #[trigger] rest[e] == x && x.item_id == id && forall|
                            i: int,
                        |
                            0 <= i < e ==> (#[trigger] rest[i]).item_id != id;
                    assert(entries[e + 1] == x);
                    assert forall|i: int| 0 <= i < e + 1 implies (#[trigger] entries[i]).item_id
                        != id by {
                        if i > 0 {
                            assert(rest[i - 1] == entries[i]);
                        }
                    }
                },
            }
        }
    }
}

/// There is one first `irot` property at most.
pub proof fn lemma_one_turn(src: SourceView, e: int, j: int, f: int, k: int)
    requires
        is_primary_turn(src, e, j),
        is_primary_entry(src, f),
        0 <= k < src.ipma_entries[f].associations.len(),
        is_turn(src, src.ipma_entries[f].associations[k].0),
        forall|i: int|
            0 <= i < k ==> !is_turn(src, (#[trigger] src.ipma_entries[f].associations[i]).0),
    ensures
        e == f,
        j == k,
{
    if e < f {
        assert(src.ipma_entries[e].item_id != src.primary_id);
    } else if f < e {
        assert(src.ipma_entries[f].item_id != src.primary_id);
    }
    if j < k {
        assert(!is_turn(src, src.ipma_entries[e].associations[j].0));
    } else if k < j {
        assert(!is_turn(src, src.ipma_entries[f].associations[k].0));
    }
}

/// A gain map is turned exactly where the file is turned and its primary is upright.
proof fn lemma_presented(src: SourceView, o: ExifOrientation)
    ensures
        stored_as_presented(src, o) == (o != ExifOrientation::Normal && is_upright(src)),
{
    let id = src.primary_id;
    lemma_first_entry(src.ipma_entries, id);
    assert(IROT@ =~= seq![0x69u8, 0x72u8, 0x6fu8, 0x74u8]);
    match first_where(src.ipma_entries, ipma_for(id)) {
        None => {
            assert(!is_upright(src));
        },
        Some(x) => {
            let f = choose|e: int|
                0 <= e < src.ipma_entries.len() && #[trigger] src.ipma_entries[e] == x && x.item_id
                    == id && forall|i: int|
                    0 <= i < e ==> (#[trigger] src.ipma_entries[i]).item_id != id;
            assert(is_primary_entry(src, f));
            let assocs = x.associations;
            lemma_number(src, assocs, 0);
            match number_among(src.props, assocs, 0, "irot"@) {
                Some(n) => {
                    let k = choose|j: int|
                        0 <= j < assocs.len() && (#[trigger] assocs[j]).0 == n && is_turn(src, n)
                            && forall|i: int|
                            0 <= i < j ==> !is_turn(src, (#[trigger] assocs[i]).0);
                    assert(src.ipma_entries[f].associations[k].0 == n);
                    assert(is_primary_turn(src, f, k));
                    if is_upright(src) {
                        let (e, j) = choose|e: int, j: int|
                            #![trigger src.ipma_entries[e].associations[j]]
                            is_primary_turn(src, e, j) && {
                                let raw = src.props[src.ipma_entries[e].associations[j].0 - 1].raw;
                                raw.len() >= 9 && raw.subrange(4, 8) == seq![
                                    0x69u8,
                                    0x72u8,
                                    0x6fu8,
                                    0x74u8,
                                ] && raw[8] % 4 == 0
                            };
                        lemma_one_turn(src, e, j, f, k);
                    }
                },
                None => {
                    if is_upright(src) {
                        let (e, j) = choose|e: int, j: int|
                            #![trigger src.ipma_entries[e].associations[j]]
                            is_primary_turn(src, e, j);
                        if e < f {
                            assert(src.ipma_entries[e].item_id != id);
                        } else if f < e {
                            assert(src.ipma_entries[f].item_id != id);
                        }
                        assert(!is_turn(src, assocs[j].0));
                    }
                },
            }
        },
    }
}

/// The tiles of a decoded gain map show it beside the primary: where the Exif data turn the
/// file and the primary's `irot` reads zero, so that the primary is stored as it is shown, the
/// gain map is turned as the Exif orientation says; else every pixel stays, for the gain map
/// is shown with the primary's turn.
pub proof fn gain_maps_are_turned_with_the_primary(
    s: Seq<u8>,
    src: SourceView,
    o: ExifOrientation,
    number: int,
    pixels: Seq<u8>,
    width: u32,
    height: u32,
    r: Option<Result<PreparedTiles, String>>,
    x: int,
    y: int,
    c: int,
)
    requires
        oriented_source(s) == Some(Ok::<(SourceView, ExifOrientation), Seq<char>>((src, o))),
        orientation_of(number) == Some(o),
        is_full_map(pixels, width, height),
        uhdr_prepared(s, Ok((pixels, width, height)), r),
        0 <= x < width,
        0 <= y < height,
        0 <= c < 3,
    ensures
        1 <= number <= 8,
        r matches Some(Ok(p)) && {
            let n = if is_upright(src) {
                number
            } else {
                1
            };
            let d = shown_at(n, width as int, height as int, x, y);
            &&& p.oppo_rgb
            &&& tiled(p)
            &&& p.gain_width == (if n >= 5 {
                height
            } else {
                width
            })
            &&& p.gain_height == (if n >= 5 {
                width
            } else {
                height
            })
            &&& 0 <= d.0 < p.gain_width
            &&& 0 <= d.1 < p.gain_height
            &&& shown(p, d.0, d.1, c) == pixels[(y * width + x) * 3 + c]
        },
{
    lemma_presented(src, o);
    let (w, h) = o.presented(width, height);
    let d = destination(o, width as int, height as int, x, y);
    lemma_map_size(width, height);
    lemma_pixel_place(width as int, x, y, c);
    orientation_is_a_permutation(o, width, height, x, y);
    let p = r->0->Ok_0;
    if stored_as_presented(src, o) {
        let rgb = choose|rgb: Seq<u8>|
            #[trigger]
            presents(rgb, pixels, width, height, 3, width * 3, o) && holds_raster(p, o, rgb, w, h);
        assert(pixels[y * (width * 3) + x * 3 + c] == pixels[(y * width + x) * 3 + c]);
        lemma_shown(p, o, rgb, w, h, d.0, d.1, c);
        lemma_tiled(p, o, rgb, w, h);
    } else {
        lemma_shown(p, o, pixels, width, height, x, y, c);
        lemma_tiled(p, o, pixels, width, height);
    }
}

proof fn lemma_pixel_place(width: int, x: int, y: int, c: int)
    ensures
        y * (width * 3) + x * 3 + c == (y * width + x) * 3 + c,
{
    assert(y * (width * 3) + x * 3 + c == (y * width + x) * 3 + c) by (nonlinear_arith);
}

proof fn lemma_map_size(w: u32, h: u32)
    requires
        0 < w <= u32::MAX - 511,
        0 < h <= u32::MAX - 511,
        w * h * 3 <= usize::MAX,
    ensures
        size_fits(w, h),
        orient_error(w * h * 3, w, h, 3, w * 3) is None,
        cut_fault(w * h * 3, w, h, 3) is None,
        cut_fault(w * h * 3, h, w, 3) is None,
{
    let n = w * h;
    assert((w * 3) * h == n * 3 && (h * 3) * w == n * 3) by (nonlinear_arith)
        requires
            n == w * h,
    ;
    assert(w * 3 <= n * 3 && h * 3 <= n * 3) by (nonlinear_arith)
        requires
            n == w * h,
            0 < w,
            0 < h,
    ;
}

/// Whether a mask has a value for each of its pixels, and a size that can be reckoned with.
pub open spec fn is_full_mask(mask: Seq<u8>, width: u32, height: u32) -> bool {
    &&& 0 < width <= u32::MAX - 511
    &&& 0 < height <= u32::MAX - 511
    &&& width * height * 3 <= usize::MAX
    &&& ((width + 255) / 256 * 256) * height <= usize::MAX
    &&& width * height <= mask.len()
}

/// The tiles of a mask show the gain of each of its values, turned as the Exif orientation of
/// the source says: once in gray tiles, and three times where the tiles are RGB, for any
/// compatibility with OPPO.
pub proof fn masks_become_gains(
    s: Seq<u8>,
    src: SourceView,
    o: ExifOrientation,
    number: int,
    mask: Seq<u8>,
    width: u32,
    height: u32,
    gains: Seq<u8>,
    compat: OppoCompat,
    r: Option<Result<PreparedTiles, String>>,
    x: int,
    y: int,
    c: int,
)
    requires
        oriented_source(s) == Some(Ok::<(SourceView, ExifOrientation), Seq<char>>((src, o))),
        orientation_of(number) == Some(o),
        is_full_mask(mask, width, height),
        gains.len() == 256,
        lhdr_prepared(s, mask, width, height, gains, compat, r),
        0 <= x < width,
        0 <= y < height,
        0 <= c < (if compat == OppoCompat::Off {
            1int
        } else {
            3int
        }),
    ensures
        1 <= number <= 8,
        r matches Some(Ok(p)) && {
            let d = shown_at(number, width as int, height as int, x, y);
            &&& p.oppo_rgb == (compat != OppoCompat::Off)
            &&& tiled(p)
            &&& p.gain_width == (if number >= 5 {
                height
            } else {
                width
            })
            &&& p.gain_height == (if number >= 5 {
                width
            } else {
                height
            })
            &&& 0 <= d.0 < p.gain_width
            &&& 0 <= d.1 < p.gain_height
            &&& shown(p, d.0, d.1, c) == gains[mask[y * width + x] as int]
        },
{
    let stride = aligned(width as int, 256);
    let map = gains_of(mask, width as int, height as int, width as int, gains);
    let (w, h) = o.presented(width, height);
    let rgb = compat != OppoCompat::Off;
    lemma_gain_at(mask, width, height, gains, x, y);
    lemma_mask_tiles(s, src, o, mask, width, height, gains, compat, r);
    let p = r->0->Ok_0;
    let gray = choose|gray: Seq<u8>|
        #[trigger]
        presents(gray, map, width, height, 1, stride, o) && holds_raster(
            p,
            o,
            if rgb {
                tripled(gray)
            } else {
                gray
            },
            w,
            h,
        );
    lemma_mask_shown(p, o, gray, map, width, height, stride, x, y, c);
}

proof fn lemma_mask_tiles(
    s: Seq<u8>,
    src: SourceView,
    o: ExifOrientation,
    mask: Seq<u8>,
    width: u32,
    height: u32,
    gains: Seq<u8>,
    compat: OppoCompat,
    r: Option<Result<PreparedTiles, String>>,
)
    requires
        oriented_source(s) == Some(Ok::<(SourceView, ExifOrientation), Seq<char>>((src, o))),
        is_full_mask(mask, width, height),
        lhdr_prepared(s, mask, width, height, gains, compat, r),
    ensures
        r matches Some(Ok(p)) && p.oppo_rgb == (compat != OppoCompat::Off) && exists|gray: Seq<u8>|
            #[trigger]
            presents(
                gray,
                gains_of(mask, width as int, height as int, width as int, gains),
                width,
                height,
                1,
                aligned(width as int, 256),
                o,
            ) && holds_raster(
                p,
                o,
                if compat != OppoCompat::Off {
                    tripled(gray)
                } else {
                    gray
                },
                o.presented(width, height).0,
                o.presented(width, height).1,
            ),
{
    lemma_mask_size(mask, width, height);
    lemma_map_size(width, height);
}

/// A value of a map stands in the tiles where its pixel is shown.
proof fn lemma_mask_shown(
    p: PreparedTiles,
    o: ExifOrientation,
    gray: Seq<u8>,
    map: Seq<u8>,
    width: u32,
    height: u32,
    stride: int,
    x: int,
    y: int,
    c: int,
)
    requires
        presents(gray, map, width, height, 1, stride, o),
        holds_raster(
            p,
            o,
            if p.oppo_rgb {
                tripled(gray)
            } else {
                gray
            },
            o.presented(width, height).0,
            o.presented(width, height).1,
        ),
        0 <= x < width,
        0 <= y < height,
        0 <= c < p.pixel_len(),
    ensures
        ({
            let d = destination(o, width as int, height as int, x, y);
            &&& 0 <= d.0 < p.gain_width
            &&& 0 <= d.1 < p.gain_height
            &&& shown(p, d.0, d.1, c) == map[y * stride + x]
        }),
        tiled(p),
{
    let (w, h) = o.presented(width, height);
    let d = destination(o, width as int, height as int, x, y);
    orientation_is_a_permutation(o, width, height, x, y);
    assert(map[y * stride + x * 1 + 0] == map[y * stride + x]);
    let at = pixel_index(d.1, d.0, w as int, 1, 0);
    assert(gray[at] == map[y * stride + x]);
    assert(at == d.1 * w + d.0);
    lemma_turned_index(width, height, o, d.0, d.1);
    if p.oppo_rgb {
        let all = tripled(gray);
        lemma_tiled(p, o, all, w, h);
        lemma_shown(p, o, all, w, h, d.0, d.1, c);
        assert(gray.len() == width * height * 1);
        assert(all[at * 3 + c] == gray[at]);
    } else {
        lemma_tiled(p, o, gray, w, h);
        lemma_shown(p, o, gray, w, h, d.0, d.1, c);
    }
}

proof fn lemma_turned_index(width: u32, height: u32, o: ExifOrientation, x: int, y: int)
    requires
        0 <= x < o.presented(width, height).0,
        0 <= y < o.presented(width, height).1,
    ensures
        0 <= y * o.presented(width, height).0 + x < width * height,
{
    let (w, h) = o.presented(width, height);
    assert(0 <= y * w + x < h * w) by (nonlinear_arith)
        requires
            0 <= x < w,
            0 <= y < h,
    ;
    assert(w * h == h * w) by (nonlinear_arith);
}

proof fn lemma_mask_size(mask: Seq<u8>, w: u32, h: u32)
    requires
        is_full_mask(mask, w, h),
    ensures
        mask_fits(mask.len() as int, w as int, h as int, w as int),
        orient_error(aligned(w as int, 256) * h, w, h, 1, aligned(w as int, 256)) is None,
        cut_fault(w * h * 1, w, h, 1) is None,
        cut_fault(w * h * 1, h, w, 1) is None,
        w * h <= usize::MAX / 3,
        0 <= aligned(w as int, 256) * h,
{
    let n = w * h;
    assert((h - 1) * w + w == n && (w * 1) * h == n && (h * 1) * w == n && n * 1 == n) by (
        nonlinear_arith)
        requires
            n == w * h,
    ;
    let a = aligned(w as int, 256);
    assert(0 <= a * h) by (nonlinear_arith)
        requires
            0 <= a,
            0 <= h,
    ;
}

proof fn lemma_gain_at(mask: Seq<u8>, w: u32, h: u32, gains: Seq<u8>, x: int, y: int)
    requires
        0 <= x < w,
        0 <= y < h,
    ensures
        gains_of(mask, w as int, h as int, w as int, gains)[y * aligned(w as int, 256) + x]
            == gains[mask[y * w + x] as int],
        gains_of(mask, w as int, h as int, w as int, gains).len() == aligned(w as int, 256) * h,
{
    let row = aligned(w as int, 256);
    let i = y * row + x;
    assert(w <= row);
    lemma_div_row(y, row, x);
    assert(0 <= i < row * h) by (nonlinear_arith)
        requires
            0 <= x < row,
            0 <= y < h,
            i == y * row + x,
    ;
}

} // verus!
