//! Linear thumbnails: the primary image in storage orientation, cropped to 4:3, and the
//! light maps that go with it.

use crate::bytes::{append, be32, be64, copy_range, read32};
use crate::hevc::{
    extract_hvcc_config_with_chroma, hevc_byte_stream_to_length_prefixed, hvcc_of, pow2_of,
    tile_payload, try_drop_parameter_nals,
};
use crate::isobmff::read_u64be;
use crate::raster::{least, lemma_pixel_index, pixel_index};
use crate::seqs::told;
use crate::text::join;
use vstd::prelude::*;

verus! {

/// The width of a thumbnail.
pub const THUMB_WIDTH: u32 = 1024;

/// The height of a thumbnail.
pub const THUMB_HEIGHT: u32 = 768;

/// The side of a light map.
pub const MAP_SIDE: usize = 32;

/// A thumbnail with its light maps.
#[derive(Debug, Clone)]
pub struct LinearThumbnailOutput {
    pub stream: Vec<u8>,
    pub hvcc: Vec<u8>,
    pub light_c: Vec<u8>,
    pub light_d: Vec<u8>,
}

// ---------------------------------------------------------------------------
// Decoding
// ---------------------------------------------------------------------------

/// Where the box at `pos` ends; `None` where its header or the box leaves the data, or
/// where its size is smaller than its header.
pub open spec fn box_end(s: Seq<u8>, pos: int) -> Option<int> {
    let wide = be32(s, pos) == 1;
    let header = if wide {
        16int
    } else {
        8
    };
    let size = if wide {
        be64(s, pos + 8)
    } else {
        be32(s, pos)
    };
    if pos + 8 > s.len() || (wide && pos + 16 > s.len()) || size < header || pos + size > s.len() {
        None
    } else {
        Some(pos + size)
    }
}

/// Where the boxes from `pos` on end.
pub open spec fn boxes_end(s: Seq<u8>, pos: int) -> int
    decreases s.len() - pos,
{
    match box_end(s, pos) {
        None => pos,
        Some(next) => if 0 <= pos < next {
            boxes_end(s, next)
        } else {
            pos
        },
    }
}

/// What of a file is to be decoded: its complete boxes, without what trails them; the
/// whole file where it has none.
pub open spec fn decodable(s: Seq<u8>) -> Seq<u8> {
    let end = boxes_end(s, 0);
    if end == 0 {
        s
    } else {
        s.take(end)
    }
}

/// How much of a file is to be handed to a decoder. Converted files keep a region behind their last
/// box that looks like a box of a size beyond the end.
pub fn decodable_len(data: &[u8]) -> (r: usize)
    ensures
        r <= data@.len(),
        data@.take(r as int) == decodable(data@),
{
    let total: usize = data.len();
    let mut pos: usize = 0;
    while total - pos >= 8
        invariant_except_break
            pos <= total,
            total == data@.len(),
            boxes_end(data@, 0) == boxes_end(data@, pos as int),
        ensures
            pos <= total,
            boxes_end(data@, 0) == pos,
        decreases total - pos,
    {
        let size32: u32 = read32(data, pos, false);
        let (size, header): (u64, u64) = if size32 == 1 {
            if total - pos < 16 {
                break;
            }
            (read_u64be(data, pos + 8), 16)
        } else {
            (size32 as u64, 8)
        };
        if size < header || size > (total - pos) as u64 {
            break;
        }
        pos = pos + size as usize;
    }
    if pos == 0 {
        assert(data@.take(total as int) =~= data@);
        total
    } else {
        pos
    }
}

/// How the pixels of a decoded image are stored, and the samples.
pub enum HeifPixels {
    Rgb8(Vec<u8>),
    Rgba8(Vec<u8>),
    Rgb16(Vec<u16>),
    Rgba16(Vec<u16>),
}

/// A decoded image.
pub struct HeifImage {
    pub width: u32,
    pub height: u32,
    pub pixels: HeifPixels,
}

/// What the pixels of a decoded image are.
#[verifier::ext_equal]
pub enum PixelsView {
    Rgb8(Seq<u8>),
    Rgba8(Seq<u8>),
    Rgb16(Seq<u16>),
    Rgba16(Seq<u16>),
}

impl View for HeifPixels {
    type V = PixelsView;

    open spec fn view(&self) -> PixelsView {
        match *self {
            HeifPixels::Rgb8(v) => PixelsView::Rgb8(v@),
            HeifPixels::Rgba8(v) => PixelsView::Rgba8(v@),
            HeifPixels::Rgb16(v) => PixelsView::Rgb16(v@),
            HeifPixels::Rgba16(v) => PixelsView::Rgba16(v@),
        }
    }
}

/// Whether there are exactly the samples that an image of this size has.
pub open spec fn fills(p: PixelsView, width: u32, height: u32) -> bool {
    match p {
        PixelsView::Rgb8(v) => v.len() == width * height * 3,
        PixelsView::Rgba8(v) => v.len() == width * height * 4,
        PixelsView::Rgb16(v) => v.len() == width * height * 3,
        PixelsView::Rgba16(v) => v.len() == width * height * 4,
    }
}

/// The pixels of an image as 8-bit RGB: alpha is dropped, wide samples lose their low
/// byte.
pub open spec fn pixels_rgb8(p: PixelsView) -> Seq<u8> {
    match p {
        PixelsView::Rgb8(v) => v,
        PixelsView::Rgba8(v) => Seq::new(3 * (v.len() / 4), |i: int| v[4 * (i / 3) + i % 3]),
        PixelsView::Rgb16(v) => Seq::new(
            3 * (v.len() / 3),
            |i: int| (v[i] as int / 256) as u8,
        ),
        PixelsView::Rgba16(v) => Seq::new(
            3 * (v.len() / 4),
            |i: int| (v[4 * (i / 3) + i % 3] as int / 256) as u8,
        ),
    }
}

fn drop_alpha8(v: &Vec<u8>) -> (r: Vec<u8>)
    ensures
        r@ == pixels_rgb8(PixelsView::Rgba8(v@)),
{
    let ghost all = pixels_rgb8(PixelsView::Rgba8(v@));
    let n: usize = v.len() / 4;
    let mut out: Vec<u8> = Vec::new();
    let mut i: usize = 0;
    while i < n
        invariant
            i <= n,
            n == v.len() / 4,
            all == pixels_rgb8(PixelsView::Rgba8(v@)),
            out@ == all.take(3 * i),
        decreases n - i,
    {
        out.push(v[4 * i]);
        out.push(v[4 * i + 1]);
        out.push(v[4 * i + 2]);
        i = i + 1;
        assert(out@ =~= all.take(3 * i));
    }
    assert(out@ =~= all);
    out
}

fn high_bytes(v: &Vec<u16>) -> (r: Vec<u8>)
    ensures
        r@ == pixels_rgb8(PixelsView::Rgb16(v@)),
{
    let ghost all = pixels_rgb8(PixelsView::Rgb16(v@));
    let n: usize = v.len() / 3 * 3;
    let mut out: Vec<u8> = Vec::new();
    let mut i: usize = 0;
    while i < n
        invariant
            i <= n,
            n == 3 * (v.len() / 3),
            all == pixels_rgb8(PixelsView::Rgb16(v@)),
            out@ == all.take(i as int),
        decreases n - i,
    {
        out.push((v[i] / 256) as u8);
        i = i + 1;
        assert(out@ =~= all.take(i as int));
    }
    assert(out@ =~= all);
    out
}

fn drop_alpha16(v: &Vec<u16>) -> (r: Vec<u8>)
    ensures
        r@ == pixels_rgb8(PixelsView::Rgba16(v@)),
{
    let ghost all = pixels_rgb8(PixelsView::Rgba16(v@));
    let n: usize = v.len() / 4;
    let mut out: Vec<u8> = Vec::new();
    let mut i: usize = 0;
    while i < n
        invariant
            i <= n,
            n == v.len() / 4,
            all == pixels_rgb8(PixelsView::Rgba16(v@)),
            out@ == all.take(3 * i),
        decreases n - i,
    {
        out.push((v[4 * i] / 256) as u8);
        out.push((v[4 * i + 1] / 256) as u8);
        out.push((v[4 * i + 2] / 256) as u8);
        i = i + 1;
        assert(out@ =~= all.take(3 * i));
    }
    assert(out@ =~= all);
    out
}

/// An RGB raster with three bytes for each pixel.
#[derive(Debug, Clone)]
pub struct RgbRaster {
    pub pixels: Vec<u8>,
    pub width: u32,
    pub height: u32,
}

/// What a raster holds.
#[verifier::ext_equal]
pub struct RgbView {
    pub pixels: Seq<u8>,
    pub width: u32,
    pub height: u32,
}

impl View for RgbRaster {
    type V = RgbView;

    open spec fn view(&self) -> RgbView {
        RgbView { pixels: self.pixels@, width: self.width, height: self.height }
    }
}

/// Whether a raster has all its pixels and no other bytes.
pub open spec fn is_full(r: RgbView) -> bool {
    r.pixels.len() == r.width * r.height * 3
}

/// The primary image that was decoded as an RGB raster, or why there is none.
pub open spec fn primary_raster(decoded: Result<(PixelsView, u32, u32), Seq<char>>) -> Result<
    RgbView,
    Seq<char>,
> {
    match decoded {
        Err(e) => Err("linear thumb: decode primary: "@ + e),
        Ok((pixels, width, height)) => if width == 0 || height == 0 {
            Err("linear thumb: decoded primary has zero extent"@)
        } else {
            Ok(RgbView { pixels: pixels_rgb8(pixels), width, height })
        },
    }
}

/// What a decoder's result says.
pub open spec fn told_heif(r: Result<HeifImage, String>) -> Result<(PixelsView, u32, u32), Seq<char>> {
    match r {
        Ok(i) => Ok((i.pixels@, i.width, i.height)),
        Err(e) => Err(e@),
    }
}

/// Take the RGB raster out of what the decoder came to. A raster has all its pixels where the
/// image had all its samples.
pub fn heif_to_rgb(decoded: Result<HeifImage, String>) -> (r: Result<RgbRaster, String>)
    ensures
        told(r) == primary_raster(told_heif(decoded)),
        decoded matches Ok(i) && fills(i.pixels@, i.width, i.height) ==> (r matches Ok(raster)
            ==> is_full(raster@)),
{
    proof {
        if let Ok(ref i) = decoded {
            let (w, h) = (i.width, i.height);
            let n = w * h;
            assert(w * h * 3 == 3 * n && w * h * 4 == 4 * n) by (nonlinear_arith)
                requires
                    n == w * h,
            ;
        }
    }
    let image: HeifImage = match decoded {
        Err(e) => {
            return Err(join("linear thumb: decode primary: ", e.as_str()));
        },
        Ok(i) => i,
    };
    if image.width == 0 || image.height == 0 {
        return Err("linear thumb: decoded primary has zero extent".to_string());
    }
    let pixels: Vec<u8> = match image.pixels {
        HeifPixels::Rgb8(v) => v,
        HeifPixels::Rgba8(v) => drop_alpha8(&v),
        HeifPixels::Rgb16(v) => high_bytes(&v),
        HeifPixels::Rgba16(v) => drop_alpha16(&v),
    };
    Ok(RgbRaster { pixels, width: image.width, height: image.height })
}

// ---------------------------------------------------------------------------
// Rotation
// ---------------------------------------------------------------------------

/// A raster turned clockwise by a quarter.
pub open spec fn turned(r: RgbView) -> RgbView {
    RgbView {
        pixels: Seq::new(
            r.pixels.len(),
            |i: int|
                {
                    let w = r.height as int;
                    let x = (i / 3) % w;
                    let y = (i / 3) / w;
                    r.pixels[pixel_index(r.height - 1 - x, y, r.width as int, 3, i % 3)]
                },
        ),
        width: r.height,
        height: r.width,
    }
}

/// A raster turned clockwise by `n` quarters.
pub open spec fn turned_by(r: RgbView, n: nat) -> RgbView
    decreases n,
{
    if n == 0 {
        r
    } else {
        turned(turned_by(r, (n - 1) as nat))
    }
}

fn turn(r: &RgbRaster) -> (t: RgbRaster)
    requires
        is_full(r@),
    ensures
        t@ == turned(r@),
        is_full(t@),
{
    let w: usize = r.width as usize;
    let h: usize = r.height as usize;
    let total: usize = r.pixels.len();
    let ghost all = turned(r@).pixels;
    let mut out: Vec<u8> = Vec::new();
    let mut y: usize = 0;
    assert(0 * h * 3 == 0) by (nonlinear_arith);
    assert(w * h == h * w) by (nonlinear_arith);
    while y < w
        invariant
            w == r.width,
            h == r.height,
            total == r.pixels@.len(),
            total == w * h * 3,
            y <= w,
            all == turned(r@).pixels,
            out@.len() == y * h * 3,
            y * h * 3 <= total,
            out@ == all.take(y * h * 3),
        decreases w - y,
    {
        let mut x: usize = 0;
        while x < h
            invariant
                w == r.width,
                h == r.height,
                total == r.pixels@.len(),
                total == w * h * 3,
                y < w,
                x <= h,
                all == turned(r@).pixels,
                out@.len() == (y * h + x) * 3,
                out@ == all.take((y * h + x) * 3),
            decreases h - x,
        {
            let from: usize = h - 1 - x;
            proof {
                lemma_pixel_index(from as int, y as int, h as int, w as int, 3, 0);
                lemma_pixel_index(y as int, x as int, w as int, h as int, 3, 0);
                assert(h * w * 3 == w * h * 3) by (nonlinear_arith);
                vstd::arithmetic::div_mod::lemma_fundamental_div_mod_converse(
                    y * h + x,
                    h as int,
                    y as int,
                    x as int,
                );
            }
            let src: usize = (from * w + y) * 3;
            let ghost before = out@;
            let ghost k = (y * h + x) * 3;
            out.push(r.pixels[src]);
            out.push(r.pixels[src + 1]);
            out.push(r.pixels[src + 2]);
            proof {
                assert((k + 1) / 3 == y * h + x && (k + 2) / 3 == y * h + x && k / 3 == y * h + x);
                assert(all[k] == r.pixels@[src as int]);
                assert(all[k + 1] == r.pixels@[src + 1]);
                assert(all[k + 2] == r.pixels@[src + 2]);
                assert(out@ =~= all.take(k + 3));
            }
            x = x + 1;
        }
        assert((y + 1) * h == y * h + h) by (nonlinear_arith);
        assert((y + 1) * h * 3 <= w * h * 3) by (nonlinear_arith)
            requires
                y + 1 <= w,
                0 <= h,
        ;
        y = y + 1;
    }
    assert(all.take(w * h * 3) =~= all);
    RgbRaster { pixels: out, width: r.height, height: r.width }
}

pub proof fn lemma_turned_pixel(r: RgbView, y: int, x: int, c: int)
    requires
        is_full(r),
        0 <= y < r.width,
        0 <= x < r.height,
        0 <= c < 3,
    ensures
        turned(r).pixels[pixel_index(y, x, r.height as int, 3, c)] == r.pixels[pixel_index(
            r.height - 1 - x,
            y,
            r.width as int,
            3,
            c,
        )],
        is_full(turned(r)),
{
    let h = r.height as int;
    let k = y * h + x;
    let i = pixel_index(y, x, h, 3, c);
    lemma_pixel_index(y, x, r.width as int, h, 3, c);
    assert(i / 3 == k && i % 3 == c);
    vstd::arithmetic::div_mod::lemma_fundamental_div_mod_converse(k, h, y, x);
    assert(r.width * r.height == r.height * r.width) by (nonlinear_arith);
}

proof fn lemma_turned_twice(r: RgbView, y: int, x: int, c: int)
    requires
        is_full(r),
        0 <= y < r.height,
        0 <= x < r.width,
        0 <= c < 3,
    ensures
        turned(turned(r)).pixels[pixel_index(y, x, r.width as int, 3, c)] == r.pixels[pixel_index(
            r.height - 1 - y,
            r.width - 1 - x,
            r.width as int,
            3,
            c,
        )],
        is_full(turned(turned(r))),
{
    let t = turned(r);
    lemma_turned_pixel(r, r.width - 1 - x, y, c);
    lemma_turned_pixel(t, y, x, c);
}

/// Four quarter turns give a raster back as it was.
pub proof fn four_turns_are_none(r: RgbView)
    requires
        is_full(r),
    ensures
        turned_by(r, 4) == r,
{
    reveal_with_fuel(turned_by, 5);
    let t = turned(turned(r));
    let u = turned(turned(t));
    assert(u.pixels.len() == r.pixels.len());
    assert forall|i: int| 0 <= i < r.pixels.len() implies u.pixels[i] == r.pixels[i] by {
        let w = r.width as int;
        let h = r.height as int;
        let k = i / 3;
        let c = i % 3;
        assert(w * h > 0);
        assert(w > 0) by (nonlinear_arith)
            requires
                w * h > 0,
                w >= 0,
        ;
        assert(k < w * h);
        vstd::arithmetic::div_mod::lemma_fundamental_div_mod(k, w);
        vstd::arithmetic::div_mod::lemma_mod_bound(k, w);
        let y = k / w;
        let x = k % w;
        assert(0 <= y < h) by (nonlinear_arith)
            requires
                k == w * y + x,
                0 <= x < w,
                0 <= k < w * h,
        ;
        assert(w * y == y * w) by (nonlinear_arith);
        lemma_turned_twice(r, h - 1 - y, w - 1 - x, c);
        lemma_turned_twice(t, y, x, c);
        assert(pixel_index(y, x, w, 3, c) == i);
    }
    assert(u.pixels =~= r.pixels);
    assert(turned_by(r, 4) == u);
}

/// Turn a raster clockwise by quarters, which undoes the rotation that a primary image
/// is shown with.
pub fn undo_rotation(raster: RgbRaster, quarter_turns: u32) -> (r: RgbRaster)
    requires
        is_full(raster@),
    ensures
        r@ == turned_by(raster@, (quarter_turns % 4) as nat),
        is_full(r@),
{
    let ghost start = raster@;
    let n: u32 = quarter_turns % 4;
    let mut out: RgbRaster = raster;
    let mut i: u32 = 0;
    while i < n
        invariant
            i <= n,
            is_full(out@),
            out@ == turned_by(start, i as nat),
        decreases n - i,
    {
        out = turn(&out);
        i = i + 1;
    }
    out
}

// ---------------------------------------------------------------------------
// Cropping to 4:3
// ---------------------------------------------------------------------------

/// The part of a raster from column `x0` and row `y0` on.
pub open spec fn cropped(r: RgbView, x0: int, y0: int, width: int, height: int) -> RgbView {
    RgbView {
        pixels: Seq::new(
            (width * height * 3) as nat,
            |i: int|
                r.pixels[pixel_index(
                    y0 + (i / 3) / width,
                    x0 + (i / 3) % width,
                    r.width as int,
                    3,
                    i % 3,
                )],
        ),
        width: width as u32,
        height: height as u32,
    }
}

/// By how much a size misses 4:3, in thirds of a pixel of width.
pub open spec fn excess(r: RgbView) -> int {
    3 * r.width - 4 * r.height
}

/// The middle of a raster in the proportions 4:3. Proportions that miss them by no more
/// than a millionth are left alone.
pub open spec fn to_4_3(r: RgbView) -> RgbView {
    let w = r.width as int;
    let h = r.height as int;
    if excess(r) * 1_000_000 > 3 * h {
        let width = (4 * h + 1) / 3;
        cropped(r, (w - width) / 2, 0, width, h)
    } else if -excess(r) * 1_000_000 > 3 * h {
        let height = (3 * w + 2) / 4;
        cropped(r, 0, (h - height) / 2, w, height)
    } else {
        r
    }
}

fn crop(r: &RgbRaster, x0: usize, y0: usize, width: usize, height: usize) -> (c: RgbRaster)
    requires
        is_full(r@),
        width > 0,
        x0 + width <= r.width,
        y0 + height <= r.height,
    ensures
        c@ == cropped(r@, x0 as int, y0 as int, width as int, height as int),
        is_full(c@),
{
    let w: usize = r.width as usize;
    let total: usize = r.pixels.len();
    let ghost all = cropped(r@, x0 as int, y0 as int, width as int, height as int).pixels;
    let mut out: Vec<u8> = Vec::new();
    let mut y: usize = 0;
    assert(0 * width * 3 == 0) by (nonlinear_arith);
    while y < height
        invariant
            is_full(r@),
            w == r.width,
            total == r.pixels@.len(),
            width > 0,
            x0 + width <= r.width,
            y0 + height <= r.height,
            y <= height,
            all == cropped(r@, x0 as int, y0 as int, width as int, height as int).pixels,
            out@.len() == y * width * 3,
            forall|i: int| 0 <= i < y * width * 3 ==> #[trigger] out@[i] == all[i],
        decreases height - y,
    {
        proof {
            lemma_pixel_index(y0 + y, x0 + width - 1, r.height as int, w as int, 3, 2);
            lemma_pixel_index(y0 + y, x0 as int, r.height as int, w as int, 3, 0);
            assert(r.height * w * 3 == w * r.height * 3) by (nonlinear_arith);
        }
        let from: usize = ((y0 + y) * w + x0) * 3;
        let ghost before = out@;
        append(&mut out, vstd::slice::slice_subrange(r.pixels.as_slice(), from, from + width * 3));
        assert((y + 1) * width == y * width + width) by (nonlinear_arith);
        assert((y + 1) * width <= height * width) by (nonlinear_arith)
            requires
                y + 1 <= height,
        ;
        assert(height * width == width * height) by (nonlinear_arith);
        assert forall|i: int| 0 <= i < (y + 1) * width * 3 implies #[trigger] out@[i] == all[i] by {
            if i >= y * width * 3 {
                let d = i - y * width * 3;
                assert(i / 3 == y * width + d / 3 && i % 3 == d % 3);
                vstd::arithmetic::div_mod::lemma_fundamental_div_mod_converse(
                    y * width + d / 3,
                    width as int,
                    y as int,
                    d / 3,
                );
                assert(out@[i] == r.pixels@[from + d]);
                assert(d == 3 * (d / 3) + d % 3);
            } else {
                assert(out@[i] == before[i]);
            }
        }
        y = y + 1;
    }
    assert(height * width == width * height) by (nonlinear_arith);
    assert(out@ =~= all);
    RgbRaster { pixels: out, width: width as u32, height: height as u32 }
}

/// Crop a raster to its middle in the proportions 4:3, so that scaling it to a
/// thumbnail does not distort it.
pub fn crop_to_4_3(raster: RgbRaster) -> (r: RgbRaster)
    requires
        is_full(raster@),
        raster.width > 0,
        raster.height > 0,
    ensures
        r@ == to_4_3(raster@),
        is_full(r@),
{
    let w: i128 = raster.width as i128;
    let h: i128 = raster.height as i128;
    let excess: i128 = 3 * w - 4 * h;
    if excess * 1_000_000 > 3 * h {
        let width: i128 = (4 * h + 1) / 3;
        crop(&raster, ((w - width) / 2) as usize, 0, width as usize, raster.height as usize)
    } else if -excess * 1_000_000 > 3 * h {
        let height: i128 = (3 * w + 2) / 4;
        crop(&raster, 0, ((h - height) / 2) as usize, raster.width as usize, height as usize)
    } else {
        raster
    }
}

// ---------------------------------------------------------------------------
// Packaging
// ---------------------------------------------------------------------------

/// The stored stream and decoder configuration of an encoded thumbnail, or why there
/// are none. `None` where the stream ends in a start code.
pub open spec fn packaged(stream: Seq<u8>) -> Option<Result<(Seq<u8>, Seq<u8>), Seq<char>>> {
    match hvcc_of(stream, 1) {
        None => Some(Err("linear thumb hvcC extraction failed"@)),
        Some(hvcc) => match tile_payload(stream) {
            None => None,
            Some(payload) => Some(Ok((payload, hvcc))),
        },
    }
}

/// What a result with a packaged thumbnail says.
pub open spec fn told_package(r: Option<Result<(Vec<u8>, Vec<u8>), String>>) -> Option<
    Result<(Seq<u8>, Seq<u8>), Seq<char>>,
> {
    match r {
        None => None,
        Some(Err(e)) => Some(Err(e@)),
        Some(Ok((a, b))) => Some(Ok((a@, b@))),
    }
}

/// Package an encoded thumbnail: length-prefixed slices and the decoder configuration.
/// `None` where the stream ends in a start code.
pub fn package_thumbnail(stream: &[u8]) -> (r: Option<Result<(Vec<u8>, Vec<u8>), String>>)
    ensures
        told_package(r) == packaged(stream@),
{
    let hvcc: Vec<u8> = match extract_hvcc_config_with_chroma(stream, 1) {
        None => {
            return Some(Err("linear thumb hvcC extraction failed".to_string()));
        },
        Some(h) => h,
    };
    match try_drop_parameter_nals(stream) {
        None => None,
        Some(idr) => Some(Ok((hevc_byte_stream_to_length_prefixed(idr.as_slice()), hvcc))),
    }
}

// ---------------------------------------------------------------------------
// Light maps
// ---------------------------------------------------------------------------

/// The rows or columns of an image of `len` that cell `t` of a light map covers.
pub open spec fn cell_of(t: int, len: int) -> (int, int) {
    let start = t * len / 32;
    let end = (t + 1) * len / 32;
    (
        start,
        least(
            if end > start {
                end
            } else {
                start + 1
            },
            len,
        ),
    )
}

/// The rows or columns of an image that a cell of a light map covers.
pub fn light_cell(t: u32, len: u32) -> (r: (u32, u32))
    requires
        t < 32,
    ensures
        (r.0 as int, r.1 as int) == cell_of(t as int, len as int),
        r.0 <= r.1 <= len,
{
    proof {
        assert(0 <= t * len && t * len <= 31 * len) by (nonlinear_arith)
            requires
                t < 32,
        ;
        assert((t + 1) * len == t * len + len) by (nonlinear_arith);
    }
    let start: u64 = t as u64 * len as u64 / 32;
    let end: u64 = (t as u64 + 1) * len as u64 / 32;
    let stop: u64 = if end > start {
        end
    } else {
        start + 1
    };
    if stop < len as u64 {
        (start as u32, stop as u32)
    } else {
        (start as u32, len)
    }
}

/// Where the cell that is stored at column `x` of row `y` lies in the upright map.
pub open spec fn shown_cell(orientation: u16, x: int, y: int) -> (int, int) {
    if orientation == 2 {
        (31 - x, y)
    } else if orientation == 3 {
        (31 - x, 31 - y)
    } else if orientation == 4 {
        (x, 31 - y)
    } else if orientation == 5 {
        (y, x)
    } else if orientation == 6 {
        (31 - y, x)
    } else if orientation == 7 {
        (31 - y, 31 - x)
    } else if orientation == 8 {
        (y, 31 - x)
    } else {
        (x, y)
    }
}

/// Where byte `i` of a stored light map comes from.
pub open spec fn shown_byte(orientation: u16, i: int) -> int {
    let (x, y) = shown_cell(orientation, (i / 2) % 32, (i / 2) / 32);
    (y * 32 + x) * 2 + i % 2
}

/// A light map in storage order; data that is no light map stays as it is.
pub open spec fn stored_map(map: Seq<u8>, orientation: u16) -> Seq<u8> {
    if map.len() != 2048 {
        map
    } else {
        Seq::new(2048, |i: int| map[shown_byte(orientation, i)])
    }
}

fn find_shown_byte(orientation: u16, i: usize) -> (r: usize)
    requires
        i < 2048,
    ensures
        r == shown_byte(orientation, i as int),
        r < 2048,
{
    let x: usize = (i / 2) % 32;
    let y: usize = (i / 2) / 32;
    let (a, b): (usize, usize) = match orientation {
        2 => (31 - x, y),
        3 => (31 - x, 31 - y),
        4 => (x, 31 - y),
        5 => (y, x),
        6 => (31 - y, x),
        7 => (31 - y, 31 - x),
        8 => (y, 31 - x),
        _ => (x, y),
    };
    (b * 32 + a) * 2 + i % 2
}

/// Reorder an upright light map of 32 by 32 half-precision numbers to storage order.
pub fn storage_ordered_light_map(presentation: &[u8], orientation: u16) -> (r: Vec<u8>)
    ensures
        r@ == stored_map(presentation@, orientation),
{
    if presentation.len() != 2048 {
        let copy: Vec<u8> = copy_range(presentation, 0, presentation.len());
        assert(copy@ =~= presentation@);
        return copy;
    }
    let ghost all = stored_map(presentation@, orientation);
    let mut out: Vec<u8> = Vec::new();
    let mut i: usize = 0;
    while i < 2048
        invariant
            i <= 2048,
            presentation@.len() == 2048,
            all == stored_map(presentation@, orientation),
            out@ == all.take(i as int),
        decreases 2048 - i,
    {
        out.push(presentation[find_shown_byte(orientation, i)]);
        i = i + 1;
        assert(out@ =~= all.take(i as int));
    }
    assert(out@ =~= all);
    out
}

/// Reordering a light map loses no cell and doubles none: every byte of the upright map
/// is stored at exactly one place.
pub proof fn stored_maps_are_permutations(orientation: u16, i: int, j: int)
    requires
        0 <= i < 2048,
        0 <= j < 2048,
    ensures
        0 <= shown_byte(orientation, i) < 2048,
        shown_byte(orientation, i) == shown_byte(orientation, j) ==> i == j,
{
    let (xi, yi, bi) = ((i / 2) % 32, (i / 2) / 32, i % 2);
    let (xj, yj, bj) = ((j / 2) % 32, (j / 2) / 32, j % 2);
    assert(i == (yi * 32 + xi) * 2 + bi);
    assert(j == (yj * 32 + xj) * 2 + bj);
    let (ai, ci) = shown_cell(orientation, xi, yi);
    let (aj, cj) = shown_cell(orientation, xj, yj);
    lemma_cell_bytes(ai, ci, bi, aj, cj, bj);
}

/// Bytes of different cells, and the two bytes of one cell, lie at different places.
proof fn lemma_cell_bytes(x1: int, y1: int, b1: int, x2: int, y2: int, b2: int)
    requires
        0 <= x1 < 32,
        0 <= y1 < 32,
        0 <= b1 < 2,
        0 <= x2 < 32,
        0 <= y2 < 32,
        0 <= b2 < 2,
    ensures
        0 <= (y1 * 32 + x1) * 2 + b1 < 2048,
        (y1 * 32 + x1) * 2 + b1 == (y2 * 32 + x2) * 2 + b2 ==> x1 == x2 && y1 == y2 && b1 == b2,
{
}

// ---------------------------------------------------------------------------
// Half precision
// ---------------------------------------------------------------------------

/// `x` over `unit`, rounded to the nearest integer, and to the even one of two.
pub open spec fn rounded(x: int, unit: int) -> int {
    let q = x / unit;
    let rest = 2 * (x % unit);
    if rest > unit || (rest == unit && q % 2 == 1) {
        q + 1
    } else {
        q
    }
}

/// The magnitude bits of the half-precision number nearest to a single-precision one
/// with a biased exponent and a fraction: infinity and quiet not-a-number stay, and
/// numbers beyond the range become infinity.
pub open spec fn half_magnitude(exp: int, frac: int) -> int {
    let e = exp - 112;
    if exp == 0xff {
        if frac != 0 {
            0x7e00
        } else {
            0x7c00
        }
    } else if e >= 31 {
        0x7c00
    } else if e < -10 {
        0
    } else if e <= 0 {
        rounded(frac + 0x80_0000, pow2_of((14 - e) as nat))
    } else {
        e * 0x400 + rounded(frac, 0x2000)
    }
}

/// The half-precision form of a single-precision number, both as bits.
pub open spec fn half_bits(bits: u32) -> int {
    (bits as int / 0x8000_0000) * 0x8000 + half_magnitude(
        (bits as int / 0x80_0000) % 0x100,
        bits as int % 0x80_0000,
    )
}

fn round_to_even(x: u32, unit: u32) -> (r: u32)
    requires
        2 <= unit <= 0x100_0000,
        x < 0x100_0000,
    ensures
        r == rounded(x as int, unit as int),
        r <= x / 2 + 1,
{
    proof {
        vstd::arithmetic::div_mod::lemma_fundamental_div_mod(x as int, unit as int);
        vstd::arithmetic::div_mod::lemma_mod_bound(x as int, unit as int);
        let q = x as int / unit as int;
        assert(q * 2 <= x) by (nonlinear_arith)
            requires
                x == unit * q + x % unit,
                0 <= x % unit,
                unit >= 2,
                q >= 0,
        ;
    }
    let q: u32 = x / unit;
    let rest: u32 = 2 * (x % unit);
    if rest > unit || (rest == unit && q % 2 == 1) {
        q + 1
    } else {
        q
    }
}

fn power_of_two(n: u32) -> (r: u32)
    requires
        n <= 24,
    ensures
        r == pow2_of(n as nat),
        1 <= r <= 0x100_0000,
        n >= 1 ==> r >= 2,
{
    let mut r: u32 = 1;
    let mut i: u32 = 0;
    proof {
        reveal_with_fuel(pow2_of, 25);
    }
    while i < n
        invariant
            i <= n <= 24,
            r == pow2_of(i as nat),
            1 <= r <= 0x100_0000,
            i >= 1 ==> r >= 2,
            forall|k: nat| k <= 24 ==> #[trigger] pow2_of(k) <= 0x100_0000,
        decreases n - i,
    {
        assert(pow2_of((i + 1) as nat) == 2 * pow2_of(i as nat));
        assert(pow2_of((i + 1) as nat) <= 0x100_0000);
        r = r * 2;
        i = i + 1;
    }
    r
}

/// Convert the bits of a single-precision number to those of the nearest half-precision
/// one, with ties to even.
pub fn f32_to_f16(bits: u32) -> (r: u16)
    ensures
        r == half_bits(bits),
{
    let sign: u32 = bits / 0x8000_0000;
    let exp: u32 = (bits / 0x80_0000) % 0x100;
    let frac: u32 = bits % 0x80_0000;
    let magnitude: u32 = if exp == 0xff {
        if frac != 0 {
            0x7e00
        } else {
            0x7c00
        }
    } else if exp >= 143 {
        0x7c00
    } else if exp < 102 {
        0
    } else if exp <= 112 {
        let unit: u32 = power_of_two(126 - exp);
        round_subnormal(frac + 0x80_0000, unit, 126 - exp)
    } else {
        (exp - 112) * 0x400 + round_fraction(frac)
    };
    (sign * 0x8000 + magnitude) as u16
}

fn round_fraction(frac: u32) -> (r: u32)
    requires
        frac < 0x80_0000,
    ensures
        r == rounded(frac as int, 0x2000),
        r <= 0x400,
{
    round_to_even(frac, 0x2000)
}

fn round_subnormal(x: u32, unit: u32, shift: u32) -> (r: u32)
    requires
        14 <= shift <= 24,
        unit == pow2_of(shift as nat),
        2 <= unit <= 0x100_0000,
        x < 0x100_0000,
    ensures
        r == rounded(x as int, unit as int),
        r <= 0x400,
{
    proof {
        lemma_pow2_grows(14, shift as nat);
        reveal_with_fuel(pow2_of, 15);
        assert(unit >= 0x4000);
        let q = x as int / unit as int;
        vstd::arithmetic::div_mod::lemma_fundamental_div_mod(x as int, unit as int);
        vstd::arithmetic::div_mod::lemma_mod_bound(x as int, unit as int);
        assert(q < 0x400) by (nonlinear_arith)
            requires
                x == unit * q + x % unit,
                0 <= x % unit,
                unit >= 0x4000,
                x < 0x100_0000,
        ;
    }
    round_to_even(x, unit)
}

proof fn lemma_pow2_grows(a: nat, b: nat)
    requires
        a <= b,
    ensures
        1 <= pow2_of(a) <= pow2_of(b),
    decreases b,
{
    if a < b {
        lemma_pow2_grows(a, (b - 1) as nat);
    } else if a > 0 {
        lemma_pow2_grows((a - 1) as nat, (b - 1) as nat);
    }
}

} // verus!
