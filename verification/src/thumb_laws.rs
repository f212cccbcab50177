use vstd::arithmetic::power2::pow2;
use crate::bytes::be32;
use crate::frame_laws::lemma_div_row;
use crate::gain_laws::shown_at;
use crate::hevc::{hvcc_of, pow2_of, tile_payload};
use crate::linear_thumbnail::{
    PixelsView, RgbView, box_end, boxes_end, cell_of, decodable, fills, half_bits, is_full,
    lemma_turned_pixel, packaged, primary_raster, rounded, stored_map, to_4_3, turned, turned_by,
};
use crate::raster::{lemma_pixel_index, pixel_index};
use crate::validate_laws::whole_box;
use vstd::prelude::*;

verus! {

/// An image that is shown turned counter-clockwise is turned back by as many quarters: the pixel
/// at column `x` of row `y` moves to where clockwise quarter turns show it.
pub proof fn rotations_are_undone(r: RgbView, quarter_turns: u32, x: int, y: int, c: int)
    requires
        is_full(r),
        0 <= x < r.width,
        0 <= y < r.height,
        0 <= c < 3,
    ensures
        ({
            let q = quarter_turns % 4;
            let t = turned_by(r, q as nat);
            let n = if q == 0 {
                1int
            } else if q == 1 {
                6
            } else if q == 2 {
                3
            } else {
                8
            };
            let (a, b) = shown_at(n, r.width as int, r.height as int, x, y);
            &&& is_full(t)
            &&& q % 2 == 0 ==> t.width == r.width && t.height == r.height
            &&& q % 2 == 1 ==> t.width == r.height && t.height == r.width
            &&& 0 <= a < t.width && 0 <= b < t.height
            &&& t.pixels[(b * t.width + a) * 3 + c] == r.pixels[(y * r.width + x) * 3 + c]
        }),
{
    reveal_with_fuel(turned_by, 5);
    let (w, h) = (r.width as int, r.height as int);
    lemma_turned_pixel(r, x, h - 1 - y, c);
    let t = turned(r);
    lemma_turned_pixel(t, h - 1 - y, w - 1 - x, c);
    let u = turned(t);
    lemma_turned_pixel(u, w - 1 - x, y, c);
}

/// Cropping keeps a window in the middle of a raster, over its full width or its full height.
/// Proportions within a millionth of 4:3 are left alone. Else the kept side is the one nearest
/// to those proportions.
pub proof fn crops_are_in_the_middle(r: RgbView)
    requires
        is_full(r),
        r.width > 0,
        r.height > 0,
    ensures
        ({
            let t = to_4_3(r);
            let (w, h) = (r.width as int, r.height as int);
            let (x0, y0) = ((w - t.width) / 2, (h - t.height) / 2);
            &&& t.width <= w && t.height <= h
            &&& t.width == w || t.height == h
            &&& t.pixels.len() == t.width * t.height * 3
            &&& forall|x: int, y: int, c: int|
                0 <= x < t.width && 0 <= y < t.height && 0 <= c < 3 ==> #[trigger] t.pixels[pixel_index(
                    y,
                    x,
                    t.width as int,
                    3,
                    c,
                )] == r.pixels[((y + y0) * w + (x + x0)) * 3 + c]
            &&& -3 * h <= (3 * w - 4 * h) * 1_000_000 <= 3 * h ==> t == r
            &&& (3 * w - 4 * h) * 1_000_000 > 3 * h ==> t.height == h && -1 <= 3 * t.width - 4 * h <= 1
            &&& (4 * h - 3 * w) * 1_000_000 > 3 * h ==> t.width == w && -1 <= 4 * t.height - 3 * w <= 2
        }),
{
    let t = to_4_3(r);
    let (w, h) = (r.width as int, r.height as int);
    let (x0, y0) = ((w - t.width) / 2, (h - t.height) / 2);
    let (tw, th) = (t.width as int, t.height as int);
    if t != r {
        assert(tw * th * 3 >= 0) by (nonlinear_arith)
            requires
                tw >= 0,
                th >= 0,
        ;
        assert forall|x: int, y: int, c: int|
            0 <= x < tw && 0 <= y < th && 0 <= c < 3 implies #[trigger] t.pixels[pixel_index(
            y,
            x,
            tw,
            3,
            c,
        )] == r.pixels[((y + y0) * w + (x + x0)) * 3 + c] by {
            let i = pixel_index(y, x, tw, 3, c);
            lemma_pixel_index(y, x, th, tw, 3, c);
            assert(th * tw == tw * th) by (nonlinear_arith);
            assert(i / 3 == y * tw + x && i % 3 == c);
            lemma_div_row(y, tw, x);
        }
    }
}

/// The cells of a light map divide an image: each begins where its share of the rows or columns
/// begins. Where there are enough of them it ends where the next begins, and the last at the end;
/// else it has just one.
pub proof fn light_cells_divide_the_image(t: int, len: int)
    requires
        0 <= t < 32,
        0 < len,
    ensures
        ({
            let (start, end) = cell_of(t, len);
            &&& 0 <= start < end <= len
            &&& 32 * start <= t * len < 32 * start + 32
            &&& t == 0 ==> start == 0
            &&& len >= 32 && t < 31 ==> end == cell_of(t + 1, len).0
            &&& len >= 32 && t == 31 ==> end == len
            &&& len < 32 ==> end == start + 1
        }),
{
    assert((t + 1) * len == t * len + len) by (nonlinear_arith);
    assert(0 <= t * len && t * len <= 31 * len) by (nonlinear_arith)
        requires
            0 <= t < 32,
            0 < len,
    ;
    assert(t == 0 ==> t * len == 0) by (nonlinear_arith);
    assert(t == 31 ==> (t + 1) * len == 32 * len) by (nonlinear_arith);
}

/// A light map is stored so that it is shown upright: the number stored at column `x` of row `y`
/// is that of the upright map where the orientation shows this cell.
pub proof fn light_maps_are_shown_upright(map: Seq<u8>, orientation: u16, x: int, y: int, b: int)
    requires
        0 <= x < 32,
        0 <= y < 32,
        0 <= b < 2,
    ensures
        map.len() == 2048 ==> ({
            let (p, q) = shown_at(orientation as int, 32, 32, x, y);
            &&& stored_map(map, orientation).len() == 2048
            &&& stored_map(map, orientation)[64 * y + 2 * x + b] == map[64 * q + 2 * p + b]
        }),
        map.len() != 2048 ==> stored_map(map, orientation) == map,
{
    let i = 64 * y + 2 * x + b;
    assert(i / 2 == 32 * y + x && i % 2 == b);
    assert((i / 2) % 32 == x && (i / 2) / 32 == y);
}

/// Alpha is dropped and wide samples lose their low byte: channel `c` of pixel `k` is that of the
/// decoded image. Images without extent and failures give no raster.
pub proof fn pixels_keep_their_colours(p: PixelsView, width: u32, height: u32, k: int, c: int, e: Seq<char>)
    requires
        fills(p, width, height),
        width > 0,
        height > 0,
        0 <= k < width * height,
        0 <= c < 3,
    ensures
        primary_raster(Ok((p, width, height))) matches Ok(r) && r.width == width && r.height == height
            && is_full(r) && r.pixels[3 * k + c] == (match p {
            PixelsView::Rgb8(v) => v[3 * k + c] as int,
            PixelsView::Rgba8(v) => v[4 * k + c] as int,
            PixelsView::Rgb16(v) => v[3 * k + c] as int / 256,
            PixelsView::Rgba16(v) => v[4 * k + c] as int / 256,
        }),
        primary_raster(Ok((p, 0, height))) == Err::<RgbView, Seq<char>>(
            "linear thumb: decoded primary has zero extent"@,
        ),
        primary_raster(Ok((p, width, 0))) == Err::<RgbView, Seq<char>>(
            "linear thumb: decoded primary has zero extent"@,
        ),
        primary_raster(Err(e)) == Err::<RgbView, Seq<char>>("linear thumb: decode primary: "@ + e),
{
    let n = width * height;
    assert(width * height * 3 == 3 * n && width * height * 4 == 4 * n) by (nonlinear_arith)
        requires
            n == width * height,
    ;
    assert((3 * k + c) / 3 == k && (3 * k + c) % 3 == c);
}

/// A half-precision number keeps the sign of the number that it stands for. Its magnitude is the
/// nearest one, and of two as near the even one. Infinity stays, what is not a number stays
/// quietly, what exceeds the range becomes infinity, and what is too small becomes zero.
pub proof fn half_numbers_are_the_nearest(bits: u32)
    ensures
        ({
            let b = bits as int % 0x8000_0000;
            let exp = b / 0x80_0000;
            let sign = if bits >= 0x8000_0000 {
                0x8000int
            } else {
                0
            };
            let m = half_bits(bits) - sign;
            &&& b > 0x7f80_0000 ==> m == 0x7e00
            &&& 0x4780_0000 <= b <= 0x7f80_0000 ==> m == 0x7c00
            &&& 0x3880_0000 <= b < 0x4780_0000 ==> {
                let miss = 0x2000 * m - (b - 0x3800_0000);
                -0x1000 <= miss <= 0x1000 && (miss == 0x1000 || miss == -0x1000 ==> m % 2 == 0)
            }
            &&& 0x3300_0000 <= b < 0x3880_0000 ==> {
                let unit = pow2((126 - exp) as nat);
                let miss = 2 * (unit * m - (0x80_0000 + b % 0x80_0000));
                -unit <= miss <= unit && (miss == unit || miss == -unit ==> m % 2 == 0)
            }
            &&& b < 0x3300_0000 ==> m == 0
        }),
{
    let b = bits as int % 0x8000_0000;
    let exp = b / 0x80_0000;
    let frac = b % 0x80_0000;
    assert(exp == (bits as int / 0x80_0000) % 0x100);
    assert(frac == bits as int % 0x80_0000);
    if 0x3300_0000 <= b < 0x3880_0000 {
        let n = (126 - exp) as nat;
        lemma_powers(n);
        vstd::arithmetic::power2::lemma_pow2_pos(n);
        vstd::arithmetic::power2::lemma_pow2_unfold(n);
        lemma_nearest(frac + 0x80_0000, pow2(n) as int);
    }
    if 0x3880_0000 <= b < 0x4780_0000 {
        lemma_nearest(frac, 0x2000);
    }
}

proof fn lemma_nearest(x: int, unit: int)
    requires
        unit > 0,
        0 <= x,
    ensures
        ({
            let miss = 2 * (unit * rounded(x, unit) - x);
            -unit <= miss <= unit && (miss == unit || miss == -unit ==> rounded(x, unit) % 2 == 0)
        }),
{
    vstd::arithmetic::div_mod::lemma_fundamental_div_mod(x, unit);
    vstd::arithmetic::div_mod::lemma_mod_bound(x, unit);
    let q = x / unit;
    assert(unit * (q + 1) == unit * q + unit) by (nonlinear_arith);
}

proof fn lemma_powers(n: nat)
    ensures
        pow2_of(n) == pow2(n),
    decreases n,
{
    if n == 0 {
        vstd::arithmetic::power2::lemma2_to64();
    } else {
        lemma_powers((n - 1) as nat);
        vstd::arithmetic::power2::lemma_pow2_unfold(n);
    }
}

/// Boxes that state their length, one behind the other.
pub open spec fn in_a_row(boxes: Seq<Seq<u8>>) -> Seq<u8>
    decreases boxes.len(),
{
    if boxes.len() == 0 {
        Seq::empty()
    } else {
        boxes[0] + in_a_row(boxes.drop_first())
    }
}

/// A file is decoded without what trails its boxes: something too short for a box, or that looks
/// like one that reaches beyond the end. Without boxes it is decoded as it is.
pub proof fn tails_are_not_decoded(boxes: Seq<Seq<u8>>, tail: Seq<u8>)
    requires
        forall|i: int| 0 <= i < boxes.len() ==> whole_box(#[trigger] boxes[i]),
        tail.len() < 8 || be32(tail, 0) > tail.len() || (be32(tail, 0) < 8 && be32(tail, 0) != 1),
    ensures
        boxes.len() > 0 ==> decodable(in_a_row(boxes) + tail) == in_a_row(boxes),
        boxes.len() == 0 ==> decodable(in_a_row(boxes) + tail) == tail,
{
    let s = in_a_row(boxes) + tail;
    lemma_row_end(boxes, tail, Seq::empty());
    assert(Seq::<u8>::empty() + in_a_row(boxes) + tail =~= s);
    if boxes.len() > 0 {
        assert(boxes[0].len() >= 8);
        assert(s.take(in_a_row(boxes).len() as int) =~= in_a_row(boxes));
    } else {
        assert(s =~= tail);
    }
}

proof fn lemma_row_end(boxes: Seq<Seq<u8>>, tail: Seq<u8>, before: Seq<u8>)
    requires
        forall|i: int| 0 <= i < boxes.len() ==> whole_box(#[trigger] boxes[i]),
        tail.len() < 8 || be32(tail, 0) > tail.len() || (be32(tail, 0) < 8 && be32(tail, 0) != 1),
    ensures
        boxes_end(before + in_a_row(boxes) + tail, before.len() as int) == before.len() + in_a_row(boxes).len(),
    decreases boxes.len(),
{
    let s = before + in_a_row(boxes) + tail;
    let pos = before.len() as int;
    if boxes.len() == 0 {
        if tail.len() >= 8 {
            assert(s.subrange(pos, pos + 4) =~= tail.subrange(0, 4));
            assert(s[pos] == tail[0] && s[pos + 1] == tail[1] && s[pos + 2] == tail[2] && s[pos + 3] == tail[3]);
            assert(be32(s, pos) == be32(tail, 0));
        }
        assert(box_end(s, pos) is None);
    } else {
        let b = boxes[0];
        let rest = boxes.drop_first();
        assert(whole_box(b));
        assert forall|i: int| 0 <= i < rest.len() implies whole_box(#[trigger] rest[i]) by {
            assert(rest[i] == boxes[i + 1]);
        }
        lemma_row_end(rest, tail, before + b);
        assert(before + b + in_a_row(rest) + tail =~= s);
        assert(s[pos] == b[0] && s[pos + 1] == b[1] && s[pos + 2] == b[2] && s[pos + 3] == b[3]);
        assert(be32(s, pos) == be32(b, 0));
        assert(box_end(s, pos) == Some(pos + b.len()));
    }
}

/// A packaged thumbnail is the slices of its stream, with the decoder configuration of the stream
/// in 4:2:0. Only where there is no configuration is there no package.
pub proof fn thumbnails_are_packaged_in_420(stream: Seq<u8>, payload: Seq<u8>, record: Seq<u8>)
    ensures
        packaged(stream) == Some(Ok::<(Seq<u8>, Seq<u8>), Seq<char>>((payload, record))) <==> hvcc_of(stream, 1)
            == Some(record) && tile_payload(stream) == Some(payload),
        packaged(stream) matches Some(Err(_)) <==> hvcc_of(stream, 1) is None,
{
}

} // verus!
