//! Gain-map rasters: orienting them and cutting them into tiles.

use crate::bytes::append;
use crate::exif::ExifOrientation;
use vstd::prelude::*;
use vstd::string::*;

verus! {

/// The side of a gain-map tile.
pub const GAIN_TILE_SIZE: u32 = 512;

/// Where byte `c` of the pixel at column `x` of row `y` stands in a packed raster.
pub open spec fn pixel_index(y: int, x: int, width: int, pixel_bytes: int, c: int) -> int {
    (y * width + x) * pixel_bytes + c
}

/// A pixel of a raster lies in it.
pub proof fn lemma_pixel_index(y: int, x: int, height: int, width: int, pixel_bytes: int, c: int)
    requires
        0 <= y < height,
        0 <= x < width,
        0 <= c < pixel_bytes,
    ensures
        0 <= pixel_index(y, x, width, pixel_bytes, c),
        pixel_index(y, x, width, pixel_bytes, c) < (y * width + x + 1) * pixel_bytes,
        (y * width + x + 1) * pixel_bytes <= (y + 1) * width * pixel_bytes,
        (y + 1) * width * pixel_bytes <= height * width * pixel_bytes,
        0 <= y * width,
        y * width + x < height * width,
{
    assert(0 <= y * width) by (nonlinear_arith)
        requires
            0 <= y,
            0 <= width,
    ;
    assert((y + 1) * width == y * width + width) by (nonlinear_arith);
    assert((y + 1) * width <= height * width) by (nonlinear_arith)
        requires
            y + 1 <= height,
            0 <= width,
    ;
    let p = y * width + x;
    assert(0 <= p * pixel_bytes) by (nonlinear_arith)
        requires
            0 <= p,
            0 <= pixel_bytes,
    ;
    assert((p + 1) * pixel_bytes == p * pixel_bytes + pixel_bytes) by (nonlinear_arith);
    assert((p + 1) * pixel_bytes <= (y + 1) * width * pixel_bytes) by (nonlinear_arith)
        requires
            p + 1 <= (y + 1) * width,
            0 <= pixel_bytes,
    ;
    assert((y + 1) * width * pixel_bytes <= height * width * pixel_bytes) by (nonlinear_arith)
        requires
            (y + 1) * width <= height * width,
            0 <= pixel_bytes,
    ;
}

/// A pixel of an earlier place in reading order stands earlier.
proof fn lemma_pixel_order(p: int, q: int, pixel_bytes: int, c: int)
    requires
        p < q,
        0 <= c < pixel_bytes,
    ensures
        p * pixel_bytes + c < q * pixel_bytes,
{
    assert((p + 1) * pixel_bytes <= q * pixel_bytes) by (nonlinear_arith)
        requires
            p + 1 <= q,
            0 <= pixel_bytes,
    ;
    assert((p + 1) * pixel_bytes == p * pixel_bytes + pixel_bytes) by (nonlinear_arith);
}

proof fn lemma_row_order(y: int, x: int, row: int, width: int)
    requires
        0 <= y < row,
        0 <= x < width,
    ensures
        y * width + x < row * width,
{
    assert((y + 1) * width <= row * width) by (nonlinear_arith)
        requires
            y + 1 <= row,
            0 <= width,
    ;
    assert((y + 1) * width == y * width + width) by (nonlinear_arith);
}

// ---------------------------------------------------------------------------
// Orientation
// ---------------------------------------------------------------------------

/// Where the stored pixel at column `x` of row `y` is presented: column and row.
pub open spec fn destination(o: ExifOrientation, width: int, height: int, x: int, y: int) -> (int, int) {
    match o {
        ExifOrientation::Normal => (x, y),
        ExifOrientation::FlipHorizontal => (width - 1 - x, y),
        ExifOrientation::Rotate180 => (width - 1 - x, height - 1 - y),
        ExifOrientation::FlipVertical => (x, height - 1 - y),
        ExifOrientation::Transpose => (y, x),
        ExifOrientation::Rotate90Clockwise => (height - 1 - y, x),
        ExifOrientation::Transverse => (height - 1 - y, width - 1 - x),
        ExifOrientation::Rotate90CounterClockwise => (y, width - 1 - x),
    }
}

/// The stored pixel that is presented at column `x` of row `y`: column and row.
pub open spec fn origin(o: ExifOrientation, width: int, height: int, x: int, y: int) -> (int, int) {
    match o {
        ExifOrientation::Normal => (x, y),
        ExifOrientation::FlipHorizontal => (width - 1 - x, y),
        ExifOrientation::Rotate180 => (width - 1 - x, height - 1 - y),
        ExifOrientation::FlipVertical => (x, height - 1 - y),
        ExifOrientation::Transpose => (y, x),
        ExifOrientation::Rotate90Clockwise => (y, height - 1 - x),
        ExifOrientation::Transverse => (width - 1 - y, height - 1 - x),
        ExifOrientation::Rotate90CounterClockwise => (width - 1 - y, x),
    }
}

/// Orienting moves every stored pixel to a place of its own in the presented
/// image, and no place stays empty.
pub proof fn orientation_is_a_permutation(
    o: ExifOrientation,
    width: u32,
    height: u32,
    x: int,
    y: int,
)
    ensures
        0 <= x < width && 0 <= y < height ==> ({
            let d = destination(o, width as int, height as int, x, y);
            &&& 0 <= d.0 < o.presented(width, height).0
            &&& 0 <= d.1 < o.presented(width, height).1
            &&& origin(o, width as int, height as int, d.0, d.1) == (x, y)
        }),
        0 <= x < o.presented(width, height).0 && 0 <= y < o.presented(width, height).1 ==> ({
            let s = origin(o, width as int, height as int, x, y);
            &&& 0 <= s.0 < width
            &&& 0 <= s.1 < height
            &&& destination(o, width as int, height as int, s.0, s.1) == (x, y)
        }),
{
}

/// Whether `out` is the packed raster that presents the stored `pixels`.
pub open spec fn presents(
    out: Seq<u8>,
    pixels: Seq<u8>,
    width: u32,
    height: u32,
    pixel_bytes: int,
    stride: int,
    o: ExifOrientation,
) -> bool {
    &&& out.len() == width * height * pixel_bytes
    &&& forall|x: int, y: int, c: int|
        #![trigger pixels[y * stride + x * pixel_bytes + c]]
        0 <= x < width && 0 <= y < height && 0 <= c < pixel_bytes ==> ({
            let d = destination(o, width as int, height as int, x, y);
            out[pixel_index(d.1, d.0, o.presented(width, height).0 as int, pixel_bytes, c)]
                == pixels[y * stride + x * pixel_bytes + c]
        })
}

/// Why a raster cannot be oriented.
pub open spec fn orient_error(
    len: int,
    width: u32,
    height: u32,
    pixel_bytes: int,
    stride: int,
) -> Option<Seq<char>> {
    if width == 0 || height == 0 || pixel_bytes == 0 {
        Some("gain map has invalid dimensions or pixel format"@)
    } else if stride < width * pixel_bytes {
        Some("gain map stride is smaller than a packed row"@)
    } else if stride * height > usize::MAX {
        Some("gain map input size overflow"@)
    } else if len < stride * height {
        Some("gain map buffer is shorter than its declared geometry"@)
    } else {
        None
    }
}

/// A pixel lies in a strided raster.
proof fn lemma_stride_index(
    y: int,
    x: int,
    width: int,
    height: int,
    pixel_bytes: int,
    stride: int,
    c: int,
)
    requires
        0 <= y < height,
        0 <= x < width,
        0 <= c < pixel_bytes,
        width * pixel_bytes <= stride,
    ensures
        0 <= y * stride,
        0 <= x * pixel_bytes,
        x * pixel_bytes + pixel_bytes <= stride,
        y * stride + stride <= stride * height,
        0 <= y * stride + x * pixel_bytes + c < stride * height,
{
    assert((x + 1) * pixel_bytes <= width * pixel_bytes) by (nonlinear_arith)
        requires
            x + 1 <= width,
            0 <= pixel_bytes,
    ;
    assert((x + 1) * pixel_bytes == x * pixel_bytes + pixel_bytes) by (nonlinear_arith);
    assert(0 <= x * pixel_bytes) by (nonlinear_arith)
        requires
            0 <= x,
            0 <= pixel_bytes,
    ;
    assert(0 <= y * stride) by (nonlinear_arith)
        requires
            0 <= y,
            0 <= stride,
    ;
    assert((y + 1) * stride <= height * stride) by (nonlinear_arith)
        requires
            y + 1 <= height,
            0 <= stride,
    ;
    assert((y + 1) * stride == y * stride + stride) by (nonlinear_arith);
    assert(height * stride == stride * height) by (nonlinear_arith);
}

fn origin_of(o: ExifOrientation, width: u32, height: u32, x: u32, y: u32) -> (r: (u32, u32))
    requires
        x < o.presented(width, height).0,
        y < o.presented(width, height).1,
    ensures
        (r.0 as int, r.1 as int) == origin(o, width as int, height as int, x as int, y as int),
        r.0 < width,
        r.1 < height,
{
    match o {
        ExifOrientation::Normal => (x, y),
        ExifOrientation::FlipHorizontal => (width - 1 - x, y),
        ExifOrientation::Rotate180 => (width - 1 - x, height - 1 - y),
        ExifOrientation::FlipVertical => (x, height - 1 - y),
        ExifOrientation::Transpose => (y, x),
        ExifOrientation::Rotate90Clockwise => (y, height - 1 - x),
        ExifOrientation::Transverse => (width - 1 - y, height - 1 - x),
        ExifOrientation::Rotate90CounterClockwise => (width - 1 - y, x),
    }
}

/// The byte that the presented pixel at column `x` of row `y` has as its `c`-th.
pub open spec fn presented_byte(
    pixels: Seq<u8>,
    width: u32,
    height: u32,
    pixel_bytes: int,
    stride: int,
    o: ExifOrientation,
    x: int,
    y: int,
    c: int,
) -> u8 {
    let s = origin(o, width as int, height as int, x, y);
    pixels[s.1 * stride + s.0 * pixel_bytes + c]
}

/// Append one presented row.
fn push_row(
    output: &mut Vec<u8>,
    pixels: &[u8],
    width: u32,
    height: u32,
    pixel_bytes: usize,
    stride: usize,
    o: ExifOrientation,
    y: u32,
)
    requires
        orient_error(pixels@.len() as int, width, height, pixel_bytes as int, stride as int) is None,
        y < o.presented(width, height).1,
        old(output)@.len() == y * o.presented(width, height).0 * pixel_bytes,
    ensures
        final(output)@.len() == (y + 1) * o.presented(width, height).0 * pixel_bytes,
        old(output)@.len() <= final(output)@.len(),
        final(output)@.take(old(output)@.len() as int) == old(output)@,
        forall|x: int, c: int|
            #![trigger presented_byte(pixels@, width, height, pixel_bytes as int, stride as int, o, x, y as int, c)]
            0 <= x < o.presented(width, height).0 && 0 <= c < pixel_bytes ==> final(output)@[pixel_index(
                y as int,
                x,
                o.presented(width, height).0 as int,
                pixel_bytes as int,
                c,
            )] == presented_byte(
                pixels@,
                width,
                height,
                pixel_bytes as int,
                stride as int,
                o,
                x,
                y as int,
                c,
            ),
{
    let (row, _) = o.output_dimensions(width, height);
    let ghost n = row as int;
    let ghost b = pixel_bytes as int;
    let ghost base = output@;
    let len: usize = pixels.len();
    let mut x: u32 = 0;
    assert(y * n * b == (y * n + 0) * b);
    while x < row
        invariant
            x <= row,
            n == row,
            b == pixel_bytes,
            len == pixels@.len(),
            row == o.presented(width, height).0,
            y < o.presented(width, height).1,
            orient_error(
                pixels@.len() as int,
                width,
                height,
                pixel_bytes as int,
                stride as int,
            ) is None,
            output@.len() == (y * n + x) * b,
            base.len() == y * n * b,
            base.len() <= output@.len(),
            output@.take(base.len() as int) == base,
            forall|i: int, c: int|
                #![trigger presented_byte(pixels@, width, height, b, stride as int, o, i, y as int, c)]
                0 <= i < x && 0 <= c < b ==> output@[pixel_index(y as int, i, n, b, c)]
                    == presented_byte(pixels@, width, height, b, stride as int, o, i, y as int, c),
        decreases row - x,
    {
        let (sx, sy) = origin_of(o, width, height, x, y);
        proof {
            lemma_stride_index(
                sy as int,
                sx as int,
                width as int,
                height as int,
                b,
                stride as int,
                0,
            );
        }
        let start: usize = sy as usize * stride + sx as usize * pixel_bytes;
        let ghost before = output@;
        append(output, vstd::slice::slice_subrange(pixels, start, start + pixel_bytes));
        proof {
            assert((y * n + x + 1) * b == (y * n + x) * b + b) by (nonlinear_arith);
            assert(output@.take(base.len() as int) =~= base) by {
                assert(before.take(base.len() as int) == base);
                assert forall|k: int| 0 <= k < base.len() implies output@[k] == base[k] by {
                    assert(before.take(base.len() as int)[k] == base[k]);
                    assert(before[k] == base[k]);
                }
            }
            assert forall|i: int, c: int|
                #![trigger presented_byte(pixels@, width, height, b, stride as int, o, i, y as int, c)]
                0 <= i < x + 1 && 0 <= c < b implies output@[pixel_index(y as int, i, n, b, c)]
                == presented_byte(pixels@, width, height, b, stride as int, o, i, y as int, c) by {
                if i < x {
                    lemma_pixel_order(y * n + i, y * n + x, b, c);
                    lemma_pixel_index(y as int, i, y + 1, n, b, c);
                    assert(output@[pixel_index(y as int, i, n, b, c)] == before[pixel_index(
                        y as int,
                        i,
                        n,
                        b,
                        c,
                    )]);
                } else {
                    assert(output@[(y * n + x) * b + c] == pixels@[start + c]);
                }
            }
        }
        x = x + 1;
    }
    assert((y * n + n) * b == (y + 1) * n * b) by (nonlinear_arith);
}

/// Apply the primary image's EXIF storage-to-presentation transform to a
/// tightly strided pixel raster. Input rows may be padded; the returned raster
/// is tightly packed.
pub fn orient_gainmap_pixels(
    pixels: &[u8],
    width: u32,
    height: u32,
    pixel_bytes: usize,
    stride: usize,
    orientation: ExifOrientation,
) -> (r: Result<(Vec<u8>, u32, u32), String>)
    requires
        width * pixel_bytes <= usize::MAX,
    ensures
        match r {
            Err(e) => orient_error(
                pixels@.len() as int,
                width,
                height,
                pixel_bytes as int,
                stride as int,
            ) == Some(e@),
            Ok((out, w, h)) => orient_error(
                pixels@.len() as int,
                width,
                height,
                pixel_bytes as int,
                stride as int,
            ) is None && (w, h) == orientation.presented(width, height) && presents(
                out@,
                pixels@,
                width,
                height,
                pixel_bytes as int,
                stride as int,
                orientation,
            ),
        },
{
    if width == 0 || height == 0 || pixel_bytes == 0 {
        return Err("gain map has invalid dimensions or pixel format".to_string());
    }
    if stride < width as usize * pixel_bytes {
        return Err("gain map stride is smaller than a packed row".to_string());
    }
    let required: usize = match stride.checked_mul(height as usize) {
        Some(v) => v,
        None => {
            return Err("gain map input size overflow".to_string());
        },
    };
    if pixels.len() < required {
        return Err("gain map buffer is shorter than its declared geometry".to_string());
    }
    let (out_width, out_height) = orientation.output_dimensions(width, height);
    let ghost n = out_width as int;
    let ghost b = pixel_bytes as int;
    let mut output: Vec<u8> = Vec::new();
    let mut y: u32 = 0;
    assert(0 * n * b == 0) by (nonlinear_arith);
    while y < out_height
        invariant
            y <= out_height,
            n == out_width,
            b == pixel_bytes,
            (out_width, out_height) == orientation.presented(width, height),
            orient_error(
                pixels@.len() as int,
                width,
                height,
                pixel_bytes as int,
                stride as int,
            ) is None,
            output@.len() == y * n * b,
            forall|x: int, v: int, c: int|
                #![trigger presented_byte(pixels@, width, height, b, stride as int, orientation, x, v, c)]
                0 <= x < n && 0 <= v < y && 0 <= c < b ==> output@[pixel_index(v, x, n, b, c)]
                    == presented_byte(pixels@, width, height, b, stride as int, orientation, x, v, c),
        decreases out_height - y,
    {
        let ghost before = output@;
        push_row(&mut output, pixels, width, height, pixel_bytes, stride, orientation, y);
        proof {
            assert forall|x: int, v: int, c: int|
                #![trigger presented_byte(pixels@, width, height, b, stride as int, orientation, x, v, c)]
                0 <= x < n && 0 <= v < y + 1 && 0 <= c < b implies output@[pixel_index(v, x, n, b, c)]
                == presented_byte(
                pixels@,
                width,
                height,
                b,
                stride as int,
                orientation,
                x,
                v,
                c,
            ) by {
                if v < y {
                    lemma_pixel_index(v, x, y as int, n, b, c);
                    let i = pixel_index(v, x, n, b, c);
                    assert(i < before.len());
                    assert(output@.take(before.len() as int)[i] == before[i]);
                    assert(output@[i] == before[i]);
                    assert(before[i] == presented_byte(
                        pixels@,
                        width,
                        height,
                        b,
                        stride as int,
                        orientation,
                        x,
                        v,
                        c,
                    ));
                } else {
                    assert(v == y as int);
                    assert(output@[pixel_index(y as int, x, n, b, c)] == presented_byte(
                        pixels@,
                        width,
                        height,
                        b,
                        stride as int,
                        orientation,
                        x,
                        y as int,
                        c,
                    ));
                }
            }
        }
        y = y + 1;
    }
    proof {
        assert(out_height * n * b == width * height * b) by (nonlinear_arith)
            requires
                (n == width && out_height == height) || (n == height && out_height == width),
        ;
        let pix = pixels@;
        assert forall|x: int, v: int, c: int|
            #![trigger pix[v * stride + x * b + c]]
            0 <= x < width && 0 <= v < height && 0 <= c < b implies ({
            let d = destination(orientation, width as int, height as int, x, v);
            output@[pixel_index(d.1, d.0, n, b, c)] == pix[v * stride + x * b + c]
        }) by {
            orientation_is_a_permutation(orientation, width, height, x, v);
            let d = destination(orientation, width as int, height as int, x, v);
            assert(presented_byte(pix, width, height, b, stride as int, orientation, d.0, d.1, c)
                == pix[v * stride + x * b + c]);
        }
    }
    Ok((output, out_width, out_height))
}

// ---------------------------------------------------------------------------
// Tiles
// ---------------------------------------------------------------------------

/// The smaller of two numbers.
pub open spec fn least(a: int, b: int) -> int {
    if a <= b {
        a
    } else {
        b
    }
}

/// Why a tile cannot be cut.
pub open spec fn tile_error(
    len: int,
    width: u32,
    height: u32,
    pixel_bytes: int,
    stride: int,
    x0: u32,
    y0: u32,
) -> Option<Seq<char>> {
    if width == 0 || height == 0 || pixel_bytes == 0 || x0 >= width || y0 >= height {
        Some("gain-map tile has invalid geometry"@)
    } else if stride < width * pixel_bytes {
        Some("gain-map tile stride is smaller than a packed row"@)
    } else if stride * height > usize::MAX {
        Some("gain-map tile input size overflow"@)
    } else if len < stride * height {
        Some("gain-map tile input is shorter than its declared geometry"@)
    } else {
        None
    }
}

/// The byte that a tile has as the `c`-th of the pixel at column `x` of row `y`:
/// pixels past the right or bottom edge repeat the last one before it.
pub open spec fn tile_byte(
    pixels: Seq<u8>,
    width: u32,
    height: u32,
    pixel_bytes: int,
    stride: int,
    x0: u32,
    y0: u32,
    x: int,
    y: int,
    c: int,
) -> u8 {
    pixels[least(y0 + y, height - 1) * stride + least(x0 + x, width - 1) * pixel_bytes + c]
}

/// Whether `tile` is the full-size tile of the raster at column `x0` of row `y0`.
pub open spec fn is_tile_of(
    tile: Seq<u8>,
    pixels: Seq<u8>,
    width: u32,
    height: u32,
    pixel_bytes: int,
    stride: int,
    x0: u32,
    y0: u32,
) -> bool {
    &&& tile.len() == 0x4_0000 * pixel_bytes
    &&& forall|x: int, y: int, c: int|
        #![trigger tile_byte(pixels, width, height, pixel_bytes, stride, x0, y0, x, y, c)]
        0 <= x < 512 && 0 <= y < 512 && 0 <= c < pixel_bytes ==> tile[pixel_index(
            y,
            x,
            512,
            pixel_bytes,
            c,
        )] == tile_byte(pixels, width, height, pixel_bytes, stride, x0, y0, x, y, c)
}

/// Append one tile row.
fn push_tile_row(
    tile: &mut Vec<u8>,
    pixels: &[u8],
    width: u32,
    height: u32,
    pixel_bytes: usize,
    stride: usize,
    x0: u32,
    y0: u32,
    y: u32,
)
    requires
        tile_error(
            pixels@.len() as int,
            width,
            height,
            pixel_bytes as int,
            stride as int,
            x0,
            y0,
        ) is None,
        y < 512,
        old(tile)@.len() == y * 512 * pixel_bytes,
    ensures
        final(tile)@.len() == (y + 1) * 512 * pixel_bytes,
        old(tile)@.len() <= final(tile)@.len(),
        final(tile)@.take(old(tile)@.len() as int) == old(tile)@,
        forall|x: int, c: int|
            #![trigger tile_byte(pixels@, width, height, pixel_bytes as int, stride as int, x0, y0, x, y as int, c)]
            0 <= x < 512 && 0 <= c < pixel_bytes ==> final(tile)@[pixel_index(
                y as int,
                x,
                512,
                pixel_bytes as int,
                c,
            )] == tile_byte(
                pixels@,
                width,
                height,
                pixel_bytes as int,
                stride as int,
                x0,
                y0,
                x,
                y as int,
                c,
            ),
{
    let ghost b = pixel_bytes as int;
    let ghost base = tile@;
    let len: usize = pixels.len();
    let sy: u32 = if y < height - y0 {
        y0 + y
    } else {
        height - 1
    };
    let mut x: u32 = 0;
    assert(y * 512 * b == (y * 512 + 0) * b);
    while x < 512
        invariant
            x <= 512,
            y < 512,
            b == pixel_bytes,
            len == pixels@.len(),
            sy == least(y0 + y, height - 1),
            sy < height,
            tile_error(
                pixels@.len() as int,
                width,
                height,
                pixel_bytes as int,
                stride as int,
                x0,
                y0,
            ) is None,
            tile@.len() == (y * 512 + x) * b,
            base.len() == y * 512 * b,
            base.len() <= tile@.len(),
            tile@.take(base.len() as int) == base,
            forall|i: int, c: int|
                #![trigger tile_byte(pixels@, width, height, b, stride as int, x0, y0, i, y as int, c)]
                0 <= i < x && 0 <= c < b ==> tile@[pixel_index(y as int, i, 512, b, c)] == tile_byte(
                    pixels@,
                    width,
                    height,
                    b,
                    stride as int,
                    x0,
                    y0,
                    i,
                    y as int,
                    c,
                ),
        decreases 512 - x,
    {
        let sx: u32 = if x < width - x0 {
            x0 + x
        } else {
            width - 1
        };
        proof {
            lemma_stride_index(
                sy as int,
                sx as int,
                width as int,
                height as int,
                b,
                stride as int,
                0,
            );
        }
        let start: usize = sy as usize * stride + sx as usize * pixel_bytes;
        let ghost before = tile@;
        append(tile, vstd::slice::slice_subrange(pixels, start, start + pixel_bytes));
        proof {
            assert((y * 512 + x + 1) * b == (y * 512 + x) * b + b) by (nonlinear_arith);
            assert(tile@.take(base.len() as int) =~= base) by {
                assert forall|k: int| 0 <= k < base.len() implies tile@[k] == base[k] by {
                    assert(before.take(base.len() as int)[k] == base[k]);
                    assert(before[k] == base[k]);
                }
            }
            assert forall|i: int, c: int|
                #![trigger tile_byte(pixels@, width, height, b, stride as int, x0, y0, i, y as int, c)]
                0 <= i < x + 1 && 0 <= c < b implies tile@[pixel_index(y as int, i, 512, b, c)]
                == tile_byte(
                pixels@,
                width,
                height,
                b,
                stride as int,
                x0,
                y0,
                i,
                y as int,
                c,
            ) by {
                if i < x {
                    lemma_pixel_order(y * 512 + i, y * 512 + x, b, c);
                    lemma_pixel_index(y as int, i, y + 1, 512, b, c);
                    assert(tile@[pixel_index(y as int, i, 512, b, c)] == before[pixel_index(
                        y as int,
                        i,
                        512,
                        b,
                        c,
                    )]);
                } else {
                    assert(tile@[(y * 512 + x) * b + c] == pixels@[start + c]);
                }
            }
        }
        x = x + 1;
    }
    assert((y * 512 + 512) * b == (y + 1) * 512 * b) by (nonlinear_arith);
}

/// Copy one logical gain-map tile into a full-size HEVC input tile. Edge pixels
/// are replicated only to the right and bottom, so the top-left origin remains
/// identical to the source raster and the ImageGrid can crop the padded tail.
pub fn build_padded_gain_tile(
    pixels: &[u8],
    width: u32,
    height: u32,
    pixel_bytes: usize,
    stride: usize,
    x0: u32,
    y0: u32,
) -> (r: Result<Vec<u8>, String>)
    requires
        width * pixel_bytes <= usize::MAX,
        0x4_0000 * pixel_bytes <= usize::MAX,
    ensures
        match r {
            Err(e) => tile_error(
                pixels@.len() as int,
                width,
                height,
                pixel_bytes as int,
                stride as int,
                x0,
                y0,
            ) == Some(e@),
            Ok(tile) => tile_error(
                pixels@.len() as int,
                width,
                height,
                pixel_bytes as int,
                stride as int,
                x0,
                y0,
            ) is None && is_tile_of(
                tile@,
                pixels@,
                width,
                height,
                pixel_bytes as int,
                stride as int,
                x0,
                y0,
            ),
        },
{
    if width == 0 || height == 0 || pixel_bytes == 0 || x0 >= width || y0 >= height {
        return Err("gain-map tile has invalid geometry".to_string());
    }
    if stride < width as usize * pixel_bytes {
        return Err("gain-map tile stride is smaller than a packed row".to_string());
    }
    let required: usize = match stride.checked_mul(height as usize) {
        Some(v) => v,
        None => {
            return Err("gain-map tile input size overflow".to_string());
        },
    };
    if pixels.len() < required {
        return Err("gain-map tile input is shorter than its declared geometry".to_string());
    }
    let ghost b = pixel_bytes as int;
    let mut tile: Vec<u8> = Vec::new();
    let mut y: u32 = 0;
    assert(0 * 512 * b == 0) by (nonlinear_arith);
    while y < 512
        invariant
            y <= 512,
            b == pixel_bytes,
            tile_error(
                pixels@.len() as int,
                width,
                height,
                pixel_bytes as int,
                stride as int,
                x0,
                y0,
            ) is None,
            tile@.len() == y * 512 * b,
            forall|x: int, v: int, c: int|
                #![trigger tile_byte(pixels@, width, height, b, stride as int, x0, y0, x, v, c)]
                0 <= x < 512 && 0 <= v < y && 0 <= c < b ==> tile@[pixel_index(v, x, 512, b, c)]
                    == tile_byte(pixels@, width, height, b, stride as int, x0, y0, x, v, c),
        decreases 512 - y,
    {
        let ghost before = tile@;
        push_tile_row(&mut tile, pixels, width, height, pixel_bytes, stride, x0, y0, y);
        proof {
            assert forall|x: int, v: int, c: int|
                #![trigger tile_byte(pixels@, width, height, b, stride as int, x0, y0, x, v, c)]
                0 <= x < 512 && 0 <= v < y + 1 && 0 <= c < b implies tile@[pixel_index(
                v,
                x,
                512,
                b,
                c,
            )] == tile_byte(pixels@, width, height, b, stride as int, x0, y0, x, v, c) by {
                if v < y {
                    lemma_pixel_index(v, x, y as int, 512, b, c);
                    let i = pixel_index(v, x, 512, b, c);
                    assert(i < before.len());
                    assert(tile@.take(before.len() as int)[i] == before[i]);
                    assert(tile@[i] == before[i]);
                } else {
                    assert(v == y as int);
                }
            }
        }
        y = y + 1;
    }
    Ok(tile)
}

/// How many tiles span a length: at least one.
pub open spec fn tile_count(len: int) -> int {
    if len == 0 {
        1
    } else {
        (len + 511) / 512
    }
}

/// Grid dimensions for a gain map at `GAIN_TILE_SIZE` tiles: columns and rows.
pub fn tile_grid_dims(width: u32, height: u32) -> (r: (u32, u32))
    requires
        width + 511 <= u32::MAX,
        height + 511 <= u32::MAX,
    ensures
        r.0 == tile_count(width as int),
        r.1 == tile_count(height as int),
{
    let cols: u32 = (width + 511) / 512;
    let rows: u32 = (height + 511) / 512;
    (
        if cols == 0 {
            1
        } else {
            cols
        },
        if rows == 0 {
            1
        } else {
            rows
        },
    )
}

/// The tiles of a grid reach every pixel, and no tile starts past the edge.
pub proof fn tiles_cover_the_raster(len: u32, at: int)
    requires
        len >= 1,
        0 <= at < len,
    ensures
        0 <= at / 512 < tile_count(len as int),
        (tile_count(len as int) - 1) * 512 < len,
{
}

/// Cut a raster into its tiles, row by row.
pub fn gain_map_tiles(pixels: &[u8], width: u32, height: u32, pixel_bytes: usize, stride: usize) -> (r: Result<
    Vec<Vec<u8>>,
    String,
>)
    requires
        width + 511 <= u32::MAX,
        height + 511 <= u32::MAX,
        width * pixel_bytes <= usize::MAX,
        0x4_0000 * pixel_bytes <= usize::MAX,
    ensures
        match r {
            Err(e) => tile_error(
                pixels@.len() as int,
                width,
                height,
                pixel_bytes as int,
                stride as int,
                0,
                0,
            ) == Some(e@),
            Ok(tiles) => tile_error(
                pixels@.len() as int,
                width,
                height,
                pixel_bytes as int,
                stride as int,
                0,
                0,
            ) is None && tiles@.len() == tile_count(width as int) * tile_count(height as int)
                && forall|row: int, col: int|
                #![trigger tiles@[row * tile_count(width as int) + col]]
                0 <= row < tile_count(height as int) && 0 <= col < tile_count(width as int)
                    ==> is_tile_of(
                    tiles@[row * tile_count(width as int) + col]@,
                    pixels@,
                    width,
                    height,
                    pixel_bytes as int,
                    stride as int,
                    (col * 512) as u32,
                    (row * 512) as u32,
                ),
        },
{
    let (cols, rows) = tile_grid_dims(width, height);
    let mut tiles: Vec<Vec<u8>> = Vec::new();
    let ghost n = cols as int;
    let mut row: u32 = 0;
    assert(0 * n == 0) by (nonlinear_arith);
    while row < rows
        invariant
            row <= rows,
            n == cols,
            cols == tile_count(width as int),
            rows == tile_count(height as int),
            width + 511 <= u32::MAX,
            height + 511 <= u32::MAX,
            width * pixel_bytes <= usize::MAX,
            0x4_0000 * pixel_bytes <= usize::MAX,
            row > 0 ==> tile_error(
                pixels@.len() as int,
                width,
                height,
                pixel_bytes as int,
                stride as int,
                0,
                0,
            ) is None,
            tiles@.len() == row * n,
            forall|v: int, col: int|
                #![trigger tiles@[v * n + col]]
                0 <= v < row && 0 <= col < n ==> is_tile_of(
                    tiles@[v * n + col]@,
                    pixels@,
                    width,
                    height,
                    pixel_bytes as int,
                    stride as int,
                    (col * 512) as u32,
                    (v * 512) as u32,
                ),
        decreases rows - row,
    {
        let mut col: u32 = 0;
        while col < cols
            invariant
                col <= cols,
                row < rows,
                n == cols,
                cols == tile_count(width as int),
                rows == tile_count(height as int),
                width + 511 <= u32::MAX,
                height + 511 <= u32::MAX,
                width * pixel_bytes <= usize::MAX,
                0x4_0000 * pixel_bytes <= usize::MAX,
                row > 0 || col > 0 ==> tile_error(
                    pixels@.len() as int,
                    width,
                    height,
                    pixel_bytes as int,
                    stride as int,
                    0,
                    0,
                ) is None,
                tiles@.len() == row * n + col,
                forall|v: int, c: int|
                    #![trigger tiles@[v * n + c]]
                    (0 <= v < row && 0 <= c < n) || (v == row && 0 <= c < col) ==> is_tile_of(
                        tiles@[v * n + c]@,
                        pixels@,
                        width,
                        height,
                        pixel_bytes as int,
                        stride as int,
                        (c * 512) as u32,
                        (v * 512) as u32,
                    ),
            decreases cols - col,
        {
            proof {
                if width == 0 || height == 0 {
                } else {
                    assert(col * 512 < width);
                    assert(row * 512 < height);
                }
            }
            let tile: Vec<u8> = match build_padded_gain_tile(
                pixels,
                width,
                height,
                pixel_bytes,
                stride,
                col * GAIN_TILE_SIZE,
                row * GAIN_TILE_SIZE,
            ) {
                Ok(t) => t,
                Err(e) => {
                    return Err(e);
                },
            };
            let ghost before = tiles@;
            tiles.push(tile);
            proof {
                assert forall|v: int, c: int|
                    #![trigger tiles@[v * n + c]]
                    (0 <= v < row && 0 <= c < n) || (v == row && 0 <= c < col + 1) implies is_tile_of(
                    tiles@[v * n + c]@,
                    pixels@,
                    width,
                    height,
                    pixel_bytes as int,
                    stride as int,
                    (c * 512) as u32,
                    (v * 512) as u32,
                ) by {
                    if v < row {
                        lemma_row_order(v, c, row as int, n);
                        assert(0 <= v * n) by (nonlinear_arith)
                            requires
                                0 <= v,
                                0 <= n,
                        ;
                        assert(tiles@[v * n + c] == before[v * n + c]);
                    } else if c < col {
                        assert(tiles@[v * n + c] == before[v * n + c]);
                    } else {
                        assert(tiles@[v * n + c] == tile);
                    }
                }
            }
            col = col + 1;
        }
        assert((row + 1) * n == row * n + n) by (nonlinear_arith);
        row = row + 1;
    }
    assert(rows * n == n * rows) by (nonlinear_arith);
    Ok(tiles)
}

/// A gray raster as RGB: every value three times.
pub open spec fn tripled(gray: Seq<u8>) -> Seq<u8> {
    Seq::new(3 * gray.len(), |i: int| gray[i / 3])
}

/// Replicate a gray raster to RGB.
pub fn gray_to_rgb(gray: &[u8]) -> (r: Vec<u8>)
    ensures
        r@ == tripled(gray@),
{
    let mut rgb: Vec<u8> = Vec::new();
    let mut i: usize = 0;
    while i < gray.len()
        invariant
            i <= gray@.len(),
            rgb@ == tripled(gray@.take(i as int)),
        decreases gray@.len() - i,
    {
        rgb.push(gray[i]);
        rgb.push(gray[i]);
        rgb.push(gray[i]);
        i = i + 1;
        assert(rgb@ =~= tripled(gray@.take(i as int)));
    }
    assert(gray@.take(i as int) =~= gray@);
    rgb
}

/// A gray tile as 4:2:0: the gray plane, then both chroma planes at 128.
pub open spec fn gray_tile_420(tile: Seq<u8>) -> Seq<u8> {
    tile + Seq::new(0x2_0000, |i: int| 128u8)
}

/// Append a gray tile as 4:2:0 planes.
pub fn push_gray_tile_420(out: &mut Vec<u8>, tile: &[u8])
    ensures
        final(out)@ == old(out)@ + gray_tile_420(tile@),
{
    append(out, tile);
    let chroma: Vec<u8> = vec![128u8; 0x2_0000];
    append(out, chroma.as_slice());
    assert(out@ =~= old(out)@ + gray_tile_420(tile@));
}

} // verus!
