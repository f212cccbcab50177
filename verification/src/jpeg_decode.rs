//! JPEG decoding to RGB and grayscale pixels.

use crate::bytes::{be16, copy_range, read16, starts_with};
use crate::raster::{gray_to_rgb, tripled};
use crate::text::{decimal, decimal_text, join};
use vstd::prelude::*;

verus! {

/// How the pixels of a decoded JPEG are stored.
#[derive(Debug, Clone, Copy, PartialEq, Eq, Structural)]
pub enum JpegFormat {
    /// One byte for each pixel.
    Gray8,
    /// Two bytes for each pixel.
    Gray16,
    /// Three bytes for each pixel.
    Rgb,
    /// Four bytes for each pixel.
    Cmyk,
}

/// How many bytes a pixel takes.
pub open spec fn pixel_len(format: JpegFormat) -> int {
    match format {
        JpegFormat::Gray8 => 1,
        JpegFormat::Gray16 => 2,
        JpegFormat::Rgb => 3,
        JpegFormat::Cmyk => 4,
    }
}

/// A decoded JPEG.
pub struct JpegImage {
    pub pixels: Vec<u8>,
    pub width: u16,
    pub height: u16,
    pub format: JpegFormat,
}

/// Why a JPEG was not decoded.
pub enum JpegFailure {
    /// What the decoder says.
    Decode(String),
    /// The decoder does not describe the image.
    NoInfo,
}

/// What the decoder came to.
#[verifier::ext_equal]
pub enum JpegOutcome {
    Image { pixels: Seq<u8>, width: u16, height: u16, format: JpegFormat },
    Failed(Seq<char>),
    NoInfo,
}

/// What a decoder's result says.
pub open spec fn jpeg_outcome(r: Result<JpegImage, JpegFailure>) -> JpegOutcome {
    match r {
        Ok(i) => JpegOutcome::Image {
            pixels: i.pixels@,
            width: i.width,
            height: i.height,
            format: i.format,
        },
        Err(JpegFailure::Decode(e)) => JpegOutcome::Failed(e@),
        Err(JpegFailure::NoInfo) => JpegOutcome::NoInfo,
    }
}

/// The two bytes that a JPEG begins with.
pub const SOI_MARKER: [u8; 2] = [0xff, 0xd8];

/// The largest width or height whose blocks the decoder can count in 16 bits of pixels.
pub const MAX_BLOCKED: u16 = 65528;

/// The marker of a lossless frame.
pub const LOSSLESS_MARKER: u8 = 0xc3;

/// The next marker from `p` on, and where the bytes behind it begin.
pub open spec fn marker_from(s: Seq<u8>, p: int) -> Option<(u8, int)>
    decreases s.len() - p,
{
    if p < 0 || p + 2 > s.len() {
        None
    } else if s[p] == 0xff && s[p + 1] != 0xff && s[p + 1] != 0 {
        Some((s[p + 1], p + 2))
    } else {
        marker_from(s, p + 1)
    }
}

/// Whether a marker is that of a frame header.
pub open spec fn is_frame_marker(m: u8) -> bool {
    0xc0 <= m <= 0xcf && m != 0xc4 && m != 0xc8 && m != 0xcc
}

/// Whether a marker is that of tables, a restart interval, a comment or application data.
pub open spec fn is_table_marker(m: u8) -> bool {
    m == 0xc4 || m == 0xdb || m == 0xdd || m == 0xfe || 0xe0 <= m <= 0xef
}

/// Where the segments of the frame header and of the first scan header begin, with the
/// segments from `p` on still to come; `None` where they do not lead to a scan of a frame.
pub open spec fn scan_from(s: Seq<u8>, p: int, frame: Option<int>) -> Option<(int, int)>
    decreases s.len() - p,
{
    match marker_from(s, p) {
        None => None,
        Some((m, q)) => if m == 0xda {
            match frame {
                None => None,
                Some(f) => Some((f, q)),
            }
        } else if q <= p || q + 8 > s.len() || be16(s, q) < 2 || q + be16(s, q) > s.len() || !(
        is_table_marker(m) || (is_frame_marker(m) && frame is None)) {
            None
        } else {
            scan_from(
                s,
                q + be16(s, q),
                if is_frame_marker(m) {
                    Some(q)
                } else {
                    frame
                },
            )
        },
    }
}

/// Whether the frame header whose segment begins at `f` has a component of three samples
/// across: its blocks can reach beyond those of the image.
pub open spec fn has_thirds(s: Seq<u8>, f: int) -> bool {
    exists|k: int|
        0 <= k < s[f + 7] && f + 9 + 3 * k < s.len() && (#[trigger] s[f + 9 + 3 * k]) / 16 == 3
}

/// Whether the frame header whose segment begins at `f` says more rows or columns than can
/// be counted in blocks. A lossless frame has none.
pub open spec fn is_huge(s: Seq<u8>, f: int) -> bool {
    s[f - 1] != LOSSLESS_MARKER && (be16(s, f + 3) > MAX_BLOCKED || (be16(s, f + 5) > MAX_BLOCKED
        && has_thirds(s, f)))
}

/// Whether the header of a scan of one component stands at `i`.
pub open spec fn single_scan_at(s: Seq<u8>, i: int) -> bool {
    0 <= i && i + 5 <= s.len() && s[i] == 0xff && s[i + 1] == 0xda && s[i + 4] == 1
}

/// Whether a scan from `from` on holds one component alone.
pub open spec fn has_single_scan(s: Seq<u8>, from: int) -> bool {
    exists|i: int| from <= i && #[trigger] single_scan_at(s, i)
}

/// Whether the blocks of each scan can be counted: a scan of one component is counted in
/// blocks of its own.
pub open spec fn is_countable(s: Seq<u8>) -> bool {
    match scan_from(s, 2, None) {
        None => true,
        Some((f, p)) => !(is_huge(s, f) && has_single_scan(s, p - 2)),
    }
}

fn find_marker(data: &[u8], from: usize) -> (r: Option<(u8, usize)>)
    ensures
        match r {
            Some((m, q)) => marker_from(data@, from as int) == Some((m, q as int)) && from < q
                && q <= data@.len(),
            None => marker_from(data@, from as int) is None,
        },
{
    let mut p: usize = from;
    while p < data.len() && data.len() - p >= 2
        invariant
            from <= p,
            marker_from(data@, from as int) == marker_from(data@, p as int),
        decreases data@.len() - p,
    {
        if data[p] == 0xff && data[p + 1] != 0xff && data[p + 1] != 0 {
            return Some((data[p + 1], p + 2));
        }
        p = p + 1;
    }
    None
}

fn find_scan(data: &[u8]) -> (r: Option<(usize, usize)>)
    ensures
        match r {
            Some((f, p)) => scan_from(data@, 2, None) == Some((f as int, p as int)) && 1
                <= f && f + 8 <= data@.len() && 4 <= p <= data@.len(),
            None => scan_from(data@, 2, None) is None,
        },
{
    let mut p: usize = 2;
    let mut frame: Option<usize> = None;
    let total: usize = data.len();
    loop
        invariant
            2 <= p,
            p <= total || p == 2,
            total == data@.len(),
            frame matches Some(f) ==> 1 <= f && f + 8 <= total,
            scan_from(data@, 2, None) == scan_from(
                data@,
                p as int,
                match frame {
                    Some(f) => Some(f as int),
                    None => None,
                },
            ),
        decreases total - p,
    {
        let (m, q): (u8, usize) = match find_marker(data, p) {
            None => {
                return None;
            },
            Some(x) => x,
        };
        if m == 0xda {
            return match frame {
                None => None,
                Some(f) => Some((f, q)),
            };
        }
        let is_frame: bool = 0xc0 <= m && m <= 0xcf && m != 0xc4 && m != 0xc8 && m != 0xcc;
        let is_table: bool = m == 0xc4 || m == 0xdb || m == 0xdd || m == 0xfe || (0xe0 <= m && m
            <= 0xef);
        if total - q < 8 || !(is_table || (is_frame && frame.is_none())) {
            return None;
        }
        let len: u16 = read16(data, q, false);
        if len < 2 || total - q < len as usize {
            return None;
        }
        if is_frame {
            frame = Some(q);
        }
        p = q + len as usize;
    }
}

fn says_thirds(data: &[u8], f: usize) -> (r: bool)
    requires
        f + 8 <= data@.len(),
    ensures
        r == has_thirds(data@, f as int),
{
    let total: usize = data.len();
    let count: u8 = data[f + 7];
    let mut k: u8 = 0;
    while k < count
        invariant
            k <= count,
            count == data@[f + 7],
            total == data@.len(),
            f + 8 <= total,
            forall|j: int|
                0 <= j < k && f + 9 + 3 * j < data@.len() ==> (#[trigger] data@[f + 9 + 3 * j]) / 16
                    != 3,
        decreases count - k,
    {
        let step: usize = 3 * (k as usize) + 1;
        if total - (f + 8) <= step {
            return false;
        }
        if data[f + 8 + step] / 16 == 3 {
            assert(data@[f + 9 + 3 * (k as int)] / 16 == 3);
            return true;
        }
        k = k + 1;
    }
    false
}

fn says_single_scan(data: &[u8], from: usize) -> (r: bool)
    ensures
        r == has_single_scan(data@, from as int),
{
    let mut i: usize = from;
    while i < data.len() && data.len() - i >= 5
        invariant
            from <= i,
            forall|k: int| from <= k < i ==> !#[trigger] single_scan_at(data@, k),
        decreases data@.len() - i,
    {
        if data[i] == 0xff && data[i + 1] == 0xda && data[i + 4] == 1 {
            assert(single_scan_at(data@, i as int));
            return true;
        }
        i = i + 1;
    }
    false
}

/// Check that the blocks of each scan can be counted.
fn check_countable(data: &[u8]) -> (r: bool)
    ensures
        r == is_countable(data@),
{
    match find_scan(data) {
        None => true,
        Some((f, p)) => {
            let total: usize = data.len();
            assert(f + 8 <= total);
            let height: u16 = read16(data, f + 3, false);
            let width: u16 = read16(data, f + 5, false);
            !(data[f - 1] != LOSSLESS_MARKER && (height > MAX_BLOCKED || (width > MAX_BLOCKED
                && says_thirds(data, f))) && says_single_scan(data, p - 2))
        },
    }
}

/// The width, the height and the pixel format that `jpeg_decoder::Decoder::info` gives of a
/// JPEG that `jpeg_decoder::Decoder::decode` can decode: what its frame header says. `None`
/// of data that it cannot decode.
pub uninterp spec fn jpeg_frame(data: Seq<u8>) -> Option<(u16, u16, JpegFormat)>;

/// Decodes a JPEG by `jpeg_decoder::Decoder::decode` and describes it by
/// `jpeg_decoder::Decoder::info`. Data that does not begin with a start-of-image marker
/// is refused, and the size and the format of an image depend on the data alone, as does
/// whether there is one, where the machine can address the pixels. An image has a row and a
/// column at least and holds all its pixels; a lossless one whose samples are not of eight
/// bits can hold more bytes than these. The decoder counts the pixels of the blocks of a
/// single component in 16 bits, so these must not reach beyond. Pixels are not said more of:
/// they depend on the instruction set of the machine, whose fast transforms round
/// differently. Nor are the texts of errors, which hold those of the standard library.
#[verifier::external_body]
fn decode_jpeg(data: &[u8]) -> (r: Result<JpegImage, JpegFailure>)
    requires
        is_countable(data@),
    ensures
        !starts_with(data@, SOI_MARKER@) ==> r is Err,
        r matches Ok(i) ==> jpeg_frame(data@) == Some((i.width, i.height, i.format)),
        r matches Ok(i) ==> 0 < i.width && 0 < i.height && i.width * i.height * pixel_len(i.format)
            <= i.pixels@.len(),
        usize::MAX > u32::MAX && r is Err ==> jpeg_frame(data@) is None,
{
    let mut decoder = jpeg_decoder::Decoder::new(std::io::Cursor::new(data));
    let pixels = decoder.decode().map_err(|e| JpegFailure::Decode(e.to_string()))?;
    let info = decoder.info().ok_or(JpegFailure::NoInfo)?;
    let format = match info.pixel_format {
        jpeg_decoder::PixelFormat::L8 => JpegFormat::Gray8,
        jpeg_decoder::PixelFormat::L16 => JpegFormat::Gray16,
        jpeg_decoder::PixelFormat::RGB24 => JpegFormat::Rgb,
        jpeg_decoder::PixelFormat::CMYK32 => JpegFormat::Cmyk,
    };
    Ok(JpegImage { pixels, width: info.width, height: info.height, format })
}

/// Whether `o` may come of these data: data whose blocks cannot be counted are refused, and
/// an image comes exactly of what the decoder can decode, with the size and the format that
/// the frame header says and all its pixels.
pub open spec fn may_decode_to(data: Seq<u8>, o: JpegOutcome) -> bool {
    if !is_countable(data) {
        o == JpegOutcome::Failed("image has too many rows or columns"@)
    } else {
        match o {
            JpegOutcome::Image { pixels, width, height, format } => starts_with(data, SOI_MARKER@)
                && jpeg_frame(data) == Some((width, height, format)) && 0 < width && 0 < height
                && width * height * pixel_len(format) <= pixels.len(),
            _ => usize::MAX > u32::MAX ==> jpeg_frame(data) is None,
        }
    }
}

/// Whether an image is owed of these data: the machine can address its pixels, its blocks can
/// be counted, and the decoder can decode them.
pub open spec fn owes_image(data: Seq<u8>) -> bool {
    usize::MAX > u32::MAX && is_countable(data) && jpeg_frame(data) is Some
}

/// What may come of data of which an image is owed has the pixels of the image in RGB and in
/// gray.
proof fn lemma_owed(data: Seq<u8>, o: JpegOutcome)
    requires
        may_decode_to(data, o),
        owes_image(data),
    ensures
        rgb_of(o) is Ok,
        gray_of(o) is Ok,
{
    if let JpegOutcome::Image { pixels, width, height, format } = o {
        let area = width * height;
        let n = pixel_len(format);
        assert(width * height * 3 == 3 * area);
        assert(width * height * 1 == area);
        assert(as_rgb(pixels, format).len() >= 3 * area && as_gray(pixels, format).len() >= area) by (
            nonlinear_arith)
            requires
                0 <= area,
                area * n <= pixels.len(),
                match format {
                    JpegFormat::Gray8 => n == 1 && as_rgb(pixels, format).len() == 3 * pixels.len()
                        && as_gray(pixels, format).len() == pixels.len(),
                    JpegFormat::Gray16 => n == 2 && as_rgb(pixels, format).len() == 3 * pixels.len()
                        && as_gray(pixels, format).len() == pixels.len(),
                    JpegFormat::Rgb => n == 3 && as_rgb(pixels, format).len() == pixels.len()
                        && as_gray(pixels, format).len() == pixels.len() / 3,
                    JpegFormat::Cmyk => n == 4 && as_rgb(pixels, format).len() == 3 * (pixels.len()
                        / 4) && as_gray(pixels, format).len() == pixels.len() / 4,
                },
        ;
    }
}

/// The width and the height of a JPEG that can be decoded.
pub open spec fn jpeg_size(data: Seq<u8>) -> Option<(u32, u32)> {
    match jpeg_frame(data) {
        Some((width, height, _)) => Some((width as u32, height as u32)),
        None => None,
    }
}

fn decode_countable(data: &[u8]) -> (r: Result<JpegImage, JpegFailure>)
    ensures
        may_decode_to(data@, jpeg_outcome(r)),
{
    if !check_countable(data) {
        return Err(JpegFailure::Decode("image has too many rows or columns".to_string()));
    }
    decode_jpeg(data)
}

/// A colour of an ink `c` under black `k`.
pub open spec fn ink(c: u8, k: u8) -> int {
    (255 - c) * (255 - k) / 255
}

fn mix_ink(c: u8, k: u8) -> (r: u8)
    ensures
        r == ink(c, k),
{
    assert(0 <= (255 - c) * (255 - k) <= 255 * 255) by (nonlinear_arith);
    ((255 - c as u16) * (255 - k as u16) / 255) as u8
}

/// CMYK pixels as RGB; bytes of an incomplete pixel do not count.
pub open spec fn cmyk_to_rgb(p: Seq<u8>) -> Seq<u8> {
    Seq::new(
        3 * (p.len() / 4),
        |i: int| ink(p[4 * (i / 3) + i % 3], p[4 * (i / 3) + 3]) as u8,
    )
}

/// The brightness of a colour.
pub open spec fn luminance(r: int, g: int, b: int) -> int {
    (r * 77 + g * 150 + b * 29) / 256
}

fn brightness(r: u8, g: u8, b: u8) -> (v: u8)
    ensures
        v == luminance(r as int, g as int, b as int),
{
    ((r as u32 * 77 + g as u32 * 150 + b as u32 * 29) / 256) as u8
}

/// RGB pixels as brightness; bytes of an incomplete pixel do not count.
pub open spec fn rgb_to_gray(p: Seq<u8>) -> Seq<u8> {
    Seq::new(
        p.len() / 3,
        |i: int| luminance(p[3 * i] as int, p[3 * i + 1] as int, p[3 * i + 2] as int) as u8,
    )
}

/// CMYK pixels as brightness; bytes of an incomplete pixel do not count.
pub open spec fn cmyk_to_gray(p: Seq<u8>) -> Seq<u8> {
    Seq::new(
        p.len() / 4,
        |i: int|
            luminance(
                ink(p[4 * i], p[4 * i + 3]),
                ink(p[4 * i + 1], p[4 * i + 3]),
                ink(p[4 * i + 2], p[4 * i + 3]),
            ) as u8,
    )
}

fn convert_cmyk_to_rgb(p: &Vec<u8>) -> (r: Vec<u8>)
    ensures
        r@ == cmyk_to_rgb(p@),
{
    let n: usize = p.len() / 4;
    let mut out: Vec<u8> = Vec::new();
    let mut i: usize = 0;
    while i < n
        invariant
            i <= n,
            n == p.len() / 4,
            out@ == cmyk_to_rgb(p@).take(3 * i),
        decreases n - i,
    {
        let k: u8 = p[4 * i + 3];
        out.push(mix_ink(p[4 * i], k));
        out.push(mix_ink(p[4 * i + 1], k));
        out.push(mix_ink(p[4 * i + 2], k));
        i = i + 1;
        assert(out@ =~= cmyk_to_rgb(p@).take(3 * i));
    }
    assert(out@ =~= cmyk_to_rgb(p@));
    out
}

fn convert_rgb_to_gray(p: &Vec<u8>) -> (r: Vec<u8>)
    ensures
        r@ == rgb_to_gray(p@),
{
    let n: usize = p.len() / 3;
    let mut out: Vec<u8> = Vec::new();
    let mut i: usize = 0;
    while i < n
        invariant
            i <= n,
            n == p.len() / 3,
            out@ == rgb_to_gray(p@).take(i as int),
        decreases n - i,
    {
        out.push(brightness(p[3 * i], p[3 * i + 1], p[3 * i + 2]));
        i = i + 1;
        assert(out@ =~= rgb_to_gray(p@).take(i as int));
    }
    assert(out@ =~= rgb_to_gray(p@));
    out
}

fn convert_cmyk_to_gray(p: &Vec<u8>) -> (r: Vec<u8>)
    ensures
        r@ == cmyk_to_gray(p@),
{
    let n: usize = p.len() / 4;
    let mut out: Vec<u8> = Vec::new();
    let mut i: usize = 0;
    while i < n
        invariant
            i <= n,
            n == p.len() / 4,
            out@ == cmyk_to_gray(p@).take(i as int),
        decreases n - i,
    {
        let k: u8 = p[4 * i + 3];
        out.push(brightness(mix_ink(p[4 * i], k), mix_ink(p[4 * i + 1], k), mix_ink(p[4 * i + 2], k)));
        i = i + 1;
        assert(out@ =~= cmyk_to_gray(p@).take(i as int));
    }
    assert(out@ =~= cmyk_to_gray(p@));
    out
}

/// The pixels of a decoded JPEG as RGB.
pub open spec fn as_rgb(pixels: Seq<u8>, format: JpegFormat) -> Seq<u8> {
    match format {
        JpegFormat::Rgb => pixels,
        JpegFormat::Gray8 => tripled(pixels),
        JpegFormat::Gray16 => tripled(pixels),
        JpegFormat::Cmyk => cmyk_to_rgb(pixels),
    }
}

/// The pixels of a decoded JPEG as brightness.
pub open spec fn as_gray(pixels: Seq<u8>, format: JpegFormat) -> Seq<u8> {
    match format {
        JpegFormat::Gray8 => pixels,
        JpegFormat::Gray16 => pixels,
        JpegFormat::Rgb => rgb_to_gray(pixels),
        JpegFormat::Cmyk => cmyk_to_gray(pixels),
    }
}

/// That a decoder gave fewer pixels than the image has.
pub open spec fn short_text(len: int, expected: int, width: u16, height: u16, tail: Seq<char>) -> Seq<char> {
    "decoded "@ + decimal_text(len) + " bytes, expected "@ + decimal_text(expected) + " ("@
        + decimal_text(width as int) + "x"@ + decimal_text(height as int) + tail
}

fn short(len: usize, expected: u64, width: u16, height: u16, tail: &str) -> (r: String)
    ensures
        r@ == short_text(len as int, expected as int, width, height, tail@),
{
    let a: String = join(join("decoded ", decimal(len as u64).as_str()).as_str(), " bytes, expected ");
    let b: String = join(join(a.as_str(), decimal(expected).as_str()).as_str(), " (");
    let c: String = join(join(b.as_str(), decimal(width as u64).as_str()).as_str(), "x");
    join(join(c.as_str(), decimal(height as u64).as_str()).as_str(), tail)
}

/// The first `channels` bytes of each pixel of an image, or that there are too few.
pub open spec fn image_pixels(
    pixels: Seq<u8>,
    width: u16,
    height: u16,
    channels: int,
    tail: Seq<char>,
) -> Result<(Seq<u8>, u32, u32), Seq<char>> {
    let expected = width * height * channels;
    if pixels.len() < expected {
        Err(short_text(pixels.len() as int, expected, width, height, tail))
    } else {
        Ok((pixels.take(expected), width as u32, height as u32))
    }
}

/// The RGB pixels of what the decoder came to, with width and height, or why there are
/// none.
pub open spec fn rgb_of(o: JpegOutcome) -> Result<(Seq<u8>, u32, u32), Seq<char>> {
    match o {
        JpegOutcome::Failed(e) => Err("JPEG decode error: "@ + e),
        JpegOutcome::NoInfo => Err("failed to read JPEG info"@),
        JpegOutcome::Image { pixels, width, height, format } => image_pixels(
            as_rgb(pixels, format),
            width,
            height,
            3,
            "x3)"@,
        ),
    }
}

/// The grayscale pixels of what the decoder came to, with width and height, or why
/// there are none.
pub open spec fn gray_of(o: JpegOutcome) -> Result<(Seq<u8>, u32, u32), Seq<char>> {
    match o {
        JpegOutcome::Failed(e) => Err("JPEG decode error: "@ + e),
        JpegOutcome::NoInfo => Err("failed to read JPEG info"@),
        JpegOutcome::Image { pixels, width, height, format } => image_pixels(
            as_gray(pixels, format),
            width,
            height,
            1,
            ")"@,
        ),
    }
}

/// What a result with pixels says.
pub open spec fn told_pixels(r: Result<(Vec<u8>, u32, u32), String>) -> Result<
    (Seq<u8>, u32, u32),
    Seq<char>,
> {
    match r {
        Ok((p, w, h)) => Ok((p@, w, h)),
        Err(e) => Err(e@),
    }
}

fn take_pixels(pixels: Vec<u8>, width: u16, height: u16, channels: u8, tail: &str) -> (r: Result<
    (Vec<u8>, u32, u32),
    String,
>)
    requires
        channels <= 3,
    ensures
        told_pixels(r) == image_pixels(pixels@, width, height, channels as int, tail@),
{
    assert(width * height <= 0xffff * 0xffff) by (nonlinear_arith)
        requires
            width <= 0xffff,
            height <= 0xffff,
    ;
    assert(width * height * channels <= 0xffff * 0xffff * 3) by (nonlinear_arith)
        requires
            width * height <= 0xffff * 0xffff,
            channels <= 3,
    ;
    let expected: u64 = width as u64 * height as u64 * channels as u64;
    if (pixels.len() as u64) < expected {
        return Err(short(pixels.len(), expected, width, height, tail));
    }
    let out: Vec<u8> = copy_range(pixels.as_slice(), 0, expected as usize);
    assert(out@ =~= pixels@.take(expected as int));
    Ok((out, width as u32, height as u32))
}

fn failure(e: JpegFailure) -> (r: String)
    ensures
        Err::<(Seq<u8>, u32, u32), Seq<char>>(r@) == rgb_of(jpeg_outcome(Err(e))),
        Err::<(Seq<u8>, u32, u32), Seq<char>>(r@) == gray_of(jpeg_outcome(Err(e))),
{
    match e {
        JpegFailure::Decode(text) => join("JPEG decode error: ", text.as_str()),
        JpegFailure::NoInfo => "failed to read JPEG info".to_string(),
    }
}

/// Take the RGB pixels, three bytes each, out of what the decoder came to.
pub fn jpeg_to_rgb(outcome: Result<JpegImage, JpegFailure>) -> (r: Result<(Vec<u8>, u32, u32), String>)
    ensures
        told_pixels(r) == rgb_of(jpeg_outcome(outcome)),
{
    match outcome {
        Err(e) => Err(failure(e)),
        Ok(i) => {
            let rgb: Vec<u8> = match i.format {
                JpegFormat::Rgb => i.pixels,
                JpegFormat::Gray8 => gray_to_rgb(i.pixels.as_slice()),
                JpegFormat::Gray16 => gray_to_rgb(i.pixels.as_slice()),
                JpegFormat::Cmyk => convert_cmyk_to_rgb(&i.pixels),
            };
            take_pixels(rgb, i.width, i.height, 3, "x3)")
        },
    }
}

/// Take the grayscale pixels, one byte each, out of what the decoder came to.
pub fn jpeg_to_gray(outcome: Result<JpegImage, JpegFailure>) -> (r: Result<
    (Vec<u8>, u32, u32),
    String,
>)
    ensures
        told_pixels(r) == gray_of(jpeg_outcome(outcome)),
{
    match outcome {
        Err(e) => Err(failure(e)),
        Ok(i) => {
            let gray: Vec<u8> = match i.format {
                JpegFormat::Gray8 => i.pixels,
                JpegFormat::Gray16 => i.pixels,
                JpegFormat::Rgb => convert_rgb_to_gray(&i.pixels),
                JpegFormat::Cmyk => convert_cmyk_to_gray(&i.pixels),
            };
            take_pixels(gray, i.width, i.height, 1, ")")
        },
    }
}

/// Decode a JPEG to RGB pixels, three bytes each, row by row without padding; also
/// width and height.
pub fn decode_jpeg_to_rgb(jpeg_data: &[u8]) -> (r: Result<(Vec<u8>, u32, u32), String>)
    ensures
        exists|o: JpegOutcome|
            #![trigger rgb_of(o)]
            told_pixels(r) == rgb_of(o) && may_decode_to(jpeg_data@, o),
        r matches Ok(p) ==> p.0@.len() == p.1 * p.2 * 3 && jpeg_size(jpeg_data@) == Some((p.1, p.2)),
        !starts_with(jpeg_data@, SOI_MARKER@) ==> r is Err,
        owes_image(jpeg_data@) ==> r is Ok,
{
    let outcome: Result<JpegImage, JpegFailure> = decode_countable(jpeg_data);
    let ghost o = jpeg_outcome(outcome);
    let r: Result<(Vec<u8>, u32, u32), String> = jpeg_to_rgb(outcome);
    assert(told_pixels(r) == rgb_of(o));
    proof {
        if owes_image(jpeg_data@) {
            lemma_owed(jpeg_data@, o);
        }
    }
    r
}

/// Decode a JPEG to grayscale pixels, one byte each, row by row without padding; also
/// width and height.
pub fn decode_jpeg_to_gray(jpeg_data: &[u8]) -> (r: Result<(Vec<u8>, u32, u32), String>)
    ensures
        exists|o: JpegOutcome|
            #![trigger gray_of(o)]
            told_pixels(r) == gray_of(o) && may_decode_to(jpeg_data@, o),
        r matches Ok(p) ==> p.0@.len() == p.1 * p.2 && jpeg_size(jpeg_data@) == Some((p.1, p.2)),
        !starts_with(jpeg_data@, SOI_MARKER@) ==> r is Err,
        owes_image(jpeg_data@) ==> r is Ok,
{
    let outcome: Result<JpegImage, JpegFailure> = decode_countable(jpeg_data);
    let ghost o = jpeg_outcome(outcome);
    let r: Result<(Vec<u8>, u32, u32), String> = jpeg_to_gray(outcome);
    assert(told_pixels(r) == gray_of(o));
    proof {
        if owes_image(jpeg_data@) {
            lemma_owed(jpeg_data@, o);
        }
    }
    assert(r matches Ok(p) ==> p.1 * p.2 * 1 == p.1 * p.2) by (nonlinear_arith);
    r
}

} // verus!
