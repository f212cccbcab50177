use crate::encoder::{
    batch_encoder, chroma_len, colour_params, first_params, neutral, tile_encoder,
};
use crate::frame_laws::lemma_div_row;
use crate::hevc::halved;
use crate::jpeg_decode::{JpegFormat, JpegOutcome, gray_of, rgb_of};
use crate::seqs::flat;
use crate::text::decimal_text;
use vstd::prelude::*;

verus! {

// ---------------------------------------------------------------------------
// Planes
// ---------------------------------------------------------------------------

/// A chroma sample of 4:2:0 is the mean, rounded down, of the samples at its even column and row
/// and at the next ones; at the right and at the bottom edge of an odd size the last column and
/// row count twice.
pub proof fn chroma_is_the_mean_of_its_samples(plane: Seq<u8>, width: int, height: int, x: int, y: int)
    requires
        0 <= 2 * x < width,
        0 <= 2 * y < height,
        plane.len() >= width * height,
    ensures
        ({
            let small = halved(plane, width, height);
            let cols = (width + 1) / 2;
            let right = if 2 * x + 1 < width {
                2 * x + 1
            } else {
                2 * x
            };
            let below = if 2 * y + 1 < height {
                2 * y + 1
            } else {
                2 * y
            };
            let sum = plane[2 * y * width + 2 * x] + plane[2 * y * width + right] + plane[below * width + 2
                * x] + plane[below * width + right];
            &&& small.len() == cols * ((height + 1) / 2)
            &&& 4 * small[y * cols + x] <= sum < 4 * small[y * cols + x] + 4
        }),
{
    let cols = (width + 1) / 2;
    let rows = (height + 1) / 2;
    lemma_div_row(y, cols, x);
    assert(0 <= y * cols + x < cols * rows && cols * rows >= 0) by (nonlinear_arith)
        requires
            0 <= x < cols,
            0 <= y < rows,
    ;
    assert((2 * y) * width == 2 * y * width);
}

/// The picture of a gray tile of 512 pixels a side is its pixels, then two planes of 256 samples
/// a side that are neutral. The pictures of tiles follow each other in their order.
#[verifier::rlimit(60)]
pub proof fn gray_tiles_are_packed_in_order(tiles: Seq<Seq<u8>>, k: int, i: int)
    requires
        forall|j: int| 0 <= j < tiles.len() ==> (#[trigger] tiles[j]).len() == 262_144,
        0 <= k < tiles.len(),
        0 <= i < 393_216,
    ensures
        flat(tiles, crate::gain_tiles::gray_planes()).len() == tiles.len() * 393_216,
        flat(tiles, crate::gain_tiles::gray_planes())[k * 393_216 + i] == if i < 262_144 {
            tiles[k][i]
        } else {
            128
        },
    decreases tiles.len(),
{
    let rest = tiles.drop_last();
    assert(forall|j: int| 0 <= j < rest.len() ==> rest[j] == #[trigger] tiles[j]);
    assert(tiles.last() == tiles[tiles.len() - 1]);
    if rest.len() > 0 {
        if k < rest.len() {
            gray_tiles_are_packed_in_order(rest, k, i);
        } else {
            gray_tiles_are_packed_in_order(rest, 0, 0);
        }
    } else {
        assert(rest =~= Seq::empty());
        assert(flat(rest, crate::gain_tiles::gray_planes()).len() == 0);
    }
    let f = crate::gain_tiles::gray_planes();
    assert(flat(tiles, f) == flat(rest, f) + f(tiles.last()));
    assert(f(tiles.last()).len() == 393_216);
}

// ---------------------------------------------------------------------------
// Colours
// ---------------------------------------------------------------------------

/// How much light a colour of an ink leaves under black, in 255ths of 255.
pub open spec fn light(pixels: Seq<u8>, k: int, c: int) -> int {
    (255 - pixels[4 * k + c]) * (255 - pixels[4 * k + 3])
}

/// A decoded image that has all its bytes is given in RGB, with its size: RGB as it is, gray three
/// times, and of CMYK the light that ink and black leave, rounded down. Pixel `k` is the `k`-th
/// that was decoded.
pub proof fn decoded_colours_stay(pixels: Seq<u8>, width: u16, height: u16, format: JpegFormat, k: int, c: int)
    requires
        0 <= k < width * height,
        0 <= c < 3,
        pixels.len() == width * height * (match format {
            JpegFormat::Rgb => 3int,
            JpegFormat::Cmyk => 4,
            JpegFormat::Gray8 => 1,
            JpegFormat::Gray16 => 1,
        }),
    ensures
        rgb_of(JpegOutcome::Image { pixels, width, height, format }) matches Ok(r) && r.1 == width && r.2
            == height && r.0.len() == 3 * (width * height) && match format {
            JpegFormat::Rgb => r.0[3 * k + c] == pixels[3 * k + c],
            JpegFormat::Gray8 => r.0[3 * k + c] == pixels[k],
            JpegFormat::Gray16 => r.0[3 * k + c] == pixels[k],
            JpegFormat::Cmyk => 255 * r.0[3 * k + c] <= light(pixels, k, c) < 255 * r.0[3 * k + c] + 255,
        },
{
    let n = width * height;
    assert(width * height * 3 == 3 * n && width * height * 4 == 4 * n && width * height * 1 == n)
        by (nonlinear_arith)
        requires
            n == width * height,
    ;
    assert((3 * k + c) / 3 == k && (3 * k + c) % 3 == c);
    match format {
        JpegFormat::Cmyk => {
            assert(0 <= (255 - pixels[4 * k + c]) * (255 - pixels[4 * k + 3]) <= 255 * 255)
                by (nonlinear_arith);
        },
        _ => {},
    }
}

/// The brightness of a pixel is 77 parts of red, 150 of green and 29 of blue of 256, rounded down.
/// Gray is its own brightness.
pub proof fn brightness_is_weighed(pixels: Seq<u8>, width: u16, height: u16, format: JpegFormat, k: int)
    requires
        0 <= k < width * height,
        pixels.len() == width * height * (match format {
            JpegFormat::Rgb => 3int,
            JpegFormat::Cmyk => 4,
            JpegFormat::Gray8 => 1,
            JpegFormat::Gray16 => 1,
        }),
    ensures
        gray_of(JpegOutcome::Image { pixels, width, height, format }) matches Ok(r) && r.1 == width && r.2
            == height && r.0.len() == width * height && match format {
            JpegFormat::Rgb => 256 * r.0[k] <= 77 * pixels[3 * k] + 150 * pixels[3 * k + 1] + 29 * pixels[3
                * k + 2] < 256 * r.0[k] + 256,
            JpegFormat::Gray8 => r.0[k] == pixels[k],
            JpegFormat::Gray16 => r.0[k] == pixels[k],
            JpegFormat::Cmyk => 256 * r.0[k] <= 77 * (light(pixels, k, 0) / 255) + 150 * (light(pixels, k, 1)
                / 255) + 29 * (light(pixels, k, 2) / 255) < 256 * r.0[k] + 256,
        },
{
    let n = width * height;
    assert(width * height * 3 == 3 * n && width * height * 4 == 4 * n && width * height * 1 == n)
        by (nonlinear_arith)
        requires
            n == width * height,
    ;
    match format {
        JpegFormat::Cmyk => {
            lemma_light(pixels, k, 0);
            lemma_light(pixels, k, 1);
            lemma_light(pixels, k, 2);
        },
        _ => {},
    }
}

proof fn lemma_light(pixels: Seq<u8>, k: int, c: int)
    ensures
        0 <= light(pixels, k, c) <= 255 * 255,
        0 <= light(pixels, k, c) / 255 <= 255,
{
    assert(0 <= (255 - pixels[4 * k + c]) * (255 - pixels[4 * k + 3]) <= 255 * 255) by (nonlinear_arith);
}

/// A failed decoder and missing bytes are told.
pub proof fn missing_pixels_are_told(pixels: Seq<u8>, width: u16, height: u16, e: Seq<char>)
    ensures
        rgb_of(JpegOutcome::Failed(e)) == Err::<(Seq<u8>, u32, u32), Seq<char>>("JPEG decode error: "@ + e),
        gray_of(JpegOutcome::Failed(e)) == Err::<(Seq<u8>, u32, u32), Seq<char>>("JPEG decode error: "@ + e),
        rgb_of(JpegOutcome::NoInfo) == Err::<(Seq<u8>, u32, u32), Seq<char>>("failed to read JPEG info"@),
        gray_of(JpegOutcome::NoInfo) == Err::<(Seq<u8>, u32, u32), Seq<char>>("failed to read JPEG info"@),
        pixels.len() < width * height * 3 ==> rgb_of(
            JpegOutcome::Image { pixels, width, height, format: JpegFormat::Rgb },
        ) == Err::<(Seq<u8>, u32, u32), Seq<char>>(
            "decoded "@ + decimal_text(pixels.len() as int) + " bytes, expected "@ + decimal_text(
                width * height * 3,
            ) + " ("@ + decimal_text(width as int) + "x"@ + decimal_text(height as int) + "x3)"@,
        ),
        pixels.len() < width * height ==> gray_of(
            JpegOutcome::Image { pixels, width, height, format: JpegFormat::Gray8 },
        ) == Err::<(Seq<u8>, u32, u32), Seq<char>>(
            "decoded "@ + decimal_text(pixels.len() as int) + " bytes, expected "@ + decimal_text(
                width * height,
            ) + " ("@ + decimal_text(width as int) + "x"@ + decimal_text(height as int) + ")"@,
        ),
{
    assert(width * height * 1 == width * height) by (nonlinear_arith);
}

// ---------------------------------------------------------------------------
// Encoders
// ---------------------------------------------------------------------------

/// The parameters set a name to a value, once.
pub open spec fn sets_to(p: Seq<(Seq<char>, Seq<char>)>, name: Seq<char>, value: Seq<char>) -> bool {
    exists|i: int| 0 <= i < p.len() && #[trigger] p[i] == (name, value)
}

/// What every encoder is told of its one frame: its rate, that it is a keyframe at full range, and
/// the quality, which is finer for colour.
pub open spec fn frame_is_told(p: Seq<(Seq<char>, Seq<char>)>, rgb: bool, csp: Seq<char>, headers: Seq<char>) -> bool {
    &&& p.len() == 6
    &&& sets_to(p, "input-csp"@, csp)
    &&& sets_to(p, "fps"@, "1"@)
    &&& rgb ==> sets_to(p, "crf"@, "14"@)
    &&& !rgb ==> sets_to(p, "crf"@, "18"@)
    &&& sets_to(p, "range"@, "full"@)
    &&& sets_to(p, "keyint"@, "1"@)
    &&& sets_to(p, "repeat-headers"@, headers)
}

/// What an encoder of colour is told of it.
pub open spec fn colour_is_told(p: Seq<(Seq<char>, Seq<char>)>, matrix: Seq<char>, primaries: Seq<char>, transfer: Seq<
    char,
>) -> bool {
    &&& sets_to(p, "colormatrix"@, matrix)
    &&& sets_to(p, "colorprim"@, primaries)
    &&& sets_to(p, "transfer"@, transfer)
    &&& sets_to(p, "psy-rd"@, "0"@)
    &&& sets_to(p, "aq-mode"@, "1"@)
}

proof fn lemma_frame_told(csp: Seq<char>, rgb: bool, headers: Seq<char>)
    ensures
        frame_is_told(first_params(csp, rgb, headers), rgb, csp, headers),
{
    let p = first_params(csp, rgb, headers);
    assert(p[0] == ("input-csp"@, csp));
    assert(p[1] == ("fps"@, "1"@));
    assert(p[2].0 == "crf"@);
    assert(p[3] == ("range"@, "full"@));
    assert(p[4] == ("repeat-headers"@, headers));
    assert(p[5] == ("keyint"@, "1"@));
}

proof fn lemma_colour_told(before: Seq<(Seq<char>, Seq<char>)>, oppo: bool, after: Seq<(Seq<char>, Seq<char>)>)
    ensures
        oppo ==> colour_is_told(
            before + colour_params(oppo) + after,
            "smpte170m"@,
            "bt470bg"@,
            "iec61966-2-1"@,
        ),
        !oppo ==> colour_is_told(before + colour_params(oppo) + after, "bt709"@, "bt709"@, "bt709"@),
{
    let c = colour_params(oppo);
    let p = before + c + after;
    let n = before.len() as int;
    assert(p[n] == c[0] && p[n + 1] == c[1] && p[n + 2] == c[2] && p[n + 3] == c[3] && p[n + 4] == c[4]);
}

/// The tiles of a batch are encoded in the sampling that they have, 4:2:0 where that is asked for,
/// with parameter sets once, without frames to look ahead to. Colour tiles are told BT.601 for OPPO
/// and else BT.709.
pub proof fn batches_are_told_their_sampling(rgb: bool, use_420: bool, oppo: bool)
    ensures
        ({
            let s = batch_encoder(rgb, use_420, oppo);
            &&& use_420 ==> s.profile == "mainstillpicture"@ && frame_is_told(s.before_profile, rgb, "i420"@, "0"@)
            &&& !use_420 ==> s.profile == "main444-8"@
            &&& !use_420 && rgb ==> frame_is_told(s.before_profile, rgb, "i444"@, "0"@)
            &&& !use_420 && !rgb ==> frame_is_told(s.before_profile, rgb, "i400"@, "0"@)
            &&& sets_to(s.after_profile, "bframes"@, "0"@)
            &&& sets_to(s.after_profile, "rc-lookahead"@, "0"@)
            &&& sets_to(s.after_profile, "no-open-gop"@, "0"@)
            &&& !rgb ==> s.preset == "ultrafast"@ && s.after_profile.len() == 3
            &&& rgb && oppo ==> s.preset == "fast"@ && s.after_profile.len() == 8 && colour_is_told(
                s.after_profile,
                "smpte170m"@,
                "bt470bg"@,
                "iec61966-2-1"@,
            )
            &&& rgb && !oppo ==> s.preset == "medium"@ && s.after_profile.len() == 8 && colour_is_told(
                s.after_profile,
                "bt709"@,
                "bt709"@,
                "bt709"@,
            )
        }),
{
    let s = batch_encoder(rgb, use_420, oppo);
    let csp = if use_420 {
        "i420"@
    } else if rgb {
        "i444"@
    } else {
        "i400"@
    };
    lemma_frame_told(csp, rgb, "0"@);
    let head = seq![("bframes"@, "0"@), ("rc-lookahead"@, "0"@), ("no-open-gop"@, "0"@)];
    assert(s.after_profile[0] == ("bframes"@, "0"@));
    assert(s.after_profile[1] == ("rc-lookahead"@, "0"@));
    assert(s.after_profile[2] == ("no-open-gop"@, "0"@));
    if rgb {
        lemma_colour_told(head, oppo, Seq::empty());
        assert(s.after_profile =~= head + colour_params(oppo) + Seq::<(Seq<char>, Seq<char>)>::empty());
    }
}

/// A tile of its own is encoded by one thread and repeats its parameter sets; gray ones have chroma
/// planes too.
pub proof fn tiles_are_told_their_sampling(rgb: bool, use_420: bool)
    ensures
        ({
            let s = tile_encoder(rgb, use_420);
            &&& use_420 ==> s.profile == "mainstillpicture"@ && frame_is_told(s.before_profile, rgb, "i420"@, "1"@)
            &&& !use_420 ==> s.profile == "main444-8"@ && frame_is_told(s.before_profile, rgb, "i444"@, "1"@)
            &&& sets_to(s.after_profile, "frame-threads"@, "1"@)
            &&& sets_to(s.after_profile, "pools"@, "1"@)
            &&& !rgb ==> s.preset == "ultrafast"@ && s.after_profile.len() == 2
            &&& rgb ==> s.preset == "medium"@ && s.after_profile.len() == 7 && colour_is_told(
                s.after_profile,
                "bt709"@,
                "bt709"@,
                "bt709"@,
            )
        }),
{
    let s = tile_encoder(rgb, use_420);
    lemma_frame_told(
        if use_420 {
            "i420"@
        } else {
            "i444"@
        },
        rgb,
        "1"@,
    );
    let last = seq![("frame-threads"@, "1"@), ("pools"@, "1"@)];
    if rgb {
        lemma_colour_told(Seq::empty(), false, last);
        assert(s.after_profile =~= Seq::<(Seq<char>, Seq<char>)>::empty() + colour_params(false) + last);
        assert(s.after_profile[5] == ("frame-threads"@, "1"@));
        assert(s.after_profile[6] == ("pools"@, "1"@));
    } else {
        assert(s.after_profile[0] == ("frame-threads"@, "1"@));
        assert(s.after_profile[1] == ("pools"@, "1"@));
    }
}

/// A gray picture in 4:2:0 has chroma rows of half its width, rounded up, and as many of them as half
/// its height, rounded up; else chroma has its size. All chroma samples are neutral.
pub proof fn neutral_chroma_has_its_size(n: int, i: int)
    requires
        0 <= i < n,
    ensures
        n <= 2 * chroma_len(n, true) <= n + 1,
        chroma_len(n, false) == n,
        neutral(n).len() == n,
        neutral(n)[i] == 128,
{
}

} // verus!
