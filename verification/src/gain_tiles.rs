//! Gain-map tiles: from a source file and a gain map to tiles that can be encoded, and
//! from encoded tiles to an output file.

use crate::assemble::{
    GainMap, GainView, ParsedSource, SourceView, assemble_iso_output, iso_output,
    parse_source_structure, primary_is_presentation_oriented, source_structure, stored_as_presented,
};
use crate::container::OppoCameraTail;
use crate::exif::{ExifOrientation, OppoCompat, heif_orientation, read_heif_exif_orientation};
use crate::fourcc::META;
use crate::gainmap::{align_up, aligned, gains_of, mask_fits, try_apply_gains};
use crate::hevc::{all_packable, first_hvcc, package_tiles, tile_payloads};
use crate::isobmff::{BoxHeader, boxes_in, find_in, first_box, parse_boxes};
use crate::jpeg_decode::{
    JpegOutcome, decode_jpeg_to_rgb, may_decode_to, owes_image, rgb_of, told_pixels,
};
use crate::raster::{
    gain_map_tiles, gray_tile_420, gray_to_rgb, is_tile_of, orient_error, orient_gainmap_pixels,
    presents, push_gray_tile_420, tile_count, tile_error, tile_grid_dims, tripled,
};
use crate::seqs::{flat, lemma_flat_take, told_some, views};
use crate::text::join;
use vstd::prelude::*;

verus! {

/// A gain map in tiles that can be encoded.
pub struct PreparedTiles {
    pub orientation: ExifOrientation,
    pub gain_width: u32,
    pub gain_height: u32,
    pub cols: u32,
    pub rows: u32,
    /// Whether the gain map is RGB (OPPO, or UHDR) or gray (clean LHDR).
    pub oppo_rgb: bool,
    /// Square tiles, row by row, with one or three bytes for each pixel.
    pub tiles: Vec<Vec<u8>>,
}

impl PreparedTiles {
    /// How many bytes a pixel has.
    pub open spec fn pixel_len(self) -> int {
        if self.oppo_rgb {
            3
        } else {
            1
        }
    }

    /// How many bytes a pixel has.
    pub fn pixel_bytes(&self) -> (r: usize)
        ensures
            r == self.pixel_len(),
    {
        if self.oppo_rgb {
            3
        } else {
            1
        }
    }
}

/// The structure of a source file and the orientation that its Exif data gives, or why
/// there is none. `None` where its metadata is cut short.
pub open spec fn oriented_source(s: Seq<u8>) -> Option<
    Result<(SourceView, ExifOrientation), Seq<char>>,
> {
    match first_box(boxes_in(s, 0, s.len() as int), META@) {
        None => Some(Err("meta missing"@)),
        Some(meta) => match source_structure(s, meta) {
            None => None,
            Some(Err(e)) => Some(Err(e)),
            Some(Ok(src)) => match heif_orientation(s, src.items, src.iloc_entries, src.idat) {
                Err(e) => Some(Err(e)),
                Ok(o) => Some(Ok((src, o))),
            },
        },
    }
}

/// What a result with a source and its orientation says.
pub open spec fn told_oriented(r: Option<Result<(ParsedSource, ExifOrientation), String>>) -> Option<
    Result<(SourceView, ExifOrientation), Seq<char>>,
> {
    match r {
        None => None,
        Some(Err(e)) => Some(Err(e@)),
        Some(Ok((src, o))) => Some(Ok((src@, o))),
    }
}

/// Read the structure of a source file and the orientation that its Exif data gives;
/// `None` where its metadata is cut short.
pub fn read_oriented_source(source: &[u8]) -> (r: Option<
    Result<(ParsedSource, ExifOrientation), String>,
>)
    ensures
        told_oriented(r) == oriented_source(source@),
{
    let top: Vec<BoxHeader> = parse_boxes(source, 0, source.len());
    let meta: BoxHeader = match find_in(top.as_slice(), &META) {
        None => {
            return Some(Err("meta missing".to_string()));
        },
        Some(b) => b,
    };
    let src: ParsedSource = match parse_source_structure(source, &meta) {
        None => {
            return None;
        },
        Some(Err(e)) => {
            return Some(Err(e));
        },
        Some(Ok(src)) => src,
    };
    let r: Result<ExifOrientation, String> = read_heif_exif_orientation(
        source,
        &src.items,
        &src.iloc_entries,
        src.idat.as_ref(),
    );
    match r {
        Err(e) => Some(Err(e)),
        Ok(o) => Some(Ok((src, o))),
    }
}

/// Whether `tiles` are all the tiles of a packed raster, row by row.
pub open spec fn cut_into(tiles: Seq<Seq<u8>>, pixels: Seq<u8>, width: u32, height: u32, n: int) -> bool {
    let cols = tile_count(width as int);
    &&& tiles.len() == cols * tile_count(height as int)
    &&& forall|row: int, col: int|
        #![trigger tiles[row * cols + col]]
        0 <= row < tile_count(height as int) && 0 <= col < cols ==> is_tile_of(
            tiles[row * cols + col],
            pixels,
            width,
            height,
            n,
            width * n,
            (col * 512) as u32,
            (row * 512) as u32,
        )
}

/// Whether prepared tiles are those of a packed raster.
pub open spec fn holds_raster(p: PreparedTiles, o: ExifOrientation, pixels: Seq<u8>, w: u32, h: u32) -> bool {
    &&& p.orientation == o
    &&& p.gain_width == w
    &&& p.gain_height == h
    &&& p.cols == tile_count(w as int)
    &&& p.rows == tile_count(h as int)
    &&& cut_into(views(p.tiles@), pixels, w, h, p.pixel_len())
}

/// Whether the size of a gain map can be reckoned with.
pub open spec fn size_fits(width: u32, height: u32) -> bool {
    width + 511 <= u32::MAX && height + 511 <= u32::MAX && width * 3 <= usize::MAX && height * 3
        <= usize::MAX
}

fn cut(
    orientation: ExifOrientation,
    pixels: &[u8],
    width: u32,
    height: u32,
    oppo_rgb: bool,
) -> (r: Result<PreparedTiles, String>)
    requires
        size_fits(width, height),
    ensures
        ({
            let n = if oppo_rgb {
                3int
            } else {
                1
            };
            match r {
                Err(e) => tile_error(pixels@.len() as int, width, height, n, width * n, 0, 0)
                    == Some(e@),
                Ok(p) => tile_error(pixels@.len() as int, width, height, n, width * n, 0, 0) is None
                    && p.oppo_rgb == oppo_rgb && holds_raster(
                    p,
                    orientation,
                    pixels@,
                    width,
                    height,
                ),
            }
        }),
{
    let n: usize = if oppo_rgb {
        3
    } else {
        1
    };
    assert(width * n <= width * 3) by (nonlinear_arith)
        requires
            n <= 3,
            width >= 0,
    ;
    let stride: usize = width as usize * n;
    match gain_map_tiles(pixels, width, height, n, stride) {
        Err(e) => Err(e),
        Ok(tiles) => {
            let (cols, rows) = tile_grid_dims(width, height);
            let p = PreparedTiles {
                orientation,
                gain_width: width,
                gain_height: height,
                cols,
                rows,
                oppo_rgb,
                tiles,
            };
            proof {
                let v = views(p.tiles@);
                let c = tile_count(width as int);
                let d = tile_count(height as int);
                assert forall|row: int, col: int|
                    #![trigger v[row * c + col]]
                    0 <= row < d && 0 <= col < c implies is_tile_of(
                    v[row * c + col],
                    pixels@,
                    width,
                    height,
                    n as int,
                    width * n,
                    (col * 512) as u32,
                    (row * 512) as u32,
                ) by {
                    assert(0 <= row * c + col < c * d) by (nonlinear_arith)
                        requires
                            0 <= row < d,
                            0 <= col < c,
                    ;
                    assert(v[row * c + col] == p.tiles@[row * c + col]@);
                }
            }
            Ok(p)
        },
    }
}

/// Why tiles cannot be cut of a packed raster of `len` bytes.
pub open spec fn cut_fault(len: int, width: u32, height: u32, n: int) -> Option<Seq<char>> {
    tile_error(len, width, height, n, width * n, 0, 0)
}

/// Prepare the tiles of an LHDR source: the mask becomes a gain map by the gain of each
/// mask value, takes the source's orientation, becomes RGB for OPPO, and is cut.
///
/// `None` where the source's metadata is cut short, the mask lacks rows, or a size does
/// not fit.
pub fn prepare_lhdr_tiles(
    source: &[u8],
    mask: &[u8],
    mask_width: u32,
    mask_height: u32,
    gains: &[u8; 256],
    oppo_compat: OppoCompat,
) -> (r: Option<Result<PreparedTiles, String>>)
    ensures
        lhdr_prepared(source@, mask@, mask_width, mask_height, gains@, oppo_compat, r),
{
    let o: ExifOrientation = match read_oriented_source(source) {
        None => {
            return None;
        },
        Some(Err(e)) => {
            return Some(Err(e));
        },
        Some(Ok((_, o))) => o,
    };
    if !fits_size(mask_width, mask_height) {
        return None;
    }
    let w: usize = mask_width as usize;
    let h: usize = mask_height as usize;
    let map: Vec<u8> = match try_apply_gains(mask, w, h, w, gains) {
        None => {
            return None;
        },
        Some(m) => m,
    };
    let stride: usize = align_up(w, 256);
    let (gray, gain_width, gain_height) = match orient_gainmap_pixels(
        map.as_slice(),
        mask_width,
        mask_height,
        1,
        stride,
        o,
    ) {
        Err(e) => {
            return Some(Err(e));
        },
        Ok(x) => x,
    };
    let rgb: bool = oppo_compat.wants_oppo_rgb();
    if rgb {
        if gray.len() > usize::MAX / 3 {
            return None;
        }
        let pixels: Vec<u8> = gray_to_rgb(gray.as_slice());
        Some(cut(o, pixels.as_slice(), gain_width, gain_height, true))
    } else {
        Some(cut(o, gray.as_slice(), gain_width, gain_height, false))
    }
}

fn fits_size(width: u32, height: u32) -> (r: bool)
    ensures
        r == size_fits(width, height),
{
    width <= u32::MAX - 511 && height <= u32::MAX - 511 && width as usize <= usize::MAX / 3
        && height as usize <= usize::MAX / 3
}

/// What the tiles of an LHDR source are.
pub open spec fn lhdr_prepared(
    s: Seq<u8>,
    mask: Seq<u8>,
    width: u32,
    height: u32,
    gains: Seq<u8>,
    compat: OppoCompat,
    r: Option<Result<PreparedTiles, String>>,
) -> bool {
    let stride = aligned(width as int, 256);
    let map = gains_of(mask, width as int, height as int, width as int, gains);
    let rgb = compat != OppoCompat::Off;
    let n: int = if rgb {
        3
    } else {
        1
    };
    match oriented_source(s) {
        None => r is None,
        Some(Err(e)) => told_fault(r) == Some(Some(e)),
        Some(Ok((_, o))) => if !size_fits(width, height) || !mask_fits(
            mask.len() as int,
            width as int,
            height as int,
            width as int,
        ) || stride * height > usize::MAX {
            r is None
        } else {
            let (w, h) = o.presented(width, height);
            match orient_error(map.len() as int, width, height, 1, stride) {
                Some(e) => told_fault(r) == Some(Some(e)),
                None => if rgb && width * height > usize::MAX / 3 {
                    r is None
                } else {
                    match cut_fault(width * height * n, w, h, n) {
                        Some(e) => told_fault(r) == Some(Some(e)),
                        None => r matches Some(Ok(p)) && p.oppo_rgb == rgb && exists|gray: Seq<u8>|
                            #[trigger]
                            presents(gray, map, width, height, 1, stride, o) && holds_raster(
                                p,
                                o,
                                if rgb {
                                    tripled(gray)
                                } else {
                                    gray
                                },
                                w,
                                h,
                            ),
                    }
                },
            }
        },
    }
}

/// Why there are no prepared tiles; none where there are.
pub open spec fn told_fault(r: Option<Result<PreparedTiles, String>>) -> Option<
    Option<Seq<char>>,
> {
    match r {
        None => None,
        Some(Err(e)) => Some(Some(e@)),
        Some(Ok(_)) => Some(None),
    }
}

/// What the tiles of a UHDR source are whose gain map was decoded to RGB.
pub open spec fn uhdr_prepared(
    s: Seq<u8>,
    decoded: Result<(Seq<u8>, u32, u32), Seq<char>>,
    r: Option<Result<PreparedTiles, String>>,
) -> bool {
    match oriented_source(s) {
        None => r is None,
        Some(Err(e)) => told_fault(r) == Some(Some(e)),
        Some(Ok((src, o))) => match decoded {
            Err(e) => told_fault(r) == Some(Some("UHDR gain map JPEG decode failed: "@ + e)),
            Ok((pixels, width, height)) => if !size_fits(width, height) {
                r is None
            } else if stored_as_presented(src, o) {
                let (w, h) = o.presented(width, height);
                match orient_error(pixels.len() as int, width, height, 3, width * 3) {
                    Some(e) => told_fault(r) == Some(Some(e)),
                    None => match cut_fault(width * height * 3, w, h, 3) {
                        Some(e) => told_fault(r) == Some(Some(e)),
                        None => r matches Some(Ok(p)) && p.oppo_rgb && exists|rgb: Seq<u8>|
                            #[trigger]
                            presents(rgb, pixels, width, height, 3, width * 3, o) && holds_raster(
                                p,
                                o,
                                rgb,
                                w,
                                h,
                            ),
                    },
                }
            } else {
                match cut_fault(pixels.len() as int, width, height, 3) {
                    Some(e) => told_fault(r) == Some(Some(e)),
                    None => r matches Some(Ok(p)) && p.oppo_rgb && holds_raster(
                        p,
                        o,
                        pixels,
                        width,
                        height,
                    ),
                }
            },
        },
    }
}

/// Prepare the tiles of a UHDR source whose gain map was decoded to RGB. A gain map keeps
/// its storage orientation where the primary image does, because it is shown with the same
/// rotation; it takes the source's orientation where the primary's tiles already have it.
///
/// `None` where the source's metadata is cut short or a size does not fit.
pub fn tile_uhdr_gain_map(source: &[u8], decoded: Result<(Vec<u8>, u32, u32), String>) -> (r: Option<
    Result<PreparedTiles, String>,
>)
    ensures
        uhdr_prepared(source@, told_pixels(decoded), r),
{
    let (src, o) = match read_oriented_source(source) {
        None => {
            return None;
        },
        Some(Err(e)) => {
            return Some(Err(e));
        },
        Some(Ok(x)) => x,
    };
    let (pixels, width, height) = match decoded {
        Err(e) => {
            return Some(Err(join("UHDR gain map JPEG decode failed: ", e.as_str())));
        },
        Ok(x) => x,
    };
    if !fits_size(width, height) {
        return None;
    }
    if primary_is_presentation_oriented(&src, o) {
        match orient_gainmap_pixels(pixels.as_slice(), width, height, 3, width as usize * 3, o) {
            Err(e) => Some(Err(e)),
            Ok((rgb, w, h)) => Some(cut(o, rgb.as_slice(), w, h, true)),
        }
    } else {
        Some(cut(o, pixels.as_slice(), width, height, true))
    }
}

/// Prepare the tiles of a UHDR source from its gain-map JPEG; `None` where the source's
/// metadata is cut short or a size does not fit.
pub fn prepare_uhdr_tiles(source: &[u8], gainmap_jpeg: &[u8]) -> (r: Option<
    Result<PreparedTiles, String>,
>)
    ensures
        exists|o: JpegOutcome|
            #![trigger rgb_of(o)]
            uhdr_prepared(source@, rgb_of(o), r) && may_decode_to(gainmap_jpeg@, o),
        owes_image(gainmap_jpeg@) && (oriented_source(source@) matches Some(Ok(_)))
            ==> r matches Some(Ok(_)),
{
    let decoded: Result<(Vec<u8>, u32, u32), String> = decode_jpeg_to_rgb(gainmap_jpeg);
    let ghost told = told_pixels(decoded);
    let r: Option<Result<PreparedTiles, String>> = tile_uhdr_gain_map(source, decoded);
    proof {
        let o = choose|o: JpegOutcome|
            #![trigger rgb_of(o)]
            told == rgb_of(o) && may_decode_to(gainmap_jpeg@, o);
        assert(uhdr_prepared(source@, rgb_of(o), r) && may_decode_to(gainmap_jpeg@, o));
        if owes_image(gainmap_jpeg@) {
            match o {
                JpegOutcome::Image { pixels, width, height, format } => {
                    lemma_sides(width as u32, height as u32);
                },
                _ => {},
            }
        }
    }
    r
}

/// A raster of RGB pixels, and the raster that it is turned to, have no fault where both
/// sides are of 16 bits.
proof fn lemma_sides(w: u32, h: u32)
    requires
        0 < w <= 0xffff,
        0 < h <= 0xffff,
        usize::MAX > u32::MAX,
    ensures
        size_fits(w, h),
        orient_error(w * h * 3, w, h, 3, w * 3) is None,
        cut_fault(w * h * 3, w, h, 3) is None,
        cut_fault(w * h * 3, h, w, 3) is None,
{
    let n = w * h;
    assert(0 < n <= 0xffff * 0xffff) by (nonlinear_arith)
        requires
            0 < w <= 0xffff,
            0 < h <= 0xffff,
            n == w * h,
    ;
    assert((w * 3) * h == n * 3) by (nonlinear_arith)
        requires
            n == w * h,
    ;
    assert((h * 3) * w == n * 3) by (nonlinear_arith)
        requires
            n == w * h,
    ;
}

/// The chroma format that a decoder configuration declares for encoded tiles: none for
/// gray ones, 4:2:0 for OPPO, 4:4:4 for other RGB tiles.
pub open spec fn chroma_of(rgb: bool, compat: OppoCompat) -> u8 {
    if !rgb {
        0
    } else if compat != OppoCompat::Off {
        1
    } else {
        3
    }
}

/// The chroma format that a decoder configuration declares for encoded tiles.
pub fn tile_chroma(rgb: bool, oppo_compat: OppoCompat) -> (r: u8)
    ensures
        r == chroma_of(rgb, oppo_compat),
{
    if !rgb {
        0
    } else if oppo_compat.wants_oppo_compat() {
        1
    } else {
        3
    }
}

/// What describes a gain map in an output: the tone-map parameters, the XMP, and the light
/// levels of the base and of the tone-mapped image.
pub struct GainMetadata {
    pub tmap_payload: Vec<u8>,
    pub xmp_bytes: Vec<u8>,
    pub base_clli: Vec<u8>,
    pub tmap_clli: Vec<u8>,
}

/// The gain map of encoded tiles.
pub open spec fn encoded_gain_map(
    p: PreparedTiles,
    streams: Seq<Seq<u8>>,
    chroma: u8,
    m: GainMetadata,
) -> GainView {
    GainView {
        tiles: tile_payloads(streams),
        hvcc: first_hvcc(streams, chroma, streams.len()),
        width: p.gain_width,
        height: p.gain_height,
        cols: p.cols,
        rows: p.rows,
        oppo_rgb: p.oppo_rgb,
        tmap_payload: m.tmap_payload@,
        xmp: m.xmp_bytes@,
        base_clli: m.base_clli@,
        tmap_clli: m.tmap_clli@,
    }
}

/// Wrap encoded tiles, one byte stream each, into the final file. The decoder
/// configuration comes from the first stream that has one; the tiles keep their slices
/// alone.
///
/// `None` where a stream ends in a start code, the source's metadata is cut short, or a
/// number does not fit.
pub fn assemble_prepared_tiles(
    source: &[u8],
    prepared: &PreparedTiles,
    tile_streams: &[Vec<u8>],
    chroma: u8,
    metadata: GainMetadata,
    oppo_compat: OppoCompat,
    tail_policy: OppoCameraTail,
) -> (r: Option<Result<Vec<u8>, String>>)
    ensures
        told_some(r) == (if all_packable(views(tile_streams@)) {
            iso_output(
                source@,
                prepared.orientation,
                oppo_compat,
                tail_policy,
                encoded_gain_map(*prepared, views(tile_streams@), chroma, metadata),
            )
        } else {
            None
        }),
{
    match package_tiles(tile_streams, chroma) {
        None => None,
        Some(package) => {
            let gain = GainMap {
                tiles: package.payloads,
                hvcc: package.hvcc,
                width: prepared.gain_width,
                height: prepared.gain_height,
                cols: prepared.cols,
                rows: prepared.rows,
                oppo_rgb: prepared.oppo_rgb,
                tmap_payload: metadata.tmap_payload,
                xmp_bytes: metadata.xmp_bytes,
                base_clli: metadata.base_clli,
                tmap_clli: metadata.tmap_clli,
            };
            assert(gain@ == encoded_gain_map(
                *prepared,
                views(tile_streams@),
                chroma,
                metadata,
            ));
            assemble_iso_output(source, prepared.orientation, oppo_compat, tail_policy, gain)
        },
    }
}

/// Pack prepared gray tiles as planes of 4:2:0 pictures with no colour, one after the
/// other.
pub fn pack_gray_tiles(prepared: &PreparedTiles) -> (r: Vec<u8>)
    ensures
        r@ == flat(views(prepared.tiles@), gray_planes()),
{
    let ghost v = views(prepared.tiles@);
    let mut out: Vec<u8> = Vec::new();
    let mut i: usize = 0;
    assert(v.take(0) =~= Seq::empty());
    assert(out@ =~= flat(v.take(0), gray_planes()));
    while i < prepared.tiles.len()
        invariant
            i <= prepared.tiles@.len(),
            v == views(prepared.tiles@),
            out@ == flat(v.take(i as int), gray_planes()),
        decreases prepared.tiles@.len() - i,
    {
        push_gray_tile_420(&mut out, prepared.tiles[i].as_slice());
        proof {
            lemma_flat_take(v, gray_planes(), i as int);
        }
        i = i + 1;
    }
    assert(v.take(i as int) =~= v);
    out
}

/// The planes of a gray tile as a 4:2:0 picture.
pub open spec fn gray_planes() -> spec_fn(Seq<u8>) -> Seq<u8> {
    |tile: Seq<u8>| gray_tile_420(tile)
}

} // verus!
