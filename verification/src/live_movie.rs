//! The movie half of a Live Photo pair: a movie whose media stays as it is, with a
//! marker track for the cover frame and the content identifier.

use crate::bytes::{
    append, append_zeros, enc16, enc32, enc64, find_byte, opt_bytes, overwritten, push16, push32,
    push32_of, push64, zeros,
};
use crate::fourcc::{
    ALIS, CDSC, CO64, DATA, DINF, DREF, DTYP, EDTS, ELST, FREE, FTYP, GMHD, GMIN, HDLR, ILST, KEYD,
    KEYS, MDAT, MDHD, MDIA, MDTA, MEBX, META, MINF, MOOV, MVHD, STBL, STCO, STSC, STSD, STSZ, STTS,
    TKHD, TRAK, TREF, same_tag,
};
use crate::iso_validate::{lemma_filter_none, lemma_filter_take, said_some};
use crate::makernote::lemma_encoded_len;
use crate::quicktime::{
    MovBox, MovView, all_within, full_box, full_bytes, is_video_track, make_mov_box, mov_boxes,
    mov_bytes, mov_typed, movie_clock, movie_timescale, scan_boxes, track_id, track_number,
    video_track,
};
use crate::seqs::{flat, lemma_flat_take, told, told_some, views};
use vstd::prelude::*;
use vstd::string::*;
use vstd::utf8::*;

verus! {

/// Seconds from the epoch of QuickTime, 1904, to that of Unix, 1970.
pub const QUICKTIME_EPOCH_OFFSET: u64 = 2_082_844_800;

/// The time scale of the marker track.
pub const METADATA_TIMESCALE: u32 = 600;

/// The movie metadata key `com.apple.quicktime.content.identifier`.
pub const CONTENT_IDENTIFIER_KEY: [u8; 38] = [
    0x63, 0x6f, 0x6d, 0x2e, 0x61, 0x70, 0x70, 0x6c, 0x65, 0x2e, 0x71, 0x75, 0x69, 0x63, 0x6b, 0x74,
    0x69, 0x6d, 0x65, 0x2e, 0x63, 0x6f, 0x6e, 0x74, 0x65, 0x6e, 0x74, 0x2e, 0x69, 0x64, 0x65, 0x6e,
    0x74, 0x69, 0x66, 0x69, 0x65, 0x72,
];

/// The track metadata key `com.apple.quicktime.still-image-time`.
pub const STILL_IMAGE_KEY: [u8; 36] = [
    0x63, 0x6f, 0x6d, 0x2e, 0x61, 0x70, 0x70, 0x6c, 0x65, 0x2e, 0x71, 0x75, 0x69, 0x63, 0x6b, 0x74,
    0x69, 0x6d, 0x65, 0x2e, 0x73, 0x74, 0x69, 0x6c, 0x6c, 0x2d, 0x69, 0x6d, 0x61, 0x67, 0x65, 0x2d,
    0x74, 0x69, 0x6d, 0x65,
];

/// The track metadata key
/// `com.apple.quicktime.live-photo-still-image-transform`.
pub const TRANSFORM_KEY: [u8; 52] = [
    0x63, 0x6f, 0x6d, 0x2e, 0x61, 0x70, 0x70, 0x6c, 0x65, 0x2e, 0x71, 0x75, 0x69, 0x63, 0x6b, 0x74,
    0x69, 0x6d, 0x65, 0x2e, 0x6c, 0x69, 0x76, 0x65, 0x2d, 0x70, 0x68, 0x6f, 0x74, 0x6f, 0x2d, 0x73,
    0x74, 0x69, 0x6c, 0x6c, 0x2d, 0x69, 0x6d, 0x61, 0x67, 0x65, 0x2d, 0x74, 0x72, 0x61, 0x6e, 0x73,
    0x66, 0x6f, 0x72, 0x6d,
];

/// The track metadata key
/// `com.apple.quicktime.live-photo-still-image-transform-reference-dimensions`.
pub const REFERENCE_DIMENSIONS_KEY: [u8; 73] = [
    0x63, 0x6f, 0x6d, 0x2e, 0x61, 0x70, 0x70, 0x6c, 0x65, 0x2e, 0x71, 0x75, 0x69, 0x63, 0x6b, 0x74,
    0x69, 0x6d, 0x65, 0x2e, 0x6c, 0x69, 0x76, 0x65, 0x2d, 0x70, 0x68, 0x6f, 0x74, 0x6f, 0x2d, 0x73,
    0x74, 0x69, 0x6c, 0x6c, 0x2d, 0x69, 0x6d, 0x61, 0x67, 0x65, 0x2d, 0x74, 0x72, 0x61, 0x6e, 0x73,
    0x66, 0x6f, 0x72, 0x6d, 0x2d, 0x72, 0x65, 0x66, 0x65, 0x72, 0x65, 0x6e, 0x63, 0x65, 0x2d, 0x64,
    0x69, 0x6d, 0x65, 0x6e, 0x73, 0x69, 0x6f, 0x6e, 0x73,
];

/// The payload of the media handler: `mhlr`, `meta`, `appl`, and the name
/// `Core Media Metadata`.
pub const MEDIA_HANDLER: [u8; 40] = [
    0x6d, 0x68, 0x6c, 0x72, 0x6d, 0x65, 0x74, 0x61, 0x61, 0x70, 0x70, 0x6c, 0x00, 0x00, 0x00, 0x01,
    0x00, 0x00, 0x00, 0x00, 0x13, 0x43, 0x6f, 0x72, 0x65, 0x20, 0x4d, 0x65, 0x64, 0x69, 0x61, 0x20,
    0x4d, 0x65, 0x74, 0x61, 0x64, 0x61, 0x74, 0x61,
];

/// The payload of the data handler: `dhlr`, `alis`, `appl`, and the name
/// `Core Media Data Handler`.
pub const DATA_HANDLER: [u8; 44] = [
    0x64, 0x68, 0x6c, 0x72, 0x61, 0x6c, 0x69, 0x73, 0x61, 0x70, 0x70, 0x6c, 0x00, 0x00, 0x00, 0x00,
    0x00, 0x00, 0x00, 0x00, 0x17, 0x43, 0x6f, 0x72, 0x65, 0x20, 0x4d, 0x65, 0x64, 0x69, 0x61, 0x20,
    0x44, 0x61, 0x74, 0x61, 0x20, 0x48, 0x61, 0x6e, 0x64, 0x6c, 0x65, 0x72,
];

/// The payload of the generic media information: dither copy on mid grey.
pub const GRAPHICS_MODE: [u8; 12] = [
    0x00, 0x40, 0x80, 0x00, 0x80, 0x00, 0x80, 0x00, 0x00, 0x00, 0x00, 0x00,
];

/// What follows the duration in a track header: reserved bytes, layer, group and
/// volume, the unity matrix, and no size.
pub const TRACK_GEOMETRY: [u8; 60] = [
    0x00, 0x00, 0x00, 0x00, 0x00, 0x00, 0x00, 0x00, 0x00, 0x00, 0x00, 0x00, 0x00, 0x00, 0x00, 0x00,
    0x00, 0x01, 0x00, 0x00, 0x00, 0x00, 0x00, 0x00, 0x00, 0x00, 0x00, 0x00, 0x00, 0x00, 0x00, 0x00,
    0x00, 0x01, 0x00, 0x00, 0x00, 0x00, 0x00, 0x00, 0x00, 0x00, 0x00, 0x00, 0x00, 0x00, 0x00, 0x00,
    0x40, 0x00, 0x00, 0x00, 0x00, 0x00, 0x00, 0x00, 0x00, 0x00, 0x00, 0x00,
];

/// The local key 1 as a box type.
pub const ATOM_1: [u8; 4] = [
    0x00, 0x00, 0x00, 0x01,
];

/// The local key 2 as a box type.
pub const ATOM_2: [u8; 4] = [
    0x00, 0x00, 0x00, 0x02,
];

/// The local key 3 as a box type.
pub const ATOM_3: [u8; 4] = [
    0x00, 0x00, 0x00, 0x03,
];

/// The payload of the movie metadata handler: `mdta` between zero bytes.
pub const MDTA_HANDLER: [u8; 26] = [
    0x00, 0x00, 0x00, 0x00, 0x00, 0x00, 0x00, 0x00, 0x6d, 0x64, 0x74, 0x61, 0x00, 0x00, 0x00, 0x00,
    0x00, 0x00, 0x00, 0x00, 0x00, 0x00, 0x00, 0x00, 0x00, 0x00,
];

/// The brand `qt  ` and the version 0.
pub const BRAND_QT: [u8; 8] = [
    0x71, 0x74, 0x20, 0x20, 0x00, 0x00, 0x00, 0x00,
];

/// A metadata key of a track: a local number for a name of the `mdta` namespace, and
/// the type of its values.
pub open spec fn key_bytes(atom: Seq<u8>, name: Seq<u8>, type_code: int) -> Seq<u8> {
    mov_bytes(atom, mov_bytes(KEYD@, MDTA@ + name) + mov_bytes(DTYP@, enc32(0) + enc32(type_code)))
}

fn metadata_key_atom(atom: &[u8; 4], name: &[u8], type_code: u32) -> (r: Vec<u8>)
    ensures
        r@ == key_bytes(atom@, name@, type_code as int),
{
    let mut keyd: Vec<u8> = Vec::new();
    append(&mut keyd, MDTA.as_slice());
    append(&mut keyd, name);
    let mut dtyp: Vec<u8> = Vec::new();
    push32(&mut dtyp, 0);
    push32(&mut dtyp, type_code);
    assert(keyd@ =~= MDTA@ + name@);
    assert(dtyp@ =~= enc32(0) + enc32(type_code as int));
    let mut both: Vec<u8> = make_mov_box(&KEYD, keyd.as_slice());
    append(&mut both, make_mov_box(&DTYP, dtyp.as_slice()).as_slice());
    make_mov_box(atom, both.as_slice())
}

/// An atom with a payload, where there is one.
pub open spec fn opt_atom(atom: Seq<u8>, payload: Option<Seq<u8>>) -> Seq<u8> {
    match payload {
        Some(p) => mov_bytes(atom, p),
        None => Seq::empty(),
    }
}

/// The sample of the marker track: the still image time, and the transform of the
/// still with its reference dimensions where they are known.
pub open spec fn marker_sample(transform: Option<Seq<u8>>, dimensions: Option<Seq<u8>>) -> Seq<u8> {
    mov_bytes(ATOM_1@, seq![0u8]) + opt_atom(ATOM_2@, transform) + opt_atom(ATOM_3@, dimensions)
}

fn metadata_sample(transform: &Option<Vec<u8>>, dimensions: &Option<Vec<u8>>) -> (r: Vec<u8>)
    ensures
        r@ == marker_sample(opt_bytes(*transform), opt_bytes(*dimensions)),
{
    let zero: [u8; 1] = [0];
    assert(zero@ =~= seq![0u8]);
    let mut out: Vec<u8> = make_mov_box(&ATOM_1, zero.as_slice());
    match transform {
        Some(t) => {
            append(&mut out, make_mov_box(&ATOM_2, t.as_slice()).as_slice());
        },
        None => {},
    }
    match dimensions {
        Some(d) => {
            append(&mut out, make_mov_box(&ATOM_3, d.as_slice()).as_slice());
        },
        None => {},
    }
    assert(out@ =~= marker_sample(opt_bytes(*transform), opt_bytes(*dimensions)));
    out
}

/// How long the marker lasts in a movie of a time scale.
pub open spec fn marker_len(movie_timescale: u32) -> int {
    if movie_timescale < 2 * METADATA_TIMESCALE {
        1
    } else {
        movie_timescale as int / METADATA_TIMESCALE as int
    }
}

fn marker_duration(movie_timescale: u32) -> (r: u32)
    ensures
        r == marker_len(movie_timescale),
        r >= 1,
{
    if movie_timescale / METADATA_TIMESCALE > 1 {
        movie_timescale / METADATA_TIMESCALE
    } else {
        1
    }
}

/// The track header of the marker track.
#[verifier::opaque]
pub open spec fn marker_tkhd(stamp: int, track_id: int, duration: int) -> Seq<u8> {
    full_bytes(
        TKHD@,
        0,
        0x0f,
        enc32(stamp) + enc32(stamp) + enc32(track_id) + enc32(0) + enc32(duration) + TRACK_GEOMETRY@,
    )
}

fn make_marker_tkhd(stamp: u64, track_id: u32, duration: u32) -> (r: Vec<u8>)
    ensures
        r@ == marker_tkhd(stamp as int, track_id as int, duration as int),
{
    let mut p: Vec<u8> = Vec::new();
    push32_of(&mut p, stamp);
    push32_of(&mut p, stamp);
    push32(&mut p, track_id);
    push32(&mut p, 0);
    push32(&mut p, duration);
    append(&mut p, TRACK_GEOMETRY.as_slice());
    proof {
        reveal(marker_tkhd);
    }
    assert(p@ =~= enc32(stamp as int) + enc32(stamp as int) + enc32(track_id as int) + enc32(0)
        + enc32(duration as int) + TRACK_GEOMETRY@);
    full_box(&TKHD, 0, 0x0f, p.as_slice())
}

/// An edit of `duration` at normal speed: from the media's start, or empty.
pub open spec fn edit_bytes(duration: int, empty: bool) -> Seq<u8> {
    enc32(duration) + enc32(
        if empty {
            0xffff_ffff
        } else {
            0
        },
    ) + enc16(1) + enc16(0)
}

fn push_edit(out: &mut Vec<u8>, duration: u32, empty: bool)
    ensures
        final(out)@ == old(out)@ + edit_bytes(duration as int, empty),
{
    push32(out, duration);
    push32(
        out,
        if empty {
            0xffff_ffff
        } else {
            0
        },
    );
    push16(out, 1);
    push16(out, 0);
    assert(out@ =~= old(out)@ + edit_bytes(duration as int, empty));
}

/// The edit list of the marker track: empty up to the still, then the marker.
#[verifier::opaque]
pub open spec fn marker_edts(empty: int, marker: int) -> Seq<u8> {
    mov_bytes(
        EDTS@,
        full_bytes(
            ELST@,
            0,
            0,
            if empty > 0 {
                enc32(2) + edit_bytes(empty, true) + edit_bytes(marker, false)
            } else {
                enc32(1) + edit_bytes(marker, false)
            },
        ),
    )
}

fn make_marker_edts(empty: u32, marker: u32) -> (r: Vec<u8>)
    ensures
        r@ == marker_edts(empty as int, marker as int),
{
    let mut p: Vec<u8> = Vec::new();
    proof {
        reveal(marker_edts);
    }
    if empty > 0 {
        push32(&mut p, 2);
        push_edit(&mut p, empty, true);
        push_edit(&mut p, marker, false);
        assert(p@ =~= enc32(2) + edit_bytes(empty as int, true) + edit_bytes(marker as int, false));
    } else {
        push32(&mut p, 1);
        push_edit(&mut p, marker, false);
        assert(p@ =~= enc32(1) + edit_bytes(marker as int, false));
    }
    let elst: Vec<u8> = full_box(&ELST, 0, 0, p.as_slice());
    make_mov_box(&EDTS, elst.as_slice())
}

/// The media header of the marker track, in no particular language.
#[verifier::opaque]
pub open spec fn marker_mdhd(stamp: int) -> Seq<u8> {
    full_bytes(
        MDHD@,
        0,
        0,
        enc32(stamp) + enc32(stamp) + enc32(METADATA_TIMESCALE as int) + enc32(1) + enc16(0x55c4)
            + enc16(0),
    )
}

fn make_marker_mdhd(stamp: u64) -> (r: Vec<u8>)
    ensures
        r@ == marker_mdhd(stamp as int),
{
    let mut p: Vec<u8> = Vec::new();
    push32_of(&mut p, stamp);
    push32_of(&mut p, stamp);
    push32(&mut p, METADATA_TIMESCALE);
    push32(&mut p, 1);
    push16(&mut p, 0x55c4);
    push16(&mut p, 0);
    proof {
        reveal(marker_mdhd);
    }
    assert(p@ =~= enc32(stamp as int) + enc32(stamp as int) + enc32(METADATA_TIMESCALE as int)
        + enc32(1) + enc16(0x55c4) + enc16(0));
    full_box(&MDHD, 0, 0, p.as_slice())
}

/// A key for each value that the marker sample has.
pub open spec fn marker_keys(transform: bool, dimensions: bool) -> Seq<u8> {
    key_bytes(ATOM_1@, STILL_IMAGE_KEY@, 65) + (if transform {
        key_bytes(ATOM_2@, TRANSFORM_KEY@, 79)
    } else {
        Seq::empty()
    }) + (if dimensions {
        key_bytes(ATOM_3@, REFERENCE_DIMENSIONS_KEY@, 71)
    } else {
        Seq::empty()
    })
}

/// The sample description of the marker track.
#[verifier::opaque]
pub open spec fn marker_stsd(transform: bool, dimensions: bool) -> Seq<u8> {
    full_bytes(
        STSD@,
        0,
        0,
        enc32(1) + mov_bytes(
            MEBX@,
            zeros(6) + enc16(1) + mov_bytes(KEYS@, marker_keys(transform, dimensions)),
        ),
    )
}

fn make_marker_stsd(transform: bool, dimensions: bool) -> (r: Vec<u8>)
    ensures
        r@ == marker_stsd(transform, dimensions),
{
    let mut atoms: Vec<u8> = metadata_key_atom(&ATOM_1, STILL_IMAGE_KEY.as_slice(), 65);
    if transform {
        append(&mut atoms, metadata_key_atom(&ATOM_2, TRANSFORM_KEY.as_slice(), 79).as_slice());
    }
    if dimensions {
        append(
            &mut atoms,
            metadata_key_atom(&ATOM_3, REFERENCE_DIMENSIONS_KEY.as_slice(), 71).as_slice(),
        );
    }
    assert(atoms@ =~= marker_keys(transform, dimensions));
    let mut mebx: Vec<u8> = Vec::new();
    append_zeros(&mut mebx, 6);
    push16(&mut mebx, 1);
    append(&mut mebx, make_mov_box(&KEYS, atoms.as_slice()).as_slice());
    assert(mebx@ =~= zeros(6) + enc16(1) + mov_bytes(KEYS@, marker_keys(transform, dimensions)));
    let mut p: Vec<u8> = Vec::new();
    push32(&mut p, 1);
    append(&mut p, make_mov_box(&MEBX, mebx.as_slice()).as_slice());
    proof {
        reveal(marker_stsd);
    }
    assert(p@ =~= enc32(1) + mov_bytes(MEBX@, mebx@));
    full_box(&STSD, 0, 0, p.as_slice())
}

/// The sample table of the marker track: one sample of `len` bytes at `chunk`.
#[verifier::opaque]
pub open spec fn marker_stbl(transform: bool, dimensions: bool, len: int, chunk: int) -> Seq<u8> {
    mov_bytes(
        STBL@,
        marker_stsd(transform, dimensions) + full_bytes(STTS@, 0, 0, enc32(1) + enc32(1) + enc32(1))
            + full_bytes(STSC@, 0, 0, enc32(1) + enc32(1) + enc32(1) + enc32(1)) + full_bytes(
            STSZ@,
            0,
            0,
            enc32(len) + enc32(1),
        ) + (if chunk > 0xffff_ffff {
            full_bytes(CO64@, 0, 0, enc32(1) + enc64(chunk))
        } else {
            full_bytes(STCO@, 0, 0, enc32(1) + enc32(chunk))
        }),
    )
}

fn make_marker_stbl(transform: bool, dimensions: bool, len: usize, chunk: u64) -> (r: Vec<u8>)
    ensures
        r@ == marker_stbl(transform, dimensions, len as int, chunk as int),
{
    let mut stts: Vec<u8> = Vec::new();
    push32(&mut stts, 1);
    push32(&mut stts, 1);
    push32(&mut stts, 1);
    assert(stts@ =~= enc32(1) + enc32(1) + enc32(1));
    let mut stsc: Vec<u8> = Vec::new();
    push32(&mut stsc, 1);
    push32(&mut stsc, 1);
    push32(&mut stsc, 1);
    push32(&mut stsc, 1);
    assert(stsc@ =~= enc32(1) + enc32(1) + enc32(1) + enc32(1));
    let mut stsz: Vec<u8> = Vec::new();
    push32_of(&mut stsz, len as u64);
    push32(&mut stsz, 1);
    assert(stsz@ =~= enc32(len as int) + enc32(1));
    let mut place: Vec<u8> = Vec::new();
    push32(&mut place, 1);
    let chunk_box: Vec<u8> = if chunk > 0xffff_ffff {
        push64(&mut place, chunk);
        assert(place@ =~= enc32(1) + enc64(chunk as int));
        full_box(&CO64, 0, 0, place.as_slice())
    } else {
        push32(&mut place, chunk as u32);
        assert(place@ =~= enc32(1) + enc32(chunk as int));
        full_box(&STCO, 0, 0, place.as_slice())
    };
    let mut body: Vec<u8> = make_marker_stsd(transform, dimensions);
    append(&mut body, full_box(&STTS, 0, 0, stts.as_slice()).as_slice());
    append(&mut body, full_box(&STSC, 0, 0, stsc.as_slice()).as_slice());
    append(&mut body, full_box(&STSZ, 0, 0, stsz.as_slice()).as_slice());
    append(&mut body, chunk_box.as_slice());
    proof {
        reveal(marker_stbl);
    }
    make_mov_box(&STBL, body.as_slice())
}

/// The media of the marker track.
#[verifier::opaque]
pub open spec fn marker_mdia(stamp: int, stbl: Seq<u8>) -> Seq<u8> {
    let gmhd = mov_bytes(GMHD@, full_bytes(GMIN@, 0, 0, GRAPHICS_MODE@));
    let dinf = mov_bytes(
        DINF@,
        full_bytes(DREF@, 0, 0, enc32(1) + full_bytes(ALIS@, 0, 1, Seq::empty())),
    );
    mov_bytes(
        MDIA@,
        marker_mdhd(stamp) + full_bytes(HDLR@, 0, 0, MEDIA_HANDLER@) + mov_bytes(
            MINF@,
            gmhd + full_bytes(HDLR@, 0, 0, DATA_HANDLER@) + dinf + stbl,
        ),
    )
}

fn make_marker_mdia(stamp: u64, stbl: &[u8]) -> (r: Vec<u8>)
    ensures
        r@ == marker_mdia(stamp as int, stbl@),
{
    let gmin: Vec<u8> = full_box(&GMIN, 0, 0, GRAPHICS_MODE.as_slice());
    let nothing: [u8; 0] = [];
    assert(nothing@ =~= Seq::<u8>::empty());
    let mut dref: Vec<u8> = Vec::new();
    push32(&mut dref, 1);
    append(&mut dref, full_box(&ALIS, 0, 1, nothing.as_slice()).as_slice());
    assert(dref@ =~= enc32(1) + full_bytes(ALIS@, 0, 1, Seq::empty()));
    let dref_box: Vec<u8> = full_box(&DREF, 0, 0, dref.as_slice());
    let mut minf: Vec<u8> = make_mov_box(&GMHD, gmin.as_slice());
    append(&mut minf, full_box(&HDLR, 0, 0, DATA_HANDLER.as_slice()).as_slice());
    append(&mut minf, make_mov_box(&DINF, dref_box.as_slice()).as_slice());
    append(&mut minf, stbl);
    let mut body: Vec<u8> = make_marker_mdhd(stamp);
    append(&mut body, full_box(&HDLR, 0, 0, MEDIA_HANDLER.as_slice()).as_slice());
    append(&mut body, make_mov_box(&MINF, minf.as_slice()).as_slice());
    proof {
        reveal(marker_mdia);
    }
    make_mov_box(&MDIA, body.as_slice())
}

/// What the marker track is made from.
pub struct Marker {
    pub track_id: u32,
    /// The track that the marker describes.
    pub video_track_id: u32,
    pub movie_timescale: u32,
    /// Where the still lies, in ticks of the movie.
    pub empty_duration: u32,
    /// Where the sample lies in the file.
    pub chunk_offset: u64,
    /// Seconds since the epoch of QuickTime.
    pub timestamp: u64,
    /// Nine big-endian floating-point numbers.
    pub transform: Option<Vec<u8>>,
    /// Two big-endian floating-point numbers.
    pub dimensions: Option<Vec<u8>>,
}

/// What a marker track is made from.
#[verifier::ext_equal]
pub struct MarkerView {
    pub track_id: u32,
    pub video_track_id: u32,
    pub movie_timescale: u32,
    pub empty_duration: u32,
    pub chunk_offset: u64,
    pub timestamp: u64,
    pub transform: Option<Seq<u8>>,
    pub dimensions: Option<Seq<u8>>,
}

impl View for Marker {
    type V = MarkerView;

    open spec fn view(&self) -> MarkerView {
        MarkerView {
            track_id: self.track_id,
            video_track_id: self.video_track_id,
            movie_timescale: self.movie_timescale,
            empty_duration: self.empty_duration,
            chunk_offset: self.chunk_offset,
            timestamp: self.timestamp,
            transform: opt_bytes(self.transform),
            dimensions: opt_bytes(self.dimensions),
        }
    }
}

/// The marker track.
#[verifier::opaque]
pub open spec fn marker_track(m: MarkerView) -> Seq<u8> {
    let sample = marker_sample(m.transform, m.dimensions);
    let marker = marker_len(m.movie_timescale);
    mov_bytes(
        TRAK@,
        marker_tkhd(m.timestamp as int, m.track_id as int, m.empty_duration + marker) + mov_bytes(
            TREF@,
            mov_bytes(CDSC@, enc32(m.video_track_id as int)),
        ) + marker_edts(m.empty_duration as int, marker) + marker_mdia(
            m.timestamp as int,
            marker_stbl(
                m.transform is Some,
                m.dimensions is Some,
                sample.len() as int,
                m.chunk_offset as int,
            ),
        ),
    )
}

/// Build the marker track and its sample.
pub fn metadata_track(m: &Marker) -> (r: (Vec<u8>, Vec<u8>))
    requires
        m.empty_duration + marker_len(m.movie_timescale) <= u32::MAX,
    ensures
        r.0@ == marker_track(m@),
        r.1@ == marker_sample(m@.transform, m@.dimensions),
{
    let sample: Vec<u8> = metadata_sample(&m.transform, &m.dimensions);
    let marker: u32 = marker_duration(m.movie_timescale);
    let mut cdsc: Vec<u8> = Vec::new();
    push32(&mut cdsc, m.video_track_id);
    assert(cdsc@ =~= enc32(m.video_track_id as int));
    let cdsc_box: Vec<u8> = make_mov_box(&CDSC, cdsc.as_slice());
    let stbl: Vec<u8> = make_marker_stbl(
        m.transform.is_some(),
        m.dimensions.is_some(),
        sample.len(),
        m.chunk_offset,
    );
    let mut body: Vec<u8> = make_marker_tkhd(m.timestamp, m.track_id, m.empty_duration + marker);
    append(&mut body, make_mov_box(&TREF, cdsc_box.as_slice()).as_slice());
    append(&mut body, make_marker_edts(m.empty_duration, marker).as_slice());
    append(&mut body, make_marker_mdia(m.timestamp, stbl.as_slice()).as_slice());
    proof {
        reveal(marker_track);
    }
    (make_mov_box(&TRAK, body.as_slice()), sample)
}

/// Whether a text can be the content identifier of a movie: characters, all of them
/// ASCII and none of them zero.
pub open spec fn is_movie_id(id: Seq<char>) -> bool {
    &&& is_ascii_chars(id)
    &&& id.len() > 0
    &&& !encode_utf8(id).contains(0u8)
}

/// The metadata box of a movie with a content identifier.
#[verifier::opaque]
pub open spec fn movie_meta_bytes(id: Seq<u8>) -> Seq<u8> {
    let keys = full_bytes(KEYS@, 0, 0, enc32(1) + mov_bytes(MDTA@, CONTENT_IDENTIFIER_KEY@));
    let data = mov_bytes(DATA@, enc32(1) + enc32(0) + id);
    mov_bytes(
        META@,
        mov_bytes(HDLR@, MDTA_HANDLER@) + keys + mov_bytes(ILST@, mov_bytes(ATOM_1@, data)),
    )
}

/// The metadata box of a movie with a content identifier, or why there is none.
pub open spec fn movie_meta(id: Seq<char>) -> Result<Seq<u8>, Seq<char>> {
    if is_movie_id(id) {
        Ok(movie_meta_bytes(encode_utf8(id)))
    } else {
        Err("Live Photo content identifier must be non-empty ASCII"@)
    }
}

/// Build the metadata box of a movie with a content identifier.
pub fn movie_metadata(content_identifier: &str) -> (r: Result<Vec<u8>, String>)
    ensures
        told(r) == movie_meta(content_identifier@),
{
    let id: &[u8] = content_identifier.as_bytes();
    let zero: usize = find_byte(id, 0, 0);
    proof {
        if zero < id@.len() {
            assert(id@[zero as int] == 0);
        }
        lemma_encoded_len(content_identifier@);
    }
    if !content_identifier.is_ascii() || id.len() == 0 || zero < id.len() {
        return Err("Live Photo content identifier must be non-empty ASCII".to_string());
    }
    let mut keys: Vec<u8> = Vec::new();
    push32(&mut keys, 1);
    append(&mut keys, make_mov_box(&MDTA, CONTENT_IDENTIFIER_KEY.as_slice()).as_slice());
    assert(keys@ =~= enc32(1) + mov_bytes(MDTA@, CONTENT_IDENTIFIER_KEY@));
    let mut data: Vec<u8> = Vec::new();
    push32(&mut data, 1);
    push32(&mut data, 0);
    append(&mut data, id);
    assert(data@ =~= enc32(1) + enc32(0) + id@);
    let data_box: Vec<u8> = make_mov_box(&DATA, data.as_slice());
    let item: Vec<u8> = make_mov_box(&ATOM_1, data_box.as_slice());
    let mut body: Vec<u8> = make_mov_box(&HDLR, MDTA_HANDLER.as_slice());
    append(&mut body, full_box(&KEYS, 0, 0, keys.as_slice()).as_slice());
    append(&mut body, make_mov_box(&ILST, item.as_slice()).as_slice());
    proof {
        reveal(movie_meta_bytes);
    }
    Ok(make_mov_box(&META, body.as_slice()))
}

// ---------------------------------------------------------------------------
// The movie
// ---------------------------------------------------------------------------

/// What becomes of a child of the movie box: metadata is dropped, and the movie header
/// names the next free track, in its last four bytes.
pub open spec fn moov_child(s: Seq<u8>, next_track: int) -> spec_fn(MovView) -> Seq<u8> {
    |b: MovView|
        {
            let raw = s.subrange(b.offset, b.end());
            if b.kind == META@ {
                Seq::empty()
            } else if b.kind == MVHD@ {
                overwritten(raw, raw.len() - 4, enc32(next_track))
            } else {
                raw
            }
        }
}

/// A movie box with a further track and new metadata.
pub open spec fn rebuilt_moov(s: Seq<u8>, track: Seq<u8>, meta: Seq<u8>, new_track: u32) -> Option<
    Result<Seq<u8>, Seq<char>>,
> {
    match mov_boxes(s, 8, s.len() as int) {
        None => None,
        Some(Err(e)) => Some(Err(e)),
        Some(Ok(kids)) => Some(
            Ok(mov_bytes(MOOV@, flat(kids, moov_child(s, new_track + 1)) + track + meta)),
        ),
    }
}

/// Rebuild a movie box with a further track and new metadata; `None` where a size
/// exceeds the address range.
pub fn rebuild_moov(original: &[u8], metadata_track: &[u8], movie_meta: &[u8], new_track_id: u32) -> (r: Option<
    Result<Vec<u8>, String>,
>)
    requires
        original.len() >= 8,
        new_track_id < u32::MAX,
    ensures
        told_some(r) == rebuilt_moov(original@, metadata_track@, movie_meta@, new_track_id),
{
    let kids: Vec<MovBox> = match scan_boxes(original, 8, original.len()) {
        None => {
            return None;
        },
        Some(Err(e)) => {
            return Some(Err(e));
        },
        Some(Ok(v)) => v,
    };
    let ghost v = views(kids@);
    let ghost f = moov_child(original@, new_track_id + 1);
    let mut rebuilt: Vec<u8> = Vec::new();
    let mut i: usize = 0;
    assert(v.take(0) =~= Seq::empty());
    while i < kids.len()
        invariant
            i <= kids@.len(),
            v == views(kids@),
            f == moov_child(original@, new_track_id + 1),
            new_track_id < u32::MAX,
            all_within(v, original@.len() as int),
            rebuilt@ == flat(v.take(i as int), f),
        decreases kids@.len() - i,
    {
        let b: MovBox = kids[i];
        let total: usize = original.len();
        assert(v[i as int] == b@);
        assert(b@.within(total as int));
        let ghost before = rebuilt@;
        if same_tag(&b.kind, &META) {
            assert(f(b@) == Seq::<u8>::empty());
        } else if same_tag(&b.kind, &MVHD) {
            let end: usize = b.end();
            append(&mut rebuilt, vstd::slice::slice_subrange(original, b.offset, end - 4));
            push32(&mut rebuilt, new_track_id + 1);
            assert(MVHD@ != META@) by {
                assert(MVHD@[1] != META@[1]);
            }
            let ghost raw = original@.subrange(b.offset as int, end as int);
            assert(rebuilt@ =~= before + overwritten(raw, raw.len() - 4, enc32(new_track_id + 1)));
        } else {
            append(&mut rebuilt, vstd::slice::slice_subrange(original, b.offset, b.end()));
        }
        proof {
            lemma_flat_take(v, f, i as int);
        }
        assert(rebuilt@ =~= before + f(b@));
        i = i + 1;
    }
    assert(v.take(i as int) =~= v);
    append(&mut rebuilt, metadata_track);
    append(&mut rebuilt, movie_meta);
    Some(Ok(make_mov_box(&MOOV, rebuilt.as_slice())))
}

/// The number of the first video track from `i` on; 1 where there is none or where its
/// number cannot be read.
pub open spec fn video_number(s: Seq<u8>, tracks: Seq<MovView>, i: int) -> Option<u32>
    decreases tracks.len() - i,
{
    if i < 0 || i >= tracks.len() {
        Some(1)
    } else {
        match video_track(s, tracks[i]) {
            None => None,
            Some(false) => video_number(s, tracks, i + 1),
            Some(true) => match track_number(s, tracks[i]) {
                None => None,
                Some(Err(_)) => Some(1),
                Some(Ok(n)) => Some(n),
            },
        }
    }
}

/// The largest number of the tracks from `i` on and `max`.
pub open spec fn largest_track(s: Seq<u8>, tracks: Seq<MovView>, i: int, max: u32) -> Option<
    Result<u32, Seq<char>>,
>
    decreases tracks.len() - i,
{
    if i < 0 || i >= tracks.len() {
        Some(Ok(max))
    } else {
        match track_number(s, tracks[i]) {
            None => None,
            Some(Err(e)) => Some(Err(e)),
            Some(Ok(n)) => largest_track(
                s,
                tracks,
                i + 1,
                if n > max {
                    n
                } else {
                    max
                },
            ),
        }
    }
}

/// The boxes of a type.
pub(crate) fn filter_mov(boxes: &Vec<MovBox>, kind: &[u8; 4], Ghost(end): Ghost<int>) -> (r: Vec<MovBox>)
    requires
        all_within(views(boxes@), end),
    ensures
        views(r@) == views(boxes@).filter(mov_typed(kind@)),
        all_within(views(r@), end),
{
    let ghost v = views(boxes@);
    let ghost p = mov_typed(kind@);
    let mut out: Vec<MovBox> = Vec::new();
    let mut i: usize = 0;
    proof {
        lemma_filter_none(v, p);
        assert(views(out@) =~= v.take(0).filter(p));
    }
    while i < boxes.len()
        invariant
            i <= boxes@.len(),
            v == views(boxes@),
            p == mov_typed(kind@),
            all_within(v, end),
            all_within(views(out@), end),
            views(out@) == v.take(i as int).filter(p),
        decreases boxes@.len() - i,
    {
        proof {
            lemma_filter_take(v, p, i as int);
        }
        let b: MovBox = boxes[i];
        assert(v[i as int] == b@);
        if same_tag(&b.kind, kind) {
            let ghost before = views(out@);
            out.push(b);
            assert(views(out@) =~= before.push(b@));
        }
        i = i + 1;
    }
    assert(v.take(i as int) =~= v);
    out
}

fn find_video_number(moov: &[u8], tracks: &Vec<MovBox>) -> (r: Option<u32>)
    requires
        all_within(views(tracks@), moov.len() as int),
    ensures
        r == video_number(moov@, views(tracks@), 0),
{
    let ghost v = views(tracks@);
    let mut i: usize = 0;
    while i < tracks.len()
        invariant
            i <= tracks@.len(),
            v == views(tracks@),
            all_within(v, moov@.len() as int),
            video_number(moov@, v, 0) == video_number(moov@, v, i as int),
        decreases tracks@.len() - i,
    {
        let t: &MovBox = &tracks[i];
        assert(v[i as int] == t@);
        match is_video_track(moov, t) {
            None => {
                return None;
            },
            Some(true) => {
                match track_id(moov, t) {
                    None => {
                        return None;
                    },
                    Some(Err(_)) => {
                        return Some(1);
                    },
                    Some(Ok(n)) => {
                        return Some(n);
                    },
                }
            },
            Some(false) => {},
        }
        i = i + 1;
    }
    Some(1)
}

fn find_largest_track(moov: &[u8], tracks: &Vec<MovBox>) -> (r: Option<Result<u32, String>>)
    requires
        all_within(views(tracks@), moov.len() as int),
    ensures
        said_some(r) == largest_track(moov@, views(tracks@), 0, 0),
{
    let ghost v = views(tracks@);
    let mut max: u32 = 0;
    let mut i: usize = 0;
    while i < tracks.len()
        invariant
            i <= tracks@.len(),
            v == views(tracks@),
            all_within(v, moov@.len() as int),
            largest_track(moov@, v, 0, 0) == largest_track(moov@, v, i as int, max),
        decreases tracks@.len() - i,
    {
        let t: &MovBox = &tracks[i];
        assert(v[i as int] == t@);
        match track_id(moov, t) {
            None => {
                return None;
            },
            Some(Err(e)) => {
                return Some(Err(e));
            },
            Some(Ok(n)) => {
                if n > max {
                    max = n;
                }
            },
        }
        i = i + 1;
    }
    Some(Ok(max))
}

/// A free box that is exactly as long as the box of `size` bytes that it replaces.
pub open spec fn free_bytes(size: int) -> Seq<u8> {
    if size <= 0xffff_ffff {
        enc32(size) + FREE@ + zeros((size - 8) as nat)
    } else {
        enc32(1) + FREE@ + enc64(size) + zeros((size - 16) as nat)
    }
}

/// What becomes of a box of the source: the movie box gives way to a free box of the
/// same size, the file type gets the QuickTime brand, and everything else stays.
pub open spec fn rewritten_box(s: Seq<u8>) -> spec_fn(MovView) -> Seq<u8> {
    |b: MovView|
        {
            let raw = s.subrange(b.offset, b.end());
            if b.kind == MOOV@ {
                free_bytes(b.size)
            } else if b.kind == FTYP@ {
                overwritten(raw, b.header_size, BRAND_QT@)
            } else {
                raw
            }
        }
}

/// How a Live Photo movie is marked: the still's place in movie ticks, the seconds
/// since the epoch of Unix, and the transform of the still.
pub struct MovieMark {
    pub empty_duration: u32,
    pub unix_seconds: u64,
    pub transform: Option<Vec<u8>>,
    pub dimensions: Option<Vec<u8>>,
}

/// How a Live Photo movie is marked.
#[verifier::ext_equal]
pub struct MarkView {
    pub empty_duration: u32,
    pub unix_seconds: u64,
    pub transform: Option<Seq<u8>>,
    pub dimensions: Option<Seq<u8>>,
}

impl View for MovieMark {
    type V = MarkView;

    open spec fn view(&self) -> MarkView {
        MarkView {
            empty_duration: self.empty_duration,
            unix_seconds: self.unix_seconds,
            transform: opt_bytes(self.transform),
            dimensions: opt_bytes(self.dimensions),
        }
    }
}

/// The boxes of a source movie and the place of its only movie box, or why it cannot
/// be used.
pub open spec fn source_boxes(s: Seq<u8>) -> Option<Result<(Seq<MovView>, MovView), Seq<char>>> {
    match mov_boxes(s, 0, s.len() as int) {
        None => None,
        Some(Err(e)) => Some(Err(e)),
        Some(Ok(top)) => {
            let ftyps = top.filter(mov_typed(FTYP@));
            let moovs = top.filter(mov_typed(MOOV@));
            if ftyps.len() != 1 || moovs.len() != 1 {
                Some(Err("source video must contain exactly one ftyp and one moov"@))
            } else if ftyps[0].size < ftyps[0].header_size + 8 {
                Some(Err("source ftyp is too small"@))
            } else {
                Some(Ok((top, moovs[0])))
            }
        },
    }
}

/// What the movie box says of its tracks: the time scale, the video track and the
/// largest track number.
pub open spec fn movie_tracks(moov: Seq<u8>) -> Option<Result<(u32, u32, u32), Seq<char>>> {
    match movie_clock(moov) {
        None => None,
        Some(Err(e)) => Some(Err(e)),
        Some(Ok(clock)) => match mov_boxes(moov, 8, moov.len() as int) {
            None => None,
            Some(Err(e)) => Some(Err(e)),
            Some(Ok(kids)) => {
                let tracks = kids.filter(mov_typed(TRAK@));
                match video_number(moov, tracks, 0) {
                    None => None,
                    Some(video) => match largest_track(moov, tracks, 0, 0) {
                        None => None,
                        Some(Err(e)) => Some(Err(e)),
                        Some(Ok(largest)) => Some(Ok((clock.0, video, largest))),
                    },
                }
            },
        },
    }
}

/// The marker of a movie of `len` bytes.
pub open spec fn marker_for(len: int, tracks: (u32, u32, u32), m: MarkView) -> MarkerView {
    MarkerView {
        track_id: (tracks.2 + 1) as u32,
        video_track_id: tracks.1,
        movie_timescale: tracks.0,
        empty_duration: m.empty_duration,
        chunk_offset: (len + 8) as u64,
        timestamp: (m.unix_seconds + QUICKTIME_EPOCH_OFFSET) as u64,
        transform: m.transform,
        dimensions: m.dimensions,
    }
}

/// A movie for a Live Photo: the source with its movie box set free, the sample of the
/// marker track, and the new movie box.
pub open spec fn live_bytes(s: Seq<u8>, top: Seq<MovView>, sample: Seq<u8>, moov: Seq<u8>) -> Seq<u8> {
    flat(top, rewritten_box(s)) + mov_bytes(MDAT@, sample) + moov
}

/// The movie half of a Live Photo, or why there is none. `None` where a box is cut
/// short by the end of the data or a number does not fit.
pub open spec fn live_movie(s: Seq<u8>, id: Seq<char>, m: MarkView) -> Option<
    Result<Seq<u8>, Seq<char>>,
> {
    match source_boxes(s) {
        None => None,
        Some(Err(e)) => Some(Err(e)),
        Some(Ok((top, b))) => {
            let moov = s.subrange(b.offset, b.end());
            match movie_tracks(moov) {
                None => None,
                Some(Err(e)) => Some(Err(e)),
                Some(Ok(tracks)) => if tracks.2 == u32::MAX || m.empty_duration + marker_len(
                    tracks.0,
                ) > u32::MAX || m.unix_seconds + QUICKTIME_EPOCH_OFFSET > u64::MAX || s.len() + 8
                    > u64::MAX {
                    None
                } else {
                    let marker = marker_for(s.len() as int, tracks, m);
                    match movie_meta(id) {
                        Err(e) => Some(Err(e)),
                        Ok(meta) => if marker.track_id == u32::MAX {
                            None
                        } else {
                            match rebuilt_moov(moov, marker_track(marker), meta, marker.track_id) {
                                None => None,
                                Some(Err(e)) => Some(Err(e)),
                                Some(Ok(new)) => Some(
                                    Ok(
                                        live_bytes(
                                            s,
                                            top,
                                            marker_sample(m.transform, m.dimensions),
                                            new,
                                        ),
                                    ),
                                ),
                            }
                        },
                    }
                },
            }
        },
    }
}

/// What a result with the boxes of a source says.
pub open spec fn told_source(r: Option<Result<(Vec<MovBox>, MovBox), String>>) -> Option<
    Result<(Seq<MovView>, MovView), Seq<char>>,
> {
    match r {
        None => None,
        Some(Err(e)) => Some(Err(e@)),
        Some(Ok((top, b))) => Some(Ok((views(top@), b@))),
    }
}

/// Whether every file type box has room for a brand and a version.
pub open spec fn ftyp_roomy(top: Seq<MovView>) -> bool {
    forall|i: int|
        0 <= i < top.len() && (#[trigger] top[i]).kind == FTYP@ ==> top[i].size
            >= top[i].header_size + 8
}

fn find_source_boxes(source: &[u8]) -> (r: Option<Result<(Vec<MovBox>, MovBox), String>>)
    ensures
        told_source(r) == source_boxes(source@),
        r matches Some(Ok(x)) ==> all_within(views(x.0@), source@.len() as int) && x.1@.within(
            source@.len() as int,
        ) && ftyp_roomy(views(x.0@)),
{
    let top: Vec<MovBox> = match scan_boxes(source, 0, source.len()) {
        None => {
            return None;
        },
        Some(Err(e)) => {
            return Some(Err(e));
        },
        Some(Ok(v)) => v,
    };
    let ftyps: Vec<MovBox> = filter_mov(&top, &FTYP, Ghost(source@.len() as int));
    let moovs: Vec<MovBox> = filter_mov(&top, &MOOV, Ghost(source@.len() as int));
    assert(views(ftyps@).len() == ftyps@.len());
    assert(views(moovs@).len() == moovs@.len());
    if ftyps.len() != 1 || moovs.len() != 1 {
        return Some(Err("source video must contain exactly one ftyp and one moov".to_string()));
    }
    assert(views(ftyps@)[0] == ftyps@[0]@);
    assert(views(moovs@)[0] == moovs@[0]@);
    assert(views(ftyps@)[0].within(source@.len() as int));
    assert(views(moovs@)[0].within(source@.len() as int));
    if ftyps[0].size < ftyps[0].header_size + 8 {
        return Some(Err("source ftyp is too small".to_string()));
    }
    proof {
        let v = views(top@);
        let p = mov_typed(FTYP@);
        assert forall|i: int| 0 <= i < v.len() && (#[trigger] v[i]).kind == FTYP@ implies v[i].size
            >= v[i].header_size + 8 by {
            lemma_filter_holds(v, p, i);
        }
    }
    let moov: MovBox = moovs[0];
    Some(Ok((top, moov)))
}

/// An element with the property is picked.
proof fn lemma_filter_holds<T>(s: Seq<T>, p: spec_fn(T) -> bool, i: int)
    requires
        0 <= i < s.len(),
        p(s[i]),
    ensures
        s.filter(p).contains(s[i]),
    decreases s.len(),
{
    reveal(Seq::filter);
    let t = s.drop_last();
    if i < t.len() {
        lemma_filter_holds(t, p, i);
        let k = choose|k: int| 0 <= k < t.filter(p).len() && t.filter(p)[k] == t[i];
        assert(s.filter(p)[k] == s[i]);
    } else {
        assert(s.filter(p)[t.filter(p).len() as int] == s[i]);
    }
}

/// Read the time scale of a source movie, which the place of the still is counted in;
/// `None` where a box is cut short by the end of the data.
pub fn source_timescale(source: &[u8]) -> (r: Option<Result<u32, String>>)
    ensures
        said_some(r) == match source_boxes(source@) {
            None => None,
            Some(Err(e)) => Some(Err(e)),
            Some(Ok((_, b))) => match movie_clock(source@.subrange(b.offset, b.end())) {
                None => None,
                Some(Err(e)) => Some(Err(e)),
                Some(Ok(clock)) => Some(Ok(clock.0)),
            },
        },
{
    let total: usize = source.len();
    let (_top, b): (Vec<MovBox>, MovBox) = match find_source_boxes(source) {
        None => {
            return None;
        },
        Some(Err(e)) => {
            return Some(Err(e));
        },
        Some(Ok(x)) => x,
    };
    assert(b@.within(total as int));
    match movie_timescale(vstd::slice::slice_subrange(source, b.offset, b.end())) {
        None => None,
        Some(Err(e)) => Some(Err(e)),
        Some(Ok((scale, _))) => Some(Ok(scale)),
    }
}

fn find_movie_tracks(moov: &[u8]) -> (r: Option<Result<(u32, u32, u32), String>>)
    requires
        moov.len() >= 8,
    ensures
        said_some(r) == movie_tracks(moov@),
{
    let (scale, _): (u32, u64) = match movie_timescale(moov) {
        None => {
            return None;
        },
        Some(Err(e)) => {
            return Some(Err(e));
        },
        Some(Ok(c)) => c,
    };
    let kids: Vec<MovBox> = match scan_boxes(moov, 8, moov.len()) {
        None => {
            return None;
        },
        Some(Err(e)) => {
            return Some(Err(e));
        },
        Some(Ok(v)) => v,
    };
    let tracks: Vec<MovBox> = filter_mov(&kids, &TRAK, Ghost(moov@.len() as int));
    let video: u32 = match find_video_number(moov, &tracks) {
        None => {
            return None;
        },
        Some(n) => n,
    };
    match find_largest_track(moov, &tracks) {
        None => None,
        Some(Err(e)) => Some(Err(e)),
        Some(Ok(largest)) => Some(Ok((scale, video, largest))),
    }
}

fn push_free(out: &mut Vec<u8>, size: usize)
    requires
        size >= 8,
    ensures
        final(out)@ == old(out)@ + free_bytes(size as int),
{
    let ghost before = out@;
    if size as u64 <= 0xffff_ffff {
        push32(out, size as u32);
        append(out, FREE.as_slice());
        append_zeros(out, size - 8);
    } else {
        push32(out, 1);
        append(out, FREE.as_slice());
        push64(out, size as u64);
        append_zeros(out, size - 16);
    }
    assert(out@ =~= before + free_bytes(size as int));
}

fn rewrite_boxes(source: &[u8], top: &Vec<MovBox>) -> (r: Vec<u8>)
    requires
        all_within(views(top@), source.len() as int),
        ftyp_roomy(views(top@)),
    ensures
        r@ == flat(views(top@), rewritten_box(source@)),
{
    let ghost v = views(top@);
    let ghost f = rewritten_box(source@);
    let mut out: Vec<u8> = Vec::new();
    let mut i: usize = 0;
    assert(v.take(0) =~= Seq::empty());
    while i < top.len()
        invariant
            i <= top@.len(),
            v == views(top@),
            f == rewritten_box(source@),
            all_within(v, source@.len() as int),
            ftyp_roomy(v),
            out@ == flat(v.take(i as int), f),
        decreases top@.len() - i,
    {
        let b: MovBox = top[i];
        let total: usize = source.len();
        assert(v[i as int] == b@);
        assert(b@.within(total as int));
        let ghost before = out@;
        if same_tag(&b.kind, &MOOV) {
            push_free(&mut out, b.size);
        } else if same_tag(&b.kind, &FTYP) {
            let at: usize = b.payload_offset();
            append(&mut out, vstd::slice::slice_subrange(source, b.offset, at));
            append(&mut out, BRAND_QT.as_slice());
            append(&mut out, vstd::slice::slice_subrange(source, at + 8, b.end()));
            assert(FTYP@ != MOOV@) by {
                assert(FTYP@[0] != MOOV@[0]);
            }
            let ghost raw = source@.subrange(b.offset as int, b@.end());
            assert(out@ =~= before + overwritten(raw, b.header_size as int, BRAND_QT@));
        } else {
            append(&mut out, vstd::slice::slice_subrange(source, b.offset, b.end()));
        }
        proof {
            lemma_flat_take(v, f, i as int);
        }
        assert(out@ =~= before + f(b@));
        i = i + 1;
    }
    assert(v.take(i as int) =~= v);
    out
}

/// Like `write_live_photo_movie`, for any source.
pub fn try_write_live_photo_movie(source: &[u8], content_identifier: &str, mark: MovieMark) -> (r: Option<
    Result<Vec<u8>, String>,
>)
    ensures
        told_some(r) == live_movie(source@, content_identifier@, mark@),
{
    let total: usize = source.len();
    let (top, b): (Vec<MovBox>, MovBox) = match find_source_boxes(source) {
        None => {
            return None;
        },
        Some(Err(e)) => {
            return Some(Err(e));
        },
        Some(Ok(x)) => x,
    };
    assert(b@.within(total as int));
    let original: &[u8] = vstd::slice::slice_subrange(source, b.offset, b.end());
    let (scale, video, largest): (u32, u32, u32) = match find_movie_tracks(original) {
        None => {
            return None;
        },
        Some(Err(e)) => {
            return Some(Err(e));
        },
        Some(Ok(x)) => x,
    };
    let marker_ticks: u32 = marker_duration(scale);
    if largest == u32::MAX || mark.empty_duration > u32::MAX - marker_ticks || mark.unix_seconds
        > u64::MAX - QUICKTIME_EPOCH_OFFSET || source.len() as u64 > u64::MAX - 8 {
        return None;
    }
    let ghost mv = mark@;
    let marker: Marker = Marker {
        track_id: largest + 1,
        video_track_id: video,
        movie_timescale: scale,
        empty_duration: mark.empty_duration,
        chunk_offset: source.len() as u64 + 8,
        timestamp: mark.unix_seconds + QUICKTIME_EPOCH_OFFSET,
        transform: mark.transform,
        dimensions: mark.dimensions,
    };
    assert(marker@ =~= marker_for(source@.len() as int, (scale, video, largest), mv));
    let (track, sample): (Vec<u8>, Vec<u8>) = metadata_track(&marker);
    let meta: Vec<u8> = match movie_metadata(content_identifier) {
        Err(e) => {
            return Some(Err(e));
        },
        Ok(m) => m,
    };
    if marker.track_id == u32::MAX {
        return None;
    }
    let new_moov: Vec<u8> = match rebuild_moov(
        original,
        track.as_slice(),
        meta.as_slice(),
        marker.track_id,
    ) {
        None => {
            return None;
        },
        Some(Err(e)) => {
            return Some(Err(e));
        },
        Some(Ok(m)) => m,
    };
    let mut out: Vec<u8> = rewrite_boxes(source, &top);
    append(&mut out, make_mov_box(&MDAT, sample.as_slice()).as_slice());
    append(&mut out, new_moov.as_slice());
    Some(Ok(out))
}

/// Rewrite a Motion Photo video as the movie half of a Live Photo pair. The media
/// bytes of the source keep their places: the old movie box gives way to a free box of
/// the same size, and the new one is appended behind the marker sample.
pub fn write_live_photo_movie(source: &[u8], content_identifier: &str, mark: MovieMark) -> (r: Result<
    Vec<u8>,
    String,
>)
    requires
        live_movie(source@, content_identifier@, mark@) is Some,
    ensures
        Some(told(r)) == live_movie(source@, content_identifier@, mark@),
{
    try_write_live_photo_movie(source, content_identifier, mark).unwrap()
}

} // verus!
