//! Live Photo pairs: a still and a movie that share a content identifier.

use crate::bytes::{
    append, be32, bytes_eq, copy_range, enc32, find_bytes, find_from, int16, int32,
    lemma_find_from_some, lower, lower_byte, matches_at, occurs_at, overwrite, overwritten, push32,
    push32_low, put32, read16, read32, starts_with,
};
use crate::fourcc::{DATA, ILST, KEYS, MDTA, META, MOOV, TRAK, same_tag};
use crate::isobmff_write::{
    exif_payload, try_install_exif_payload, try_read_exif_payload, with_exif,
};
use crate::live_movie::{CONTENT_IDENTIFIER_KEY, filter_mov};
use crate::makernote::{
    APPLE_NOTE, TAG_CONTENT_ID, exif_pointer, find_note_entry, injected, lemma_encoded_len,
    moved_entries, note_entry, note_entry_from, note_type_unit, paired_note, piece, stored_note,
};
use crate::quicktime::{
    MovView, TimesView, all_within, find_mov, is_video_track, mov_boxes, mov_typed, movie_clock,
    movie_timescale, presentation_times, sample_times, video_track,
};
use crate::seqs::{first_where, lemma_first_where_has, told, told_some, views};
use crate::text::{
    ascii_string, ascii_text, decode_lossy, lossy_text, opt_string, trim_text, trimmed,
};
use crate::tiff::{TIFF_II, get16, int16_at, tiff_little, tiff_mark_at, tiff_order};
use vstd::prelude::*;
use vstd::string::*;
use vstd::utf8::*;

pub use crate::live_movie::{
    metadata_track, movie_metadata, rebuild_moov, source_timescale, try_write_live_photo_movie,
    write_live_photo_movie, Marker, MovieMark,
};
pub use crate::makernote::{
    append_live_photo_entry, build_apple_makernote, inject_makernote, patch_makernote_inplace,
    read_makernote_bytes, read_tiff, try_append_live_photo_entry, try_patch_makernote_inplace,
    write_tiff, TiffEntry, TiffModel,
};
pub use crate::quicktime::{scan_boxes, MovBox, SampleTimes};

verus! {

// ---------------------------------------------------------------------------
// The cover frame
// ---------------------------------------------------------------------------

/// The times among which the cover frame is chosen, and the clock of the movie.
pub struct CoverTimes {
    pub samples: SampleTimes,
    pub movie_timescale: u32,
    pub movie_duration: u64,
}

/// What the times of a movie say.
#[verifier::ext_equal]
pub struct CoverView {
    pub samples: TimesView,
    pub movie_timescale: u32,
    pub movie_duration: u64,
}

impl View for CoverTimes {
    type V = CoverView;

    open spec fn view(&self) -> CoverView {
        CoverView {
            samples: self.samples@,
            movie_timescale: self.movie_timescale,
            movie_duration: self.movie_duration,
        }
    }
}

/// The first video track from `i` on, or `found`. `None` where the data ends within the
/// handler of a track.
pub open spec fn first_video(s: Seq<u8>, tracks: Seq<MovView>, i: int, found: Option<MovView>) -> Option<
    Option<MovView>,
>
    decreases tracks.len() - i,
{
    if i < 0 || i >= tracks.len() {
        Some(found)
    } else {
        match video_track(s, tracks[i]) {
            None => None,
            Some(v) => first_video(
                s,
                tracks,
                i + 1,
                if v && found is None {
                    Some(tracks[i])
                } else {
                    found
                },
            ),
        }
    }
}

/// The times of the video samples of a movie box.
pub open spec fn moov_times(moov: Seq<u8>) -> Option<Result<CoverView, Seq<char>>> {
    match movie_clock(moov) {
        None => None,
        Some(Err(e)) => Some(Err(e)),
        Some(Ok(clock)) => match mov_boxes(moov, 8, moov.len() as int) {
            None => None,
            Some(Err(e)) => Some(Err(e)),
            Some(Ok(kids)) => match first_video(moov, kids.filter(mov_typed(TRAK@)), 0, None) {
                None => None,
                Some(None) => Some(Err("embedded video contains no video track"@)),
                Some(Some(track)) => match presentation_times(moov, track) {
                    None => None,
                    Some(Err(e)) => Some(Err(e)),
                    Some(Ok(samples)) => Some(
                        Ok(
                            CoverView {
                                samples,
                                movie_timescale: clock.0,
                                movie_duration: clock.1,
                            },
                        ),
                    ),
                },
            },
        },
    }
}

/// The times among which the cover frame of a video is chosen, or why there are none.
/// `None` where a box is cut short by the end of the data or a size exceeds the address
/// range.
pub open spec fn cover_times(s: Seq<u8>) -> Option<Result<CoverView, Seq<char>>> {
    match mov_boxes(s, 0, s.len() as int) {
        None => None,
        Some(Err(e)) => Some(Err(e)),
        Some(Ok(top)) => {
            let moovs = top.filter(mov_typed(MOOV@));
            if moovs.len() != 1 {
                Some(Err("embedded video must contain exactly one moov box"@))
            } else {
                moov_times(s.subrange(moovs[0].offset, moovs[0].end()))
            }
        },
    }
}

fn find_first_video(moov: &[u8], tracks: &Vec<MovBox>) -> (r: Option<Option<MovBox>>)
    requires
        all_within(views(tracks@), moov.len() as int),
    ensures
        match r {
            None => first_video(moov@, views(tracks@), 0, None) is None,
            Some(None) => first_video(moov@, views(tracks@), 0, None) == Some(None::<MovView>),
            Some(Some(b)) => first_video(moov@, views(tracks@), 0, None) == Some(Some(b@)) && b@.within(
                moov@.len() as int,
            ),
        },
{
    let ghost v = views(tracks@);
    let mut found: Option<MovBox> = None;
    let mut i: usize = 0;
    while i < tracks.len()
        invariant
            i <= tracks@.len(),
            v == views(tracks@),
            all_within(v, moov@.len() as int),
            found matches Some(b) ==> b@.within(moov@.len() as int),
            first_video(moov@, v, 0, None) == first_video(
                moov@,
                v,
                i as int,
                match found {
                    Some(b) => Some(b@),
                    None => None,
                },
            ),
        decreases tracks@.len() - i,
    {
        let t: MovBox = tracks[i];
        assert(v[i as int] == t@);
        match is_video_track(moov, &t) {
            None => {
                return None;
            },
            Some(yes) => {
                if yes && found.is_none() {
                    found = Some(t);
                }
            },
        }
        i = i + 1;
    }
    Some(found)
}

fn read_moov_times(moov: &[u8]) -> (r: Option<Result<CoverTimes, String>>)
    requires
        moov.len() >= 8,
    ensures
        told_some(r) == moov_times(moov@),
        r matches Some(Ok(t)) ==> t.movie_timescale > 0 && t.samples.timescale > 0
            && t.samples.ticks@.len() > 0,
{
    let (movie_timescale, movie_duration): (u32, u64) = match movie_timescale(moov) {
        None => {
            return None;
        },
        Some(Err(e)) => {
            return Some(Err(e));
        },
        Some(Ok(c)) => c,
    };
    let kids: Vec<MovBox> = match scan_boxes(moov, 8, moov.len()) {
        None => {
            return None;
        },
        Some(Err(e)) => {
            return Some(Err(e));
        },
        Some(Ok(v)) => v,
    };
    let tracks: Vec<MovBox> = filter_mov(&kids, &TRAK, Ghost(moov@.len() as int));
    let track: MovBox = match find_first_video(moov, &tracks) {
        None => {
            return None;
        },
        Some(None) => {
            return Some(Err("embedded video contains no video track".to_string()));
        },
        Some(Some(t)) => t,
    };
    match sample_times(moov, &track) {
        None => None,
        Some(Err(e)) => Some(Err(e)),
        Some(Ok(samples)) => Some(Ok(CoverTimes { samples, movie_timescale, movie_duration })),
    }
}

/// Read the times among which the cover frame of a video is chosen: the presentation
/// times of the samples of the first video track. `None` where a box is cut short by
/// the end of the data or a size exceeds the address range.
pub fn read_cover_times(video: &[u8]) -> (r: Option<Result<CoverTimes, String>>)
    ensures
        told_some(r) == cover_times(video@),
        r matches Some(Ok(t)) ==> t.movie_timescale > 0 && t.samples.timescale > 0
            && t.samples.ticks@.len() > 0,
{
    let total: usize = video.len();
    let top: Vec<MovBox> = match scan_boxes(video, 0, total) {
        None => {
            return None;
        },
        Some(Err(e)) => {
            return Some(Err(e));
        },
        Some(Ok(v)) => v,
    };
    let moovs: Vec<MovBox> = filter_mov(&top, &MOOV, Ghost(total as int));
    assert(views(moovs@).len() == moovs@.len());
    if moovs.len() != 1 {
        return Some(Err("embedded video must contain exactly one moov box".to_string()));
    }
    assert(views(moovs@)[0] == moovs@[0]@);
    assert(views(moovs@)[0].within(total as int));
    read_moov_times(vstd::slice::slice_subrange(video, moovs[0].offset, moovs[0].end()))
}

// ---------------------------------------------------------------------------
// The still
// ---------------------------------------------------------------------------

/// The marker `Exif` and two zero bytes.
pub const EXIF_MARKER: [u8; 6] = [0x45, 0x78, 0x69, 0x66, 0x00, 0x00];

/// What precedes the TIFF data in a new Exif item: an offset of six and the marker.
pub const EXIF_PREFIX: [u8; 10] = [0x00, 0x00, 0x00, 0x06, 0x45, 0x78, 0x69, 0x66, 0x00, 0x00];

/// Where the TIFF data begins in an Exif item; `None` where the item is too short to
/// hold any.
pub open spec fn tiff_start(payload: Seq<u8>) -> Option<int> {
    if tiff_mark_at(payload, 0) {
        Some(0)
    } else if occurs_at(payload, EXIF_MARKER@, 4) {
        Some(10)
    } else if payload.len() >= 4 {
        Some(4)
    } else {
        None
    }
}

fn find_tiff_start(payload: &[u8]) -> (r: Option<usize>)
    ensures
        match r {
            Some(p) => tiff_start(payload@) == Some(p as int) && p <= payload@.len(),
            None => tiff_start(payload@) is None,
        },
{
    if tiff_order(payload, 0).is_some() {
        Some(0)
    } else if matches_at(payload, EXIF_MARKER.as_slice(), 4) {
        Some(10)
    } else if payload.len() >= 4 {
        Some(4)
    } else {
        None
    }
}

/// TIFF data with its note replaced by a longer one: the bytes before and behind the
/// note stay, and the entry of the note at `e` counts its new length.
pub open spec fn spliced(tiff: Seq<u8>, at: int, note: Seq<u8>, new: Seq<u8>, e: int) -> Seq<u8> {
    overwritten(
        tiff.take(at) + new + tiff.skip(at + note.len()),
        e + 4,
        put32(new.len() as int, tiff_little(tiff, 0)),
    )
}

/// TIFF data that carries a content identifier: added to the Apple note where there is
/// one, else in a note of its own.
pub open spec fn paired_tiff(tiff: Seq<u8>, id: Seq<char>) -> Option<Result<Seq<u8>, Seq<char>>> {
    match stored_note(tiff) {
        None => None,
        Some(None) => Some(injected(tiff, id)),
        Some(Some(note)) => if !starts_with(note, APPLE_NOTE@) {
            Some(injected(tiff, id))
        } else {
            match paired_note(note, id) {
                None => None,
                Some(Err(e)) => Some(Err(e)),
                Some(Ok(new)) => Some(
                    Ok(
                        spliced(
                            tiff,
                            find_from(tiff, note, 0).unwrap(),
                            note,
                            new,
                            note_entry(tiff, tiff_little(tiff, 0)).unwrap().unwrap(),
                        ),
                    ),
                ),
            }
        },
    }
}

proof fn lemma_note_entry_within(s: Seq<u8>, ifd: int, count: int, k: int, little: bool)
    ensures
        note_entry_from(s, ifd, count, k, little) matches Some(Some(e)) ==> 0 <= e,
    decreases count - k,
{
    if k < count {
        lemma_note_entry_within(s, ifd, count, k + 1, little);
    }
}

/// A note that was read stands in the data, and its entry lies before the end.
proof fn lemma_note_stands(tiff: Seq<u8>)
    ensures
        stored_note(tiff) matches Some(Some(note)) ==> {
            &&& find_from(tiff, note, 0) is Some
            &&& note_entry(tiff, tiff_little(tiff, 0)) matches Some(Some(e))
            &&& 0 <= e && e + 12 <= tiff.len()
        },
{
    if let Some(Some(note)) = stored_note(tiff) {
        let little = tiff_little(tiff, 0);
        let e = note_entry(tiff, little).unwrap().unwrap();
        let kind = int16(tiff, e + 2, little);
        let size = int32(tiff, e + 4, little) * note_type_unit(kind).unwrap();
        let at = if size > 4 {
            int32(tiff, e + 8, little)
        } else {
            e + 8
        };
        let ifd = exif_pointer(tiff, little).unwrap().unwrap();
        lemma_note_entry_within(tiff, ifd, int16(tiff, ifd, little), 0, little);
        assert(piece(tiff, at, size) == Some(note));
        assert(occurs_at(tiff, note, at));
        lemma_find_from_some(tiff, note, 0);
    }
}

fn splice_note(tiff: &[u8], at: usize, note: &[u8], new: &[u8], e: usize) -> (r: Vec<u8>)
    requires
        occurs_at(tiff@, note@, at as int),
        new@.len() >= note@.len(),
        e + 12 <= tiff@.len(),
    ensures
        r@ == spliced(tiff@, at as int, note@, new@, e as int),
{
    let little: bool = matches_at(tiff, TIFF_II.as_slice(), 0);
    let total: usize = tiff.len();
    let mut out: Vec<u8> = copy_range(tiff, 0, at);
    append(&mut out, new);
    append(&mut out, vstd::slice::slice_subrange(tiff, at + note.len(), total));
    assert(out@ =~= tiff@.take(at as int) + new@ + tiff@.skip(at + note@.len()));
    let mut count: Vec<u8> = Vec::new();
    push32_low(&mut count, new.len() as u64, little);
    assert(count@ =~= put32(new@.len() as int, little));
    overwrite(out.as_mut_slice(), e + 4, count.as_slice());
    out
}

fn pair_tiff(tiff: &[u8], content_identifier: &str) -> (r: Option<Result<Vec<u8>, String>>)
    ensures
        told_some(r) == paired_tiff(tiff@, content_identifier@),
{
    proof {
        lemma_note_stands(tiff@);
    }
    let note: &[u8] = match read_makernote_bytes(tiff) {
        None => {
            return None;
        },
        Some(None) => {
            return Some(inject_makernote(tiff, content_identifier));
        },
        Some(Some(n)) => n,
    };
    if !matches_at(note, APPLE_NOTE.as_slice(), 0) {
        return Some(inject_makernote(tiff, content_identifier));
    }
    let patched: Vec<u8> = match try_append_live_photo_entry(note, content_identifier) {
        None => {
            return None;
        },
        Some(Err(e)) => {
            return Some(Err(e));
        },
        Some(Ok(n)) => n,
    };
    proof {
        lemma_longer_note(note@, content_identifier@);
    }
    let little: bool = matches_at(tiff, TIFF_II.as_slice(), 0);
    let at: usize = find_bytes(tiff, note, 0).unwrap();
    let e: usize = find_note_entry(tiff, little).unwrap().unwrap();
    Some(Ok(splice_note(tiff, at, note, patched.as_slice(), e)))
}

/// A note only grows by a content identifier.
proof fn lemma_longer_note(note: Seq<u8>, id: Seq<char>)
    ensures
        paired_note(note, id) matches Some(Ok(new)) ==> new.len() > note.len(),
{
    if let Some(Ok(new)) = paired_note(note, id) {
        let little = tiff_little(note, 12);
        lemma_moved_len(note, int16(note, 14, little) as nat, little);
    }
}

proof fn lemma_moved_len(note: Seq<u8>, n: nat, little: bool)
    requires
        16 + 12 * n <= note.len(),
    ensures
        moved_entries(note, n, little).len() == 12 * n,
    decreases n,
{
    if n > 0 {
        lemma_moved_len(note, (n - 1) as nat, little);
    }
}

/// A still that carries a content identifier, or why there is none. `None` where its
/// metadata or its Exif data is cut short, or where a number does not fit.
pub open spec fn paired_still(s: Seq<u8>, id: Seq<char>) -> Option<Result<Seq<u8>, Seq<char>>> {
    match exif_payload(s) {
        None => None,
        Some(Err(e)) => Some(Err(e)),
        Some(Ok(None)) => Some(Err("converted still has no Exif item; cannot pair Live Photo"@)),
        Some(Ok(Some(payload))) => match tiff_start(payload) {
            None => Some(Err("still Exif item payload is too short"@)),
            Some(p) => match paired_tiff(payload.skip(p), id) {
                None => None,
                Some(Err(e)) => Some(Err(e)),
                Some(Ok(tiff)) => match with_exif(s, EXIF_PREFIX@ + tiff) {
                    None => None,
                    Some(Err(e)) => Some(Err(e)),
                    Some(Ok(None)) => Some(
                        Err("failed to write the Live Photo MakerNote into the still"@),
                    ),
                    Some(Ok(Some(new))) => Some(Ok(new)),
                },
            },
        },
    }
}

/// Like `pair_still`, for any file.
pub fn try_pair_still(still_heic: &[u8], content_identifier: &str) -> (r: Option<
    Result<Vec<u8>, String>,
>)
    ensures
        told_some(r) == paired_still(still_heic@, content_identifier@),
{
    let payload: Vec<u8> = match try_read_exif_payload(still_heic) {
        None => {
            return None;
        },
        Some(Err(e)) => {
            return Some(Err(e));
        },
        Some(Ok(None)) => {
            return Some(
                Err("converted still has no Exif item; cannot pair Live Photo".to_string()),
            );
        },
        Some(Ok(Some(p))) => p,
    };
    let start: usize = match find_tiff_start(payload.as_slice()) {
        None => {
            return Some(Err("still Exif item payload is too short".to_string()));
        },
        Some(p) => p,
    };
    let old_tiff: &[u8] = vstd::slice::slice_subrange(payload.as_slice(), start, payload.len());
    assert(old_tiff@ =~= payload@.skip(start as int));
    let tiff: Vec<u8> = match pair_tiff(old_tiff, content_identifier) {
        None => {
            return None;
        },
        Some(Err(e)) => {
            return Some(Err(e));
        },
        Some(Ok(t)) => t,
    };
    let mut new_payload: Vec<u8> = Vec::new();
    append(&mut new_payload, EXIF_PREFIX.as_slice());
    append(&mut new_payload, tiff.as_slice());
    assert(new_payload@ =~= EXIF_PREFIX@ + tiff@);
    match try_install_exif_payload(still_heic, new_payload.as_slice()) {
        None => None,
        Some(Err(e)) => Some(Err(e)),
        Some(Ok(None)) => Some(
            Err("failed to write the Live Photo MakerNote into the still".to_string()),
        ),
        Some(Ok(Some(new))) => Some(Ok(new)),
    }
}

/// Put a content identifier into the Exif data of a still. An Apple note is extended,
/// so that the state of the styles editor stays; where there is none, a note of its own
/// is written.
pub fn pair_still(still_heic: &[u8], content_identifier: &str) -> (r: Result<Vec<u8>, String>)
    requires
        paired_still(still_heic@, content_identifier@) is Some,
    ensures
        Some(told(r)) == paired_still(still_heic@, content_identifier@),
{
    try_pair_still(still_heic, content_identifier).unwrap()
}

// ---------------------------------------------------------------------------
// Reading the identifiers
// ---------------------------------------------------------------------------

/// The identifier in the entries from number `k` on of an Apple note: an entry of at
/// least 36 bytes whose first 36, without white space around them, are not empty.
pub open spec fn note_id_from(note: Seq<u8>, count: int, k: int, little: bool) -> Option<Seq<char>>
    decreases count - k,
{
    let pos = 16 + 12 * k;
    if k >= count || pos + 12 > note.len() {
        None
    } else {
        let len = int32(note, pos + 4, little);
        let at = int32(note, pos + 8, little);
        if int16(note, pos, little) == TAG_CONTENT_ID && len >= 36 {
            match piece(note, at, len) {
                None => None,
                Some(v) => {
                    let text = trim_text(lossy_text(v.take(36)));
                    if text.len() > 0 {
                        Some(text)
                    } else {
                        note_id_from(note, count, k + 1, little)
                    }
                },
            }
        } else {
            note_id_from(note, count, k + 1, little)
        }
    }
}

/// The identifier in an Apple note.
pub open spec fn note_id(note: Seq<u8>) -> Option<Seq<char>> {
    let little = tiff_little(note, 12);
    if !starts_with(note, APPLE_NOTE@) {
        None
    } else {
        match int16_at(note, 14, little) {
            None => None,
            Some(count) => note_id_from(note, count, 0, little),
        }
    }
}

fn read_note_id(note: &[u8]) -> (r: Option<String>)
    ensures
        opt_string(r) == note_id(note@),
{
    if !matches_at(note, APPLE_NOTE.as_slice(), 0) {
        return None;
    }
    let little: bool = matches_at(note, TIFF_II.as_slice(), 12);
    let count: u16 = match get16(note, 0, 14, little) {
        None => {
            return None;
        },
        Some(n) => n,
    };
    let mut k: u16 = 0;
    let mut pos: usize = 16;
    let total: usize = note.len();
    while k < count
        invariant
            k <= count,
            pos == 16 + 12 * k,
            total == note@.len(),
            pos <= total,
            note_id(note@) == note_id_from(note@, count as int, k as int, little),
        decreases count - k,
    {
        if total - pos < 12 {
            return None;
        }
        let tag: u16 = read16(note, pos, little);
        let len: u32 = read32(note, pos + 4, little);
        let at: u32 = read32(note, pos + 8, little);
        if tag == TAG_CONTENT_ID && len >= 36 {
            if at as u64 + len as u64 > total as u64 {
                return None;
            }
            let v: &[u8] = vstd::slice::slice_subrange(note, at as usize, at as usize + 36);
            assert(v@ =~= note@.subrange(at as int, at + len).take(36));
            let text: String = trimmed(decode_lossy(v).as_str());
            proof {
                lemma_encoded_len(text@);
            }
            if text.as_str().as_bytes().len() > 0 {
                return Some(text);
            }
        }
        pos = pos + 12;
        k = k + 1;
    }
    None
}

/// The identifier in TIFF data.
pub open spec fn tiff_id(tiff: Seq<u8>) -> Option<Seq<char>> {
    match stored_note(tiff) {
        Some(Some(note)) => note_id(note),
        _ => None,
    }
}

/// The content identifier of a still, if it has one. `None` where the metadata is cut
/// short or where the Exif item has no room for a byte-order mark.
pub open spec fn still_id(s: Seq<u8>) -> Option<Option<Seq<char>>> {
    match exif_payload(s) {
        None => None,
        Some(Err(_)) => Some(None),
        Some(Ok(None)) => Some(None),
        Some(Ok(Some(payload))) => match tiff_start(payload) {
            None => None,
            Some(p) => {
                let tiff = payload.skip(p);
                if tiff.len() < 2 {
                    None
                } else if tiff.len() < 8 {
                    Some(None)
                } else {
                    Some(tiff_id(tiff))
                }
            },
        },
    }
}

/// Optional text by its view, where it could be read.
pub open spec fn opt_told(t: Option<Option<String>>) -> Option<Option<Seq<char>>> {
    match t {
        Some(x) => Some(opt_string(x)),
        None => None,
    }
}

/// Like `read_still_content_identifier`, for any file.
pub fn try_read_still_content_identifier(still_heic: &[u8]) -> (r: Option<Option<String>>)
    ensures
        opt_told(r) == still_id(still_heic@),
{
    let payload: Vec<u8> = match try_read_exif_payload(still_heic) {
        None => {
            return None;
        },
        Some(Err(_)) => {
            return Some(None);
        },
        Some(Ok(None)) => {
            return Some(None);
        },
        Some(Ok(Some(p))) => p,
    };
    let start: usize = match find_tiff_start(payload.as_slice()) {
        None => {
            return None;
        },
        Some(p) => p,
    };
    let tiff: &[u8] = vstd::slice::slice_subrange(payload.as_slice(), start, payload.len());
    assert(tiff@ =~= payload@.skip(start as int));
    if tiff.len() < 2 {
        return None;
    }
    if tiff.len() < 8 {
        return Some(None);
    }
    match read_makernote_bytes(tiff) {
        Some(Some(note)) => Some(read_note_id(note)),
        _ => Some(None),
    }
}

/// Read the content identifier from the Apple note of a still. `None` where there is no
/// such note or it holds no identifier.
pub fn read_still_content_identifier(still_heic: &[u8]) -> (r: Option<String>)
    requires
        still_id(still_heic@) is Some,
    ensures
        Some(opt_string(r)) == still_id(still_heic@),
{
    try_read_still_content_identifier(still_heic).unwrap()
}

/// The number of the last key from `index` on that names the content identifier, or
/// `found`; none where a key leaves the box.
pub open spec fn content_key(
    s: Seq<u8>,
    cursor: int,
    end: int,
    count: int,
    index: int,
    found: Option<int>,
) -> Option<int>
    decreases count + 1 - index,
{
    if index > count {
        found
    } else if cursor + 8 > end {
        None
    } else {
        let size = be32(s, cursor);
        if size < 8 || cursor + size > end {
            None
        } else {
            content_key(
                s,
                cursor + size,
                end,
                count,
                index + 1,
                if s.subrange(cursor + 4, cursor + 8) == MDTA@ && s.subrange(
                    cursor + 8,
                    cursor + size,
                ) == CONTENT_IDENTIFIER_KEY@ {
                    Some(index)
                } else {
                    found
                },
            )
        }
    }
}

/// The number of the content identifier among the keys of a `keys` box.
pub open spec fn content_index(s: Seq<u8>, keys: MovView) -> Option<int> {
    let cursor = keys.payload() + 4;
    if cursor + 4 > keys.end() {
        None
    } else {
        content_key(s, cursor + 4, keys.end(), be32(s, cursor), 1, None)
    }
}

/// What the search for a text came to.
pub enum Search {
    /// The data ends within a box.
    Cut,
    /// The data cannot be read.
    Unreadable,
    /// There is none here.
    Absent,
    /// The text.
    Found(Seq<char>),
}

/// The text in the first `data` box from `i` on that holds UTF-8.
pub open spec fn data_text(s: Seq<u8>, kids: Seq<MovView>, i: int) -> Search
    decreases kids.len() - i,
{
    if i < 0 || i >= kids.len() {
        Search::Absent
    } else {
        let b = kids[i];
        let p = b.payload();
        if b.kind == DATA@ && b.size >= 16 {
            if p + 4 > s.len() {
                Search::Cut
            } else if be32(s, p) == 1 {
                if p + 8 > b.end() {
                    Search::Cut
                } else {
                    Search::Found(trim_text(lossy_text(s.subrange(p + 8, b.end()))))
                }
            } else {
                data_text(s, kids, i + 1)
            }
        } else {
            data_text(s, kids, i + 1)
        }
    }
}

/// The text of the first item from `i` on that has the number `index` and a text.
pub open spec fn item_text(s: Seq<u8>, items: Seq<MovView>, index: int, i: int) -> Search
    decreases items.len() - i,
{
    if i < 0 || i >= items.len() {
        Search::Absent
    } else if items[i].kind != enc32(index) {
        item_text(s, items, index, i + 1)
    } else {
        match mov_boxes(s, items[i].payload(), items[i].end()) {
            None => Search::Cut,
            Some(Err(_)) => Search::Unreadable,
            Some(Ok(kids)) => match data_text(s, kids, 0) {
                Search::Absent => item_text(s, items, index, i + 1),
                found => found,
            },
        }
    }
}

/// What a search says: nothing where the data ends within a box, and no text where it
/// cannot be read.
pub open spec fn search_result(r: Search) -> Option<Option<Seq<char>>> {
    match r {
        Search::Cut => None,
        Search::Unreadable => Some(None),
        Search::Absent => Some(None),
        Search::Found(text) => Some(Some(text)),
    }
}

/// The content identifier among the keys and items of a metadata box.
pub open spec fn id_among(s: Seq<u8>, kids: Seq<MovView>) -> Option<Option<Seq<char>>> {
    match (first_where(kids, mov_typed(KEYS@)), first_where(kids, mov_typed(ILST@))) {
        (Some(keys), Some(ilst)) => match content_index(s, keys) {
            None => Some(None),
            Some(index) => match mov_boxes(s, ilst.payload(), ilst.end()) {
                None => None,
                Some(Err(_)) => Some(None),
                Some(Ok(items)) => search_result(item_text(s, items, index, 0)),
            },
        },
        _ => Some(None),
    }
}

/// The boxes in a metadata box, which is a plain box or has a version and flags.
pub open spec fn meta_kids(s: Seq<u8>, meta: MovView) -> Option<Result<Seq<MovView>, Seq<char>>> {
    match mov_boxes(s, meta.payload(), meta.end()) {
        Some(Err(_)) => mov_boxes(s, meta.payload() + 4, meta.end()),
        r => r,
    }
}

/// The content identifier in a movie box.
pub open spec fn moov_id(moov: Seq<u8>) -> Option<Option<Seq<char>>> {
    match mov_boxes(moov, 8, moov.len() as int) {
        None => None,
        Some(Err(_)) => Some(None),
        Some(Ok(kids)) => match first_where(kids, mov_typed(META@)) {
            None => Some(None),
            Some(meta) => match meta_kids(moov, meta) {
                None => None,
                Some(Err(_)) => Some(None),
                Some(Ok(kids)) => id_among(moov, kids),
            },
        },
    }
}

/// The content identifier of a movie, if it has one. `None` where the data ends within
/// a box or a size exceeds the address range.
pub open spec fn movie_id(s: Seq<u8>) -> Option<Option<Seq<char>>> {
    match mov_boxes(s, 0, s.len() as int) {
        None => None,
        Some(Err(_)) => Some(None),
        Some(Ok(top)) => match first_where(top, mov_typed(MOOV@)) {
            None => Some(None),
            Some(b) => moov_id(s.subrange(b.offset, b.end())),
        },
    }
}

fn find_content_index(moov: &[u8], keys: &MovBox) -> (r: Option<u32>)
    requires
        keys@.within(moov.len() as int),
    ensures
        match r {
            Some(i) => content_index(moov@, keys@) == Some(i as int),
            None => content_index(moov@, keys@) is None,
        },
{
    let end: usize = keys.end();
    let p: usize = keys.payload_offset();
    if end - p < 8 {
        return None;
    }
    let count: u32 = read32(moov, p + 4, false);
    let mut cursor: usize = p + 8;
    let mut found: Option<u32> = None;
    let mut index: u64 = 1;
    while index <= count as u64
        invariant
            1 <= index <= count + 1,
            cursor <= end <= moov@.len(),
            content_index(moov@, keys@) == content_key(
                moov@,
                cursor as int,
                end as int,
                count as int,
                index as int,
                match found {
                    Some(x) => Some(x as int),
                    None => None,
                },
            ),
        decreases count + 1 - index,
    {
        if end - cursor < 8 {
            return None;
        }
        let size: u32 = read32(moov, cursor, false);
        if size < 8 || size as u64 > (end - cursor) as u64 {
            return None;
        }
        let next: usize = cursor + size as usize;
        if bytes_eq(vstd::slice::slice_subrange(moov, cursor + 4, cursor + 8), MDTA.as_slice())
            && bytes_eq(
            vstd::slice::slice_subrange(moov, cursor + 8, next),
            CONTENT_IDENTIFIER_KEY.as_slice(),
        ) {
            found = Some(index as u32);
        }
        cursor = next;
        index = index + 1;
    }
    found
}

/// What a search came to.
enum Sought {
    Cut,
    Unreadable,
    Absent,
    Found(String),
}

impl View for Sought {
    type V = Search;

    closed spec fn view(&self) -> Search {
        match *self {
            Sought::Cut => Search::Cut,
            Sought::Unreadable => Search::Unreadable,
            Sought::Absent => Search::Absent,
            Sought::Found(s) => Search::Found(s@),
        }
    }
}

fn find_data_text(moov: &[u8], kids: &Vec<MovBox>) -> (r: Sought)
    requires
        all_within(views(kids@), moov.len() as int),
    ensures
        r@ == data_text(moov@, views(kids@), 0),
{
    let ghost v = views(kids@);
    let total: usize = moov.len();
    let mut i: usize = 0;
    while i < kids.len()
        invariant
            i <= kids@.len(),
            v == views(kids@),
            total == moov@.len(),
            all_within(v, total as int),
            data_text(moov@, v, 0) == data_text(moov@, v, i as int),
        decreases kids@.len() - i,
    {
        let b: MovBox = kids[i];
        assert(v[i as int] == b@);
        assert(b@.within(total as int));
        if same_tag(&b.kind, &DATA) && b.size >= 16 {
            let p: usize = b.payload_offset();
            if total - p < 4 {
                return Sought::Cut;
            }
            if read32(moov, p, false) == 1 {
                let end: usize = b.end();
                if end - p < 8 {
                    return Sought::Cut;
                }
                let raw: &[u8] = vstd::slice::slice_subrange(moov, p + 8, end);
                return Sought::Found(trimmed(decode_lossy(raw).as_str()));
            }
        }
        i = i + 1;
    }
    Sought::Absent
}

fn find_item_text(moov: &[u8], items: &Vec<MovBox>, index: u32) -> (r: Sought)
    requires
        all_within(views(items@), moov.len() as int),
    ensures
        r@ == item_text(moov@, views(items@), index as int, 0),
{
    let ghost v = views(items@);
    let total: usize = moov.len();
    let mut name: Vec<u8> = Vec::new();
    push32(&mut name, index);
    assert(name@ =~= enc32(index as int));
    let mut i: usize = 0;
    while i < items.len()
        invariant
            i <= items@.len(),
            v == views(items@),
            total == moov@.len(),
            all_within(v, total as int),
            name@ == enc32(index as int),
            item_text(moov@, v, index as int, 0) == item_text(moov@, v, index as int, i as int),
        decreases items@.len() - i,
    {
        let b: MovBox = items[i];
        assert(v[i as int] == b@);
        assert(b@.within(total as int));
        if bytes_eq(b.kind.as_slice(), name.as_slice()) {
            match scan_boxes(moov, b.payload_offset(), b.end()) {
                None => {
                    return Sought::Cut;
                },
                Some(Err(_)) => {
                    return Sought::Unreadable;
                },
                Some(Ok(kids)) => {
                    match find_data_text(moov, &kids) {
                        Sought::Absent => {},
                        found => {
                            return found;
                        },
                    }
                },
            }
        }
        i = i + 1;
    }
    Sought::Absent
}

fn find_id_among(moov: &[u8], kids: &Vec<MovBox>) -> (r: Option<Option<String>>)
    requires
        all_within(views(kids@), moov.len() as int),
    ensures
        opt_told(r) == id_among(moov@, views(kids@)),
{
    let total: usize = moov.len();
    proof {
        lemma_first_where_has(views(kids@), mov_typed(KEYS@));
        lemma_first_where_has(views(kids@), mov_typed(ILST@));
    }
    let keys: MovBox = match find_mov(kids, &KEYS) {
        None => {
            return Some(None);
        },
        Some(b) => *b,
    };
    let ilst: MovBox = match find_mov(kids, &ILST) {
        None => {
            return Some(None);
        },
        Some(b) => *b,
    };
    assert(keys@.within(total as int));
    assert(ilst@.within(total as int));
    let index: u32 = match find_content_index(moov, &keys) {
        None => {
            return Some(None);
        },
        Some(i) => i,
    };
    match scan_boxes(moov, ilst.payload_offset(), ilst.end()) {
        None => None,
        Some(Err(_)) => Some(None),
        Some(Ok(items)) => match find_item_text(moov, &items, index) {
            Sought::Cut => None,
            Sought::Unreadable => Some(None),
            Sought::Absent => Some(None),
            Sought::Found(text) => Some(Some(text)),
        },
    }
}

fn find_moov_id(moov: &[u8]) -> (r: Option<Option<String>>)
    requires
        moov.len() >= 8,
    ensures
        opt_told(r) == moov_id(moov@),
{
    let total: usize = moov.len();
    let kids: Vec<MovBox> = match scan_boxes(moov, 8, total) {
        None => {
            return None;
        },
        Some(Err(_)) => {
            return Some(None);
        },
        Some(Ok(v)) => v,
    };
    proof {
        lemma_first_where_has(views(kids@), mov_typed(META@));
    }
    let meta: MovBox = match find_mov(&kids, &META) {
        None => {
            return Some(None);
        },
        Some(b) => *b,
    };
    assert(meta@.within(total as int));
    let plain: Option<Result<Vec<MovBox>, String>> = scan_boxes(
        moov,
        meta.payload_offset(),
        meta.end(),
    );
    match plain {
        None => None,
        Some(Ok(inner)) => find_id_among(moov, &inner),
        Some(Err(_)) => {
            if meta.payload_offset() > usize::MAX - 4 {
                assert(mov_boxes(moov@, meta@.payload() + 4, meta@.end()) == Some(
                    Ok::<Seq<MovView>, Seq<char>>(Seq::empty()),
                ));
                return Some(None);
            }
            match scan_boxes(moov, meta.payload_offset() + 4, meta.end()) {
                None => None,
                Some(Err(_)) => Some(None),
                Some(Ok(inner)) => find_id_among(moov, &inner),
            }
        },
    }
}

/// Like `read_movie_content_identifier`, for any movie.
pub fn try_read_movie_content_identifier(mov: &[u8]) -> (r: Option<Option<String>>)
    ensures
        opt_told(r) == movie_id(mov@),
{
    let total: usize = mov.len();
    let top: Vec<MovBox> = match scan_boxes(mov, 0, total) {
        None => {
            return None;
        },
        Some(Err(_)) => {
            return Some(None);
        },
        Some(Ok(v)) => v,
    };
    proof {
        lemma_first_where_has(views(top@), mov_typed(MOOV@));
    }
    match find_mov(&top, &MOOV) {
        None => Some(None),
        Some(b) => {
            assert(b@.within(total as int));
            find_moov_id(vstd::slice::slice_subrange(mov, b.offset, b.end()))
        },
    }
}

/// Read the `com.apple.quicktime.content.identifier` of a movie.
pub fn read_movie_content_identifier(mov: &[u8]) -> (r: Option<String>)
    requires
        movie_id(mov@) is Some,
    ensures
        Some(opt_string(r)) == movie_id(mov@),
{
    try_read_movie_content_identifier(mov).unwrap()
}

// ---------------------------------------------------------------------------
// Pairs
// ---------------------------------------------------------------------------

/// Whether two texts differ in nothing but the case of ASCII letters.
pub open spec fn same_but_case(a: Seq<char>, b: Seq<char>) -> bool {
    let x = encode_utf8(a);
    let y = encode_utf8(b);
    x.len() == y.len() && forall|i: int| 0 <= i < x.len() ==> lower(#[trigger] x[i]) == lower(y[i])
}

/// Whether two texts differ in nothing but the case of ASCII letters.
pub fn equal_but_case(a: &str, b: &str) -> (r: bool)
    ensures
        r == same_but_case(a@, b@),
{
    let x: &[u8] = a.as_bytes();
    let y: &[u8] = b.as_bytes();
    if x.len() != y.len() {
        return false;
    }
    let mut i: usize = 0;
    while i < x.len()
        invariant
            i <= x@.len() == y@.len(),
            x@ == encode_utf8(a@),
            y@ == encode_utf8(b@),
            forall|j: int| 0 <= j < i ==> lower(#[trigger] x@[j]) == lower(y@[j]),
        decreases x@.len() - i,
    {
        if lower_byte(x[i]) != lower_byte(y[i]) {
            assert(lower(x@[i as int]) != lower(y@[i as int]));
            return false;
        }
        i = i + 1;
    }
    true
}

/// Whether a still and a movie carry the same content identifier. `None` where one of
/// them that has to be read is cut short.
pub open spec fn is_pair(still: Seq<u8>, mov: Seq<u8>) -> Option<bool> {
    match still_id(still) {
        None => None,
        Some(None) => Some(false),
        Some(Some(a)) => match movie_id(mov) {
            None => None,
            Some(None) => Some(false),
            Some(Some(b)) => Some(same_but_case(trim_text(a), trim_text(b))),
        },
    }
}

/// Like `existing_pair_is_valid`, for any files.
pub fn try_existing_pair_is_valid(still_heic: &[u8], mov: &[u8]) -> (r: Option<bool>)
    ensures
        r == is_pair(still_heic@, mov@),
{
    let still: String = match try_read_still_content_identifier(still_heic) {
        None => {
            return None;
        },
        Some(None) => {
            return Some(false);
        },
        Some(Some(s)) => s,
    };
    let movie: String = match try_read_movie_content_identifier(mov) {
        None => {
            return None;
        },
        Some(None) => {
            return Some(false);
        },
        Some(Some(s)) => s,
    };
    let a: String = trimmed(still.as_str());
    let b: String = trimmed(movie.as_str());
    Some(equal_but_case(a.as_str(), b.as_str()))
}

/// Whether a still and a movie form a Live Photo pair: both carry the same content
/// identifier.
pub fn existing_pair_is_valid(still_heic: &[u8], mov: &[u8]) -> (r: bool)
    requires
        is_pair(still_heic@, mov@) is Some,
    ensures
        Some(r) == is_pair(still_heic@, mov@),
{
    try_existing_pair_is_valid(still_heic, mov).unwrap()
}

// ---------------------------------------------------------------------------
// Making an identifier
// ---------------------------------------------------------------------------

/// Byte `i` of an identifier made from 16 bytes of time and 4 of a process number,
/// with the version and variant bits of a random UUID.
pub open spec fn uuid_byte(time: Seq<u8>, process: Seq<u8>, i: int) -> u8 {
    let b = time[i] ^ process[i % 4] ^ ((i * 0x6d) % 0x100) as u8;
    if i == 6 {
        (b & 0x0f) | 0x40
    } else if i == 8 {
        (b & 0x3f) | 0x80
    } else {
        b
    }
}

/// A hexadecimal digit in upper case.
pub open spec fn hex_upper(d: int) -> char {
    if d < 10 {
        (0x30 + d) as u8 as char
    } else {
        (0x37 + d) as u8 as char
    }
}

/// The first `n` bytes of a UUID in hexadecimal, with hyphens before bytes 4, 6, 8 and
/// 10.
pub open spec fn uuid_text(bytes: Seq<u8>, n: nat) -> Seq<char>
    decreases n,
{
    if n == 0 {
        Seq::empty()
    } else {
        let k = n - 1;
        let before = uuid_text(bytes, k as nat);
        let joined = if k == 4 || k == 6 || k == 8 || k == 10 {
            before.push('-')
        } else {
            before
        };
        joined.push(hex_upper(bytes[k] as int / 16)).push(hex_upper(bytes[k] as int % 16))
    }
}

/// The bytes of an identifier.
pub open spec fn uuid_bytes(time: Seq<u8>, process: Seq<u8>) -> Seq<u8> {
    Seq::new(16, |i: int| uuid_byte(time, process, i))
}

fn hex_upper_byte(d: u8) -> (r: u8)
    requires
        d < 16,
    ensures
        r as char == hex_upper(d as int),
        r < 0x80,
{
    if d < 10 {
        0x30 + d
    } else {
        0x37 + d
    }
}

/// Make a content identifier from the time and the process number: a UUID in upper
/// case.
pub fn uuid_v4(time: &[u8; 16], process: &[u8; 4]) -> (r: String)
    ensures
        r@ == uuid_text(uuid_bytes(time@, process@), 16),
{
    let ghost bytes = uuid_bytes(time@, process@);
    let mut out: Vec<u8> = Vec::new();
    let mut i: usize = 0;
    assert(ascii_text(out@) =~= Seq::empty());
    while i < 16
        invariant
            i <= 16,
            bytes == uuid_bytes(time@, process@),
            forall|j: int| 0 <= j < out@.len() ==> #[trigger] out@[j] < 0x80,
            ascii_text(out@) == uuid_text(bytes, i as nat),
        decreases 16 - i,
    {
        let mixed: u8 = time[i] ^ process[i % 4] ^ ((i * 0x6d) % 0x100) as u8;
        let b: u8 = if i == 6 {
            (mixed & 0x0f) | 0x40
        } else if i == 8 {
            (mixed & 0x3f) | 0x80
        } else {
            mixed
        };
        assert(b == bytes[i as int]);
        let ghost before = ascii_text(out@);
        if i == 4 || i == 6 || i == 8 || i == 10 {
            out.push(0x2d);
            assert(ascii_text(out@) =~= before.push('-'));
        }
        let ghost joined = ascii_text(out@);
        out.push(hex_upper_byte(b / 16));
        assert(ascii_text(out@) =~= joined.push(hex_upper(b as int / 16)));
        let ghost half = ascii_text(out@);
        out.push(hex_upper_byte(b % 16));
        assert(ascii_text(out@) =~= half.push(hex_upper(b as int % 16)));
        i = i + 1;
    }
    ascii_string(out.as_slice())
}

/// An identifier made here has the 36 characters of a UUID, all of them digits, upper
/// case letters and hyphens, with the digit 4 for its version.
pub proof fn made_identifiers_are_uuids(time: Seq<u8>, process: Seq<u8>)
    requires
        time.len() == 16,
        process.len() == 4,
    ensures
        uuid_text(uuid_bytes(time, process), 16).len() == 36,
        uuid_text(uuid_bytes(time, process), 16)[14] == '4',
        forall|i: int|
            0 <= i < 36 ==> {
                let c = #[trigger] uuid_text(uuid_bytes(time, process), 16)[i];
                c == '-' || ('0' <= c && c <= '9') || ('A' <= c && c <= 'F')
            },
{
    let b = uuid_bytes(time, process);
    reveal_with_fuel(uuid_text, 17);
    let mixed = time[6] ^ process[2] ^ ((6 * 0x6d) % 0x100) as u8;
    assert(((mixed & 0x0f) | 0x40) / 16 == 4) by (bit_vector);
    assert(b[6] == (mixed & 0x0f) | 0x40);
    lemma_uuid_chars(b, 16);
}

proof fn lemma_uuid_chars(b: Seq<u8>, n: nat)
    requires
        n <= b.len(),
    ensures
        forall|i: int|
            0 <= i < uuid_text(b, n).len() ==> {
                let c = #[trigger] uuid_text(b, n)[i];
                c == '-' || ('0' <= c && c <= '9') || ('A' <= c && c <= 'F')
            },
    decreases n,
{
    if n > 0 {
        let before = uuid_text(b, (n - 1) as nat);
        lemma_uuid_chars(b, (n - 1) as nat);
        assert forall|i: int| 0 <= i < uuid_text(b, n).len() implies {
            let c = #[trigger] uuid_text(b, n)[i];
            c == '-' || ('0' <= c && c <= '9') || ('A' <= c && c <= 'F')
        } by {
            if i < before.len() {
                assert(uuid_text(b, n)[i] == before[i]);
            }
        }
    }
}

} // verus!
