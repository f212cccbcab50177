//! What a player reads of the track that marks the still in a movie.

use crate::bytes::{be32, be64, enc16, enc24, enc32, enc64, occurs_at, zeros};
use crate::fourcc::{
    ALIS, CDSC, CO64, DINF, DREF, EDTS, ELST, GMHD, GMIN, HDLR, KEYS, MDAT, MDHD, MDIA, MEBX, MINF,
    MOOV, STBL, STCO, STSC, STSD, STSZ, STTS, TKHD, TRAK, TREF,
};
use crate::isobmff::as_is;
use crate::live_movie::{
    CONTENT_IDENTIFIER_KEY, DATA_HANDLER, GRAPHICS_MODE, MEDIA_HANDLER, METADATA_TIMESCALE,
    MarkView, MarkerView, STILL_IMAGE_KEY, TRACK_GEOMETRY, edit_bytes, largest_track, live_movie,
    marker_edts, marker_keys, marker_len, marker_mdhd, marker_mdia, marker_sample, marker_stbl,
    marker_stsd, marker_tkhd, marker_track, moov_child, movie_meta_bytes, movie_tracks,
    rebuilt_moov, rewritten_box, source_boxes, video_number,
};
use crate::movie_laws::{
    lemma_first_mov, lemma_flat_3, lemma_live_parts, lemma_mov_built, lemma_rewritten_boxes,
    lemma_small, movie_boxes_read_back,
};
use crate::output_laws::lemma_flat_1;
use crate::quicktime::{
    MovView, child_of, full_bytes, media_scale, mov_boxes, mov_bytes, mov_typed, movie_clock,
    sample_table, track_number, video_track,
};
use crate::reopened::{all_sized, is_box_of, is_first_of, is_sized_box, lemma_part_len, place_of};
use crate::round_trip::{
    boxes_read_back, integers_of_16_bits_read_back, integers_of_32_bits_read_back,
    integers_of_64_bits_read_back, lemma_byte, lemma_parts,
};
use crate::seqs::{flat, lemma_flat_take};
use vstd::prelude::*;
use vstd::string::*;
use vstd::utf8::*;

verus! {

/// The header of a built box at `x`.
pub open spec fn built_header(kind: Seq<u8>, len: int, x: int) -> MovView {
    MovView { offset: x, size: 8 + len, kind, header_size: 8 }
}

proof fn lemma_within(t: Seq<u8>, x: int, kind: Seq<u8>, payload: Seq<u8>)
    requires
        occurs_at(t, mov_bytes(kind, payload), x),
        kind.len() == 4,
        payload.len() + 8 <= u32::MAX,
    ensures
        occurs_at(t, payload, x + 8),
        mov_bytes(kind, payload).len() == payload.len() + 8,
        x + 8 + payload.len() <= t.len(),
{
    lemma_mov_built(kind, payload);
    boxes_read_back(t, x, x + 8 + payload.len(), kind, payload);
}

/// The first child of a type of a built box is read where it stands.
proof fn lemma_child(
    t: Seq<u8>,
    x: int,
    kind: Seq<u8>,
    boxes: Seq<Seq<u8>>,
    i: int,
    k: Seq<u8>,
    payload: Seq<u8>,
)
    requires
        t.len() <= usize::MAX,
        all_sized(boxes),
        flat(boxes, as_is()).len() + 8 <= u32::MAX,
        occurs_at(t, mov_bytes(kind, flat(boxes, as_is())), x),
        kind.len() == 4,
        k.len() == 4,
        is_first_of(boxes, k, i),
        boxes[i] == mov_bytes(k, payload),
        payload.len() + 8 <= u32::MAX,
    ensures
        ({
            let y = place_of(boxes, x + 8, i);
            &&& child_of(t, built_header(kind, flat(boxes, as_is()).len() as int, x), k) == Some(
                Ok::<MovView, Seq<char>>(built_header(k, payload.len() as int, y)),
            )
            &&& occurs_at(t, boxes[i], y)
            &&& occurs_at(t, payload, y + 8)
            &&& y + 8 + payload.len() <= t.len()
            &&& 0 <= y
        }),
{
    lemma_within(t, x, kind, flat(boxes, as_is()));
    movie_boxes_read_back(t, x + 8, boxes);
    lemma_first_mov(boxes, x + 8, k, i);
    lemma_mov_built(k, payload);
    lemma_within(t, place_of(boxes, x + 8, i), k, payload);
}

proof fn lemma_word(t: Seq<u8>, at: int, a: Seq<u8>, v: int, b: Seq<u8>)
    requires
        occurs_at(t, a + enc32(v) + b, at),
        0 <= v,
    ensures
        be32(t, at + a.len()) == v % 0x1_0000_0000,
{
    lemma_parts(t, a + enc32(v), b, at);
    lemma_parts(t, a, enc32(v), at);
    integers_of_32_bits_read_back(t, at + a.len(), v);
}

// ---------------------------------------------------------------------------
// Names of keys
// ---------------------------------------------------------------------------

/// The keys of a Live Photo have the names that players look for.
pub proof fn keys_have_their_names()
    ensures
        CONTENT_IDENTIFIER_KEY@ == encode_utf8("com.apple.quicktime.content.identifier"@),
        STILL_IMAGE_KEY@ == encode_utf8("com.apple.quicktime.still-image-time"@),
{
    reveal_strlit("com.apple.quicktime.content.identifier");
    reveal_strlit("com.apple.quicktime.still-image-time");
    let a = "com.apple.quicktime.content.identifier"@;
    let b = "com.apple.quicktime.still-image-time"@;
    assert(is_ascii_chars(a));
    assert(is_ascii_chars(b));
    is_ascii_chars_encode_utf8(a);
    is_ascii_chars_encode_utf8(b);
    assert(CONTENT_IDENTIFIER_KEY@ =~= encode_utf8(a));
    assert(STILL_IMAGE_KEY@ =~= encode_utf8(b));
}

// ---------------------------------------------------------------------------
// The parts of the track
// ---------------------------------------------------------------------------

/// The payload of a box with a version and flags.
spec fn full_payload(flags: int, payload: Seq<u8>) -> Seq<u8> {
    seq![0u8] + enc24(flags) + payload
}

/// The payload of the header of the track.
spec fn tkhd_payload(stamp: int, id: int, duration: int) -> Seq<u8> {
    enc32(stamp) + enc32(stamp) + enc32(id) + enc32(0) + enc32(duration) + TRACK_GEOMETRY@
}

/// The payload of the list of edits.
spec fn elst_payload(empty: int, marker: int) -> Seq<u8> {
    if empty > 0 {
        enc32(2) + edit_bytes(empty, true) + edit_bytes(marker, false)
    } else {
        enc32(1) + edit_bytes(marker, false)
    }
}

/// The children of the track.
#[verifier::opaque]
spec fn trak_boxes(m: MarkerView) -> Seq<Seq<u8>> {
    let marker = marker_len(m.movie_timescale);
    seq![
        marker_tkhd(m.timestamp as int, m.track_id as int, m.empty_duration + marker),
        mov_bytes(TREF@, mov_bytes(CDSC@, enc32(m.video_track_id as int))),
        marker_edts(m.empty_duration as int, marker),
        marker_mdia(
            m.timestamp as int,
            marker_stbl(
                m.transform is Some,
                m.dimensions is Some,
                marker_sample(m.transform, m.dimensions).len() as int,
                m.chunk_offset as int,
            ),
        ),
    ]
}

proof fn lemma_flat_4(a: Seq<Seq<u8>>)
    requires
        a.len() == 4,
    ensures
        flat(a, as_is()) == a[0] + a[1] + a[2] + a[3],
{
    lemma_flat_take(a, as_is(), 0);
    lemma_flat_take(a, as_is(), 1);
    lemma_flat_take(a, as_is(), 2);
    lemma_flat_take(a, as_is(), 3);
    assert(a.take(0) =~= Seq::empty());
    assert(a.take(4) =~= a);
    assert(flat(a, as_is()) =~= a[0] + a[1] + a[2] + a[3]);
}

/// The track is a box of its children.
proof fn lemma_track(m: MarkerView)
    requires
        marker_track(m).len() <= u32::MAX,
    ensures
        marker_track(m) == mov_bytes(TRAK@, flat(trak_boxes(m), as_is())),
        flat(trak_boxes(m), as_is()).len() + 8 <= u32::MAX,
        forall|i: int|
            0 <= i < 4 ==> (#[trigger] trak_boxes(m)[i]).len() <= flat(trak_boxes(m), as_is()).len(),
{
    reveal(marker_track);
    reveal(trak_boxes);
    let b = trak_boxes(m);
    lemma_flat_4(b);
    lemma_small(TRAK@, flat(b, as_is()));
    assert forall|i: int| 0 <= i < 4 implies (#[trigger] b[i]).len() <= flat(b, as_is()).len() by {
        lemma_part_len(b, i);
    }
}

proof fn lemma_tkhd_box(stamp: int, id: int, duration: int)
    ensures
        ({
            let p = full_payload(0x0f, tkhd_payload(stamp, id, duration));
            &&& marker_tkhd(stamp, id, duration) == mov_bytes(TKHD@, p)
            &&& p.len() == 84
            &&& is_box_of(marker_tkhd(stamp, id, duration), TKHD@)
        }),
{
    reveal(marker_tkhd);
    lemma_mov_built(TKHD@, full_payload(0x0f, tkhd_payload(stamp, id, duration)));
}

proof fn lemma_tref_box(id: int)
    ensures
        mov_bytes(CDSC@, enc32(id)).len() == 12,
        is_box_of(mov_bytes(CDSC@, enc32(id)), CDSC@),
        is_box_of(mov_bytes(TREF@, mov_bytes(CDSC@, enc32(id))), TREF@),
{
    lemma_mov_built(CDSC@, enc32(id));
    lemma_mov_built(TREF@, mov_bytes(CDSC@, enc32(id)));
}

proof fn lemma_edts_box(empty: int, marker: int)
    ensures
        ({
            let e = full_payload(0, elst_payload(empty, marker));
            &&& marker_edts(empty, marker) == mov_bytes(EDTS@, mov_bytes(ELST@, e))
            &&& e.len() <= 40
            &&& mov_bytes(ELST@, e).len() == e.len() + 8
            &&& is_box_of(mov_bytes(ELST@, e), ELST@)
            &&& is_box_of(marker_edts(empty, marker), EDTS@)
        }),
{
    reveal(marker_edts);
    let e = full_payload(0, elst_payload(empty, marker));
    lemma_mov_built(ELST@, e);
    lemma_mov_built(EDTS@, mov_bytes(ELST@, e));
}

/// Each child of the track is a box of its type.
proof fn lemma_track_boxes(m: MarkerView)
    requires
        marker_track(m).len() <= u32::MAX,
    ensures
        ({
            let b = trak_boxes(m);
            &&& all_sized(b)
            &&& is_first_of(b, TKHD@, 0)
            &&& is_first_of(b, TREF@, 1)
            &&& is_first_of(b, EDTS@, 2)
            &&& is_first_of(b, MDIA@, 3)
        }),
{
    reveal(trak_boxes);
    lemma_track(m);
    let b = trak_boxes(m);
    let marker = marker_len(m.movie_timescale);
    lemma_tkhd_box(m.timestamp as int, m.track_id as int, m.empty_duration + marker);
    lemma_tref_box(m.video_track_id as int);
    lemma_edts_box(m.empty_duration as int, marker);
    assert(b[3].len() <= u32::MAX);
    lemma_mdia_box(
        m.timestamp as int,
        marker_stbl(
            m.transform is Some,
            m.dimensions is Some,
            marker_sample(m.transform, m.dimensions).len() as int,
            m.chunk_offset as int,
        ),
    );
    assert(TKHD@[1] != TREF@[1] && TKHD@[0] != EDTS@[0] && TREF@[0] != EDTS@[0] && TKHD@[0]
        != MDIA@[0] && TREF@[0] != MDIA@[0] && EDTS@[0] != MDIA@[0]);
    assert forall|i: int| 0 <= i < b.len() implies is_sized_box(#[trigger] b[i]) by {}
}

/// The children of the media.
spec fn mdia_boxes(stamp: int, stbl: Seq<u8>) -> Seq<Seq<u8>> {
    seq![
        marker_mdhd(stamp),
        full_bytes(HDLR@, 0, 0, MEDIA_HANDLER@),
        mov_bytes(MINF@, flat(minf_boxes(stbl), as_is())),
    ]
}

/// The children of the media information.
spec fn minf_boxes(stbl: Seq<u8>) -> Seq<Seq<u8>> {
    seq![
        mov_bytes(GMHD@, full_bytes(GMIN@, 0, 0, GRAPHICS_MODE@)),
        full_bytes(HDLR@, 0, 0, DATA_HANDLER@),
        mov_bytes(
            DINF@,
            full_bytes(DREF@, 0, 0, enc32(1) + full_bytes(ALIS@, 0, 1, Seq::empty())),
        ),
        stbl,
    ]
}

proof fn lemma_mdia_box(stamp: int, stbl: Seq<u8>)
    requires
        marker_mdia(stamp, stbl).len() <= u32::MAX,
    ensures
        marker_mdia(stamp, stbl) == mov_bytes(MDIA@, flat(mdia_boxes(stamp, stbl), as_is())),
        is_box_of(marker_mdia(stamp, stbl), MDIA@),
        flat(mdia_boxes(stamp, stbl), as_is()).len() + 8 <= u32::MAX,
        flat(minf_boxes(stbl), as_is()).len() + 8 <= u32::MAX,
        stbl.len() <= u32::MAX,
{
    reveal(marker_mdia);
    let b = mdia_boxes(stamp, stbl);
    let c = minf_boxes(stbl);
    lemma_flat_3(b);
    lemma_flat_4(c);
    lemma_small(MDIA@, flat(b, as_is()));
    lemma_mov_built(MDIA@, flat(b, as_is()));
    lemma_part_len(b, 2);
    lemma_small(MINF@, flat(c, as_is()));
    lemma_part_len(c, 3);
}

// ---------------------------------------------------------------------------
// What is read of the track
// ---------------------------------------------------------------------------

/// The entry of a list of edits at `at`: how long it lasts in ticks of the movie, and where in
/// the media it begins; the speed is normal.
pub open spec fn is_edit(t: Seq<u8>, at: int, duration: int, media_time: int) -> bool {
    &&& be32(t, at) == duration
    &&& be32(t, at + 4) == media_time
    &&& be32(t, at + 8) == 0x1_0000
}

proof fn lemma_edit(t: Seq<u8>, at: int, duration: int, empty: bool)
    requires
        occurs_at(t, edit_bytes(duration, empty), at),
        0 <= duration <= u32::MAX,
    ensures
        is_edit(
            t,
            at,
            duration,
            if empty {
                0xffff_ffff
            } else {
                0
            },
        ),
{
    let a = enc32(duration);
    let b = enc32(
        if empty {
            0xffff_ffff
        } else {
            0
        },
    );
    lemma_parts(t, a + b + enc16(1), enc16(0), at);
    lemma_parts(t, a + b, enc16(1), at);
    lemma_parts(t, a, b, at);
    integers_of_32_bits_read_back(t, at, duration);
    integers_of_32_bits_read_back(
        t,
        at + 4,
        if empty {
            0xffff_ffff
        } else {
            0
        },
    );
    integers_of_16_bits_read_back(t, at + 8, 1);
    integers_of_16_bits_read_back(t, at + 10, 0);
}

/// How long the marker lasts: a six-hundredth of a second, and a tick at least.
pub open spec fn marker_ticks(timescale: u32) -> int {
    if timescale / 600 >= 1 {
        timescale as int / 600
    } else {
        1
    }
}

/// The track that marks the still says its own number and, as what it describes, that of the
/// video track, and it lasts up to the end of the marker.
pub proof fn marker_tracks_say_their_numbers(t: Seq<u8>, x: int, m: MarkerView)
    requires
        t.len() <= usize::MAX,
        marker_track(m).len() <= u32::MAX,
        occurs_at(t, marker_track(m), x),
        m.empty_duration + marker_ticks(m.movie_timescale) <= u32::MAX,
    ensures
        ({
            let trak = built_header(TRAK@, marker_track(m).len() - 8, x);
            &&& child_of(t, trak, TKHD@) matches Some(Ok(b)) && {
                &&& b.size == 92
                &&& be32(t, b.payload() + 12) == m.track_id
                &&& be32(t, b.payload() + 20) == m.empty_duration + marker_ticks(m.movie_timescale)
            }
            &&& track_number(t, trak) == Some(Ok::<u32, Seq<char>>(m.track_id))
            &&& child_of(t, trak, TREF@) matches Some(Ok(r)) && (child_of(t, r, CDSC@) matches Some(
                Ok(b),
            ) && b.size == 12 && be32(t, b.payload()) == m.video_track_id)
        }),
{
    lemma_header_read(t, x, m);
    lemma_reference_read(t, x, m);
}

proof fn lemma_tkhd_read(t: Seq<u8>, q: int, stamp: int, id: int, duration: int)
    requires
        occurs_at(t, full_payload(0x0f, tkhd_payload(stamp, id, duration)), q),
        0 <= id <= u32::MAX,
        0 <= duration <= u32::MAX,
    ensures
        t[q] == 0,
        be32(t, q + 12) == id,
        be32(t, q + 20) == duration,
{
    let p = full_payload(0x0f, tkhd_payload(stamp, id, duration));
    let front = seq![0u8] + enc24(0x0f) + enc32(stamp) + enc32(stamp);
    assert(p =~= front + enc32(id) + (enc32(0) + enc32(duration) + TRACK_GEOMETRY@));
    lemma_word(t, q, front, id, enc32(0) + enc32(duration) + TRACK_GEOMETRY@);
    let more = front + enc32(id) + enc32(0);
    assert(p =~= more + enc32(duration) + TRACK_GEOMETRY@);
    lemma_word(t, q, more, duration, TRACK_GEOMETRY@);
    lemma_byte(t, p, q, 0);
}

proof fn lemma_header_read(t: Seq<u8>, x: int, m: MarkerView)
    requires
        t.len() <= usize::MAX,
        marker_track(m).len() <= u32::MAX,
        occurs_at(t, marker_track(m), x),
        m.empty_duration + marker_ticks(m.movie_timescale) <= u32::MAX,
    ensures
        ({
            let trak = built_header(TRAK@, marker_track(m).len() - 8, x);
            &&& child_of(t, trak, TKHD@) matches Some(Ok(b)) && {
                &&& b.size == 92
                &&& be32(t, b.payload() + 12) == m.track_id
                &&& be32(t, b.payload() + 20) == m.empty_duration + marker_ticks(m.movie_timescale)
            }
            &&& track_number(t, trak) == Some(Ok::<u32, Seq<char>>(m.track_id))
        }),
{
    let marker = marker_len(m.movie_timescale);
    let (stamp, id, duration) = (
        m.timestamp as int,
        m.track_id as int,
        m.empty_duration + marker,
    );
    lemma_tkhd_box(stamp, id, duration);
    let p = full_payload(0x0f, tkhd_payload(stamp, id, duration));
    assert(trak_boxes(m)[0] == mov_bytes(TKHD@, p)) by {
        reveal(trak_boxes);
    }
    lemma_track_child(t, x, m, 0, TKHD@, p);
    let y = place_of(trak_boxes(m), x + 8, 0);
    lemma_tkhd_read(t, y + 8, stamp, id, duration);
}

proof fn lemma_reference_read(t: Seq<u8>, x: int, m: MarkerView)
    requires
        t.len() <= usize::MAX,
        marker_track(m).len() <= u32::MAX,
        occurs_at(t, marker_track(m), x),
    ensures
        ({
            let trak = built_header(TRAK@, marker_track(m).len() - 8, x);
            child_of(t, trak, TREF@) matches Some(Ok(r)) && (child_of(t, r, CDSC@) matches Some(
                Ok(b),
            ) && b.size == 12 && be32(t, b.payload()) == m.video_track_id)
        }),
{
    let id = m.video_track_id as int;
    let inner = seq![mov_bytes(CDSC@, enc32(id))];
    lemma_tref_box(id);
    lemma_flat_1(inner[0]);
    assert(trak_boxes(m)[1] == mov_bytes(TREF@, inner[0])) by {
        reveal(trak_boxes);
    }
    lemma_track_child(t, x, m, 1, TREF@, inner[0]);
    let z = place_of(trak_boxes(m), x + 8, 1);
    assert(all_sized(inner));
    assert(is_first_of(inner, CDSC@, 0));
    lemma_child(t, z, TREF@, inner, 0, CDSC@, enc32(id));
    integers_of_32_bits_read_back(t, place_of(inner, z + 8, 0) + 8, id);
}

/// A child of the track is read where it stands.
proof fn lemma_track_child(
    t: Seq<u8>,
    x: int,
    m: MarkerView,
    i: int,
    k: Seq<u8>,
    payload: Seq<u8>,
)
    requires
        t.len() <= usize::MAX,
        marker_track(m).len() <= u32::MAX,
        occurs_at(t, marker_track(m), x),
        (i == 0 && k == TKHD@) || (i == 1 && k == TREF@) || (i == 2 && k == EDTS@) || (i == 3 && k
            == MDIA@),
        trak_boxes(m)[i] == mov_bytes(k, payload),
        payload.len() + 8 <= u32::MAX,
    ensures
        ({
            let y = place_of(trak_boxes(m), x + 8, i);
            &&& child_of(t, built_header(TRAK@, marker_track(m).len() - 8, x), k) == Some(
                Ok::<MovView, Seq<char>>(built_header(k, payload.len() as int, y)),
            )
            &&& occurs_at(t, mov_bytes(k, payload), y)
            &&& occurs_at(t, payload, y + 8)
            &&& y + 8 + payload.len() <= t.len()
            &&& 0 <= y
        }),
{
    lemma_track(m);
    lemma_track_boxes(m);
    lemma_mov_built(TRAK@, flat(trak_boxes(m), as_is()));
    lemma_child(t, x, TRAK@, trak_boxes(m), i, k, payload);
}

/// The track that marks the still shows its sample when the still comes: where that is behind
/// the start of the movie, an empty edit lasts until then, and the marker follows it.
pub proof fn marker_tracks_begin_with_the_still(t: Seq<u8>, x: int, m: MarkerView)
    requires
        t.len() <= usize::MAX,
        marker_track(m).len() <= u32::MAX,
        occurs_at(t, marker_track(m), x),
    ensures
        ({
            let trak = built_header(TRAK@, marker_track(m).len() - 8, x);
            let marker = marker_ticks(m.movie_timescale);
            child_of(t, trak, EDTS@) matches Some(Ok(e)) && (child_of(t, e, ELST@) matches Some(
                Ok(b),
            ) && {
                let p = b.payload() + 8;
                if m.empty_duration > 0 {
                    &&& be32(t, p - 4) == 2
                    &&& is_edit(t, p, m.empty_duration as int, 0xffff_ffff)
                    &&& is_edit(t, p + 12, marker, 0)
                    &&& b.end() == p + 24
                } else {
                    &&& be32(t, p - 4) == 1
                    &&& is_edit(t, p, marker, 0)
                    &&& b.end() == p + 12
                }
            })
        }),
{
    let marker = marker_len(m.movie_timescale);
    let empty = m.empty_duration as int;
    lemma_edts_box(empty, marker);
    let e = full_payload(0, elst_payload(empty, marker));
    let inner = seq![mov_bytes(ELST@, e)];
    lemma_flat_1(inner[0]);
    assert(trak_boxes(m)[2] == mov_bytes(EDTS@, inner[0])) by {
        reveal(trak_boxes);
    }
    lemma_track_child(t, x, m, 2, EDTS@, inner[0]);
    let z = place_of(trak_boxes(m), x + 8, 2);
    assert(all_sized(inner));
    assert(is_first_of(inner, ELST@, 0));
    lemma_child(t, z, EDTS@, inner, 0, ELST@, e);
    lemma_elst_read(t, place_of(inner, z + 8, 0) + 8, empty, marker);
}

proof fn lemma_elst_read(t: Seq<u8>, q: int, empty: int, marker: int)
    requires
        occurs_at(t, full_payload(0, elst_payload(empty, marker)), q),
        0 <= empty <= u32::MAX,
        0 <= marker <= u32::MAX,
    ensures
        empty > 0 ==> {
            &&& be32(t, q + 4) == 2
            &&& is_edit(t, q + 8, empty, 0xffff_ffff)
            &&& is_edit(t, q + 20, marker, 0)
            &&& full_payload(0, elst_payload(empty, marker)).len() == 32
        },
        empty == 0 ==> {
            &&& be32(t, q + 4) == 1
            &&& is_edit(t, q + 8, marker, 0)
            &&& full_payload(0, elst_payload(empty, marker)).len() == 20
        },
{
    let e = full_payload(0, elst_payload(empty, marker));
    let head = seq![0u8] + enc24(0);
    let last = edit_bytes(marker, false);
    if empty > 0 {
        let first = edit_bytes(empty, true);
        assert(e =~= head + enc32(2) + (first + last));
        lemma_word(t, q, head, 2, first + last);
        assert(e =~= (head + enc32(2) + first) + last);
        lemma_parts(t, head + enc32(2) + first, last, q);
        lemma_parts(t, head + enc32(2), first, q);
        lemma_edit(t, q + 8, empty, true);
        lemma_edit(t, q + 20, marker, false);
    } else {
        assert(e =~= head + enc32(1) + last);
        lemma_word(t, q, head, 1, last);
        lemma_parts(t, head + enc32(1), last, q);
        lemma_edit(t, q + 8, marker, false);
    }
}

// ---------------------------------------------------------------------------
// The sample of the track
// ---------------------------------------------------------------------------

/// Where the chunk of the sample is told.
spec fn chunk_payload(chunk: int) -> Seq<u8> {
    full_payload(
        0,
        if chunk > 0xffff_ffff {
            enc32(1) + enc64(chunk)
        } else {
            enc32(1) + enc32(chunk)
        },
    )
}

/// The type of the box that tells where the chunk of the sample is.
spec fn chunk_kind(chunk: int) -> Seq<u8> {
    if chunk > 0xffff_ffff {
        CO64@
    } else {
        STCO@
    }
}

/// The children of the sample table.
#[verifier::opaque]
spec fn stbl_boxes(transform: bool, dimensions: bool, len: int, chunk: int) -> Seq<Seq<u8>> {
    seq![
        marker_stsd(transform, dimensions),
        mov_bytes(STTS@, full_payload(0, enc32(1) + enc32(1) + enc32(1))),
        mov_bytes(STSC@, full_payload(0, enc32(1) + enc32(1) + enc32(1) + enc32(1))),
        mov_bytes(STSZ@, full_payload(0, enc32(len) + enc32(1))),
        mov_bytes(chunk_kind(chunk), chunk_payload(chunk)),
    ]
}

proof fn lemma_stsd_box(transform: bool, dimensions: bool)
    requires
        marker_stsd(transform, dimensions).len() <= u32::MAX,
    ensures
        is_box_of(marker_stsd(transform, dimensions), STSD@),
{
    reveal(marker_stsd);
    let p = full_payload(
        0,
        enc32(1) + mov_bytes(
            MEBX@,
            zeros(6) + enc16(1) + mov_bytes(KEYS@, marker_keys(transform, dimensions)),
        ),
    );
    assert(marker_stsd(transform, dimensions) == mov_bytes(STSD@, p));
    lemma_small(STSD@, p);
    lemma_mov_built(STSD@, p);
}

proof fn lemma_stbl(transform: bool, dimensions: bool, len: int, chunk: int)
    requires
        marker_stbl(transform, dimensions, len, chunk).len() <= u32::MAX,
    ensures
        ({
            let b = stbl_boxes(transform, dimensions, len, chunk);
            &&& marker_stbl(transform, dimensions, len, chunk) == mov_bytes(STBL@, flat(b, as_is()))
            &&& flat(b, as_is()).len() + 8 <= u32::MAX
            &&& is_box_of(marker_stbl(transform, dimensions, len, chunk), STBL@)
            &&& b[0].len() <= u32::MAX
        }),
{
    reveal(marker_stbl);
    reveal(stbl_boxes);
    let b = stbl_boxes(transform, dimensions, len, chunk);
    let four = b.take(4);
    lemma_flat_4(four);
    lemma_flat_take(b, as_is(), 4);
    assert(b.take(5) =~= b);
    lemma_small(STBL@, flat(b, as_is()));
    lemma_mov_built(STBL@, flat(b, as_is()));
    lemma_part_len(b, 0);
}

proof fn lemma_stbl_boxes(transform: bool, dimensions: bool, len: int, chunk: int)
    requires
        marker_stbl(transform, dimensions, len, chunk).len() <= u32::MAX,
    ensures
        ({
            let b = stbl_boxes(transform, dimensions, len, chunk);
            &&& all_sized(b)
            &&& is_first_of(b, STTS@, 1)
            &&& is_first_of(b, STSZ@, 3)
            &&& is_first_of(b, chunk_kind(chunk), 4)
        }),
{
    lemma_stbl(transform, dimensions, len, chunk);
    reveal(stbl_boxes);
    let b = stbl_boxes(transform, dimensions, len, chunk);
    lemma_stsd_box(transform, dimensions);
    lemma_mov_built(STTS@, full_payload(0, enc32(1) + enc32(1) + enc32(1)));
    lemma_mov_built(STSC@, full_payload(0, enc32(1) + enc32(1) + enc32(1) + enc32(1)));
    lemma_mov_built(STSZ@, full_payload(0, enc32(len) + enc32(1)));
    lemma_mov_built(chunk_kind(chunk), chunk_payload(chunk));
    assert(STSD@[2] == STSC@[2] && STSD@[3] != STSC@[3] && STSD@[2] != STTS@[2] && STSD@[3]
        != STSZ@[3] && STSC@[2] != STTS@[2] && STSC@[3] != STSZ@[3] && STTS@[2] != STSZ@[2]);
    assert(CO64@[0] != STSD@[0] && CO64@[0] != STTS@[0] && CO64@[0] != STSC@[0] && CO64@[0]
        != STSZ@[0]);
    assert(STCO@[2] != STSD@[2] && STCO@[2] != STTS@[2] && STCO@[2] != STSC@[2] && STCO@[2]
        != STSZ@[2]);
    assert forall|i: int| 0 <= i < b.len() implies is_sized_box(#[trigger] b[i]) by {}
}

/// What the sample table of a marker track tells: one sample that lasts one tick, its length,
/// and where it stands.
pub open spec fn tells_sample(t: Seq<u8>, stbl: MovView, len: int, chunk: int) -> bool {
    &&& child_of(t, stbl, STTS@) matches Some(Ok(b)) && {
        &&& be32(t, b.payload() + 4) == 1
        &&& be32(t, b.payload() + 8) == 1
        &&& be32(t, b.payload() + 12) == 1
    }
    &&& child_of(t, stbl, STSZ@) matches Some(Ok(b)) && {
        &&& be32(t, b.payload() + 4) == len
        &&& be32(t, b.payload() + 8) == 1
    }
    &&& if chunk > 0xffff_ffff {
        child_of(t, stbl, CO64@) matches Some(Ok(b)) && {
            &&& be32(t, b.payload() + 4) == 1
            &&& be64(t, b.payload() + 8) == chunk
        }
    } else {
        child_of(t, stbl, STCO@) matches Some(Ok(b)) && {
            &&& be32(t, b.payload() + 4) == 1
            &&& be32(t, b.payload() + 8) == chunk
        }
    }
}

proof fn lemma_stbl_read(
    t: Seq<u8>,
    x: int,
    transform: bool,
    dimensions: bool,
    len: int,
    chunk: int,
)
    requires
        t.len() <= usize::MAX,
        marker_stbl(transform, dimensions, len, chunk).len() <= u32::MAX,
        occurs_at(t, marker_stbl(transform, dimensions, len, chunk), x),
        0 <= len <= u32::MAX,
        0 <= chunk <= u64::MAX,
    ensures
        tells_sample(
            t,
            built_header(STBL@, marker_stbl(transform, dimensions, len, chunk).len() - 8, x),
            len,
            chunk,
        ),
{
    let stts = full_payload(0, enc32(1) + enc32(1) + enc32(1));
    let stsz = full_payload(0, enc32(len) + enc32(1));
    let b = stbl_boxes(transform, dimensions, len, chunk);
    assert(b[1] == mov_bytes(STTS@, stts) && b[3] == mov_bytes(STSZ@, stsz) && b[4] == mov_bytes(
        chunk_kind(chunk),
        chunk_payload(chunk),
    )) by {
        reveal(stbl_boxes);
    }
    lemma_stbl_child(t, x, transform, dimensions, len, chunk, 1, STTS@, stts);
    lemma_stbl_child(t, x, transform, dimensions, len, chunk, 3, STSZ@, stsz);
    lemma_stbl_child(
        t,
        x,
        transform,
        dimensions,
        len,
        chunk,
        4,
        chunk_kind(chunk),
        chunk_payload(chunk),
    );
    lemma_three_words(t, place_of(b, x + 8, 1) + 8);
    lemma_two_words_at(t, place_of(b, x + 8, 3) + 8, len, 1);
    lemma_chunk_read(t, place_of(b, x + 8, 4) + 8, chunk);
}

proof fn lemma_stbl_child(
    t: Seq<u8>,
    x: int,
    transform: bool,
    dimensions: bool,
    len: int,
    chunk: int,
    i: int,
    k: Seq<u8>,
    payload: Seq<u8>,
)
    requires
        t.len() <= usize::MAX,
        marker_stbl(transform, dimensions, len, chunk).len() <= u32::MAX,
        occurs_at(t, marker_stbl(transform, dimensions, len, chunk), x),
        (i == 1 && k == STTS@) || (i == 3 && k == STSZ@) || (i == 4 && k == chunk_kind(chunk)),
        stbl_boxes(transform, dimensions, len, chunk)[i] == mov_bytes(k, payload),
        payload.len() <= 100,
    ensures
        ({
            let y = place_of(stbl_boxes(transform, dimensions, len, chunk), x + 8, i);
            let stbl = built_header(
                STBL@,
                marker_stbl(transform, dimensions, len, chunk).len() - 8,
                x,
            );
            &&& child_of(t, stbl, k) == Some(
                Ok::<MovView, Seq<char>>(built_header(k, payload.len() as int, y)),
            )
            &&& occurs_at(t, payload, y + 8)
        }),
{
    let b = stbl_boxes(transform, dimensions, len, chunk);
    lemma_stbl(transform, dimensions, len, chunk);
    lemma_stbl_boxes(transform, dimensions, len, chunk);
    lemma_mov_built(STBL@, flat(b, as_is()));
    lemma_child(t, x, STBL@, b, i, k, payload);
}

proof fn lemma_chunk_read(t: Seq<u8>, q: int, chunk: int)
    requires
        occurs_at(t, chunk_payload(chunk), q),
        0 <= chunk <= u64::MAX,
    ensures
        be32(t, q + 4) == 1,
        chunk > 0xffff_ffff ==> be64(t, q + 8) == chunk,
        chunk <= 0xffff_ffff ==> be32(t, q + 8) == chunk,
{
    if chunk > 0xffff_ffff {
        let head = seq![0u8] + enc24(0);
        assert(chunk_payload(chunk) =~= head + enc32(1) + enc64(chunk));
        lemma_word(t, q, head, 1, enc64(chunk));
        lemma_parts(t, head + enc32(1), enc64(chunk), q);
        integers_of_64_bits_read_back(t, q + 8, chunk);
    } else {
        lemma_two_words_at(t, q, 1, chunk);
    }
}

proof fn lemma_three_words(t: Seq<u8>, q: int)
    requires
        occurs_at(t, full_payload(0, enc32(1) + enc32(1) + enc32(1)), q),
    ensures
        be32(t, q + 4) == 1,
        be32(t, q + 8) == 1,
        be32(t, q + 12) == 1,
{
    let head = seq![0u8] + enc24(0);
    let one = enc32(1);
    let p = full_payload(0, one + one + one);
    assert(p =~= head + one + (one + one));
    lemma_word(t, q, head, 1, one + one);
    assert(p =~= (head + one) + one + one);
    lemma_word(t, q, head + one, 1, one);
    assert(p =~= (head + one + one) + one + Seq::<u8>::empty());
    lemma_word(t, q, head + one + one, 1, Seq::empty());
}

#[verifier::rlimit(60)]
proof fn lemma_two_words_at(t: Seq<u8>, q: int, a: int, b: int)
    requires
        occurs_at(t, full_payload(0, enc32(a) + enc32(b)), q),
        0 <= a <= u32::MAX,
        0 <= b <= u32::MAX,
    ensures
        be32(t, q + 4) == a,
        be32(t, q + 8) == b,
{
    let head = seq![0u8] + enc24(0);
    let p = full_payload(0, enc32(a) + enc32(b));
    assert(p =~= head + enc32(a) + enc32(b));
    lemma_word(t, q, head, a, enc32(b));
    assert(p =~= (head + enc32(a)) + enc32(b) + Seq::<u8>::empty());
    lemma_word(t, q, head + enc32(a), b, Seq::empty());
}

/// The payload of the header of the media.
spec fn mdhd_payload(stamp: int) -> Seq<u8> {
    full_payload(
        0,
        enc32(stamp) + enc32(stamp) + enc32(METADATA_TIMESCALE as int) + enc32(1) + enc16(0x55c4)
            + enc16(0),
    )
}

proof fn lemma_mdia_boxes(stamp: int, stbl: Seq<u8>)
    requires
        marker_mdia(stamp, stbl).len() <= u32::MAX,
        is_box_of(stbl, STBL@),
    ensures
        ({
            let b = mdia_boxes(stamp, stbl);
            let c = minf_boxes(stbl);
            &&& all_sized(b)
            &&& b[0] == mov_bytes(MDHD@, mdhd_payload(stamp))
            &&& mdhd_payload(stamp).len() == 24
            &&& b[2] == mov_bytes(MINF@, flat(c, as_is()))
            &&& is_first_of(b, MDHD@, 0)
            &&& is_first_of(b, MINF@, 2)
            &&& all_sized(c)
            &&& c[3] == stbl
            &&& is_first_of(c, STBL@, 3)
        }),
{
    reveal(marker_mdhd);
    lemma_mdia_box(stamp, stbl);
    let b = mdia_boxes(stamp, stbl);
    let c = minf_boxes(stbl);
    lemma_mov_built(MDHD@, mdhd_payload(stamp));
    lemma_mov_built(HDLR@, full_payload(0, MEDIA_HANDLER@));
    lemma_mov_built(MINF@, flat(c, as_is()));
    lemma_mov_built(GMIN@, full_payload(0, GRAPHICS_MODE@));
    lemma_mov_built(GMHD@, mov_bytes(GMIN@, full_payload(0, GRAPHICS_MODE@)));
    lemma_mov_built(HDLR@, full_payload(0, DATA_HANDLER@));
    lemma_mov_built(ALIS@, full_payload(1, Seq::empty()));
    let dref = full_payload(0, enc32(1) + full_bytes(ALIS@, 0, 1, Seq::empty()));
    lemma_mov_built(DREF@, dref);
    lemma_mov_built(DINF@, mov_bytes(DREF@, dref));
    assert(MDHD@[0] != HDLR@[0] && MDHD@[1] != MINF@[1] && HDLR@[0] != MINF@[0]);
    assert(STBL@[0] != GMHD@[0] && STBL@[0] != HDLR@[0] && STBL@[0] != DINF@[0]);
    assert forall|i: int| 0 <= i < b.len() implies is_sized_box(#[trigger] b[i]) by {}
    assert forall|i: int| 0 <= i < c.len() implies is_sized_box(#[trigger] c[i]) by {}
}

/// The media of the track at `x` has a time scale of 600 and its sample table where it stands.
proof fn lemma_mdia_read(t: Seq<u8>, x: int, stamp: int, stbl: Seq<u8>, payload: Seq<u8>) -> (z: int)
    requires
        t.len() <= usize::MAX,
        marker_mdia(stamp, stbl).len() <= u32::MAX,
        is_box_of(stbl, STBL@),
        stbl == mov_bytes(STBL@, payload),
        payload.len() + 8 <= u32::MAX,
        occurs_at(t, marker_mdia(stamp, stbl), x),
    ensures
        ({
            let mdia = built_header(MDIA@, marker_mdia(stamp, stbl).len() - 8, x);
            &&& child_of(t, mdia, MDHD@) matches Some(Ok(b)) && b.header_size == 8 && 0 <= b.offset
                && b.payload() + 24 <= t.len() && t[b.payload()] == 0 && be32(t, b.payload() + 12)
                == 600
            &&& child_of(t, mdia, MINF@) matches Some(Ok(minf)) && child_of(t, minf, STBL@) == Some(
                Ok::<MovView, Seq<char>>(built_header(STBL@, payload.len() as int, z)),
            )
            &&& occurs_at(t, stbl, z)
        }),
{
    let b = mdia_boxes(stamp, stbl);
    let c = minf_boxes(stbl);
    lemma_mdia_box(stamp, stbl);
    lemma_mdia_boxes(stamp, stbl);
    lemma_mov_built(MDIA@, flat(b, as_is()));
    let p = mdhd_payload(stamp);
    lemma_child(t, x, MDIA@, b, 0, MDHD@, p);
    let q = place_of(b, x + 8, 0) + 8;
    lemma_byte(t, p, q, 0);
    let front = seq![0u8] + enc24(0) + enc32(stamp) + enc32(stamp);
    let rest = enc32(1) + enc16(0x55c4) + enc16(0);
    assert(p =~= front + enc32(600) + rest);
    lemma_word(t, q, front, 600, rest);
    lemma_child(t, x, MDIA@, b, 2, MINF@, flat(c, as_is()));
    let y = place_of(b, x + 8, 2);
    lemma_child(t, y, MINF@, c, 3, STBL@, payload);
    place_of(c, y + 8, 3)
}

/// The track that marks the still has one sample, of the length of what it holds and where the
/// movie puts it, and its media counts 600 ticks a second.
#[verifier::rlimit(60)]
pub proof fn marker_tracks_hold_one_sample(t: Seq<u8>, x: int, m: MarkerView)
    requires
        t.len() <= usize::MAX,
        marker_track(m).len() <= u32::MAX,
        occurs_at(t, marker_track(m), x),
        marker_sample(m.transform, m.dimensions).len() <= u32::MAX,
    ensures
        ({
            let trak = built_header(TRAK@, marker_track(m).len() - 8, x);
            &&& media_scale(t, trak) == Some(Ok::<u32, Seq<char>>(600u32))
            &&& sample_table(t, trak) matches Some(Ok(stbl)) && tells_sample(
                t,
                stbl,
                marker_sample(m.transform, m.dimensions).len() as int,
                m.chunk_offset as int,
            )
        }),
{
    let (transform, dimensions) = (m.transform is Some, m.dimensions is Some);
    let len = marker_sample(m.transform, m.dimensions).len() as int;
    let chunk = m.chunk_offset as int;
    let stamp = m.timestamp as int;
    let stbl = marker_stbl(transform, dimensions, len, chunk);
    let mdia = flat(mdia_boxes(stamp, stbl), as_is());
    lemma_track(m);
    assert(trak_boxes(m)[3] == marker_mdia(stamp, stbl)) by {
        reveal(trak_boxes);
    }
    lemma_mdia_box(stamp, stbl);
    lemma_stbl(transform, dimensions, len, chunk);
    lemma_track_child(t, x, m, 3, MDIA@, mdia);
    lemma_mov_built(MDIA@, mdia);
    let y = place_of(trak_boxes(m), x + 8, 3);
    let run = flat(stbl_boxes(transform, dimensions, len, chunk), as_is());
    lemma_mov_built(STBL@, run);
    let z = lemma_mdia_read(t, y, stamp, stbl, run);
    lemma_stbl_read(t, z, transform, dimensions, len, chunk);
}

// ---------------------------------------------------------------------------
// The track in its movie
// ---------------------------------------------------------------------------

proof fn lemma_largest(s: Seq<u8>, tracks: Seq<MovView>, i: int, max: u32, k: int)
    requires
        0 <= i <= tracks.len(),
        largest_track(s, tracks, i, max) matches Some(Ok(_)),
    ensures
        largest_track(s, tracks, i, max) matches Some(Ok(n)) && max <= n,
        i <= k < tracks.len() ==> (track_number(s, tracks[k]) matches Some(Ok(a))
            && largest_track(s, tracks, i, max) matches Some(Ok(n)) && a <= n),
    decreases tracks.len() - i,
{
    if i < tracks.len() {
        let n = track_number(s, tracks[i])->0->Ok_0;
        lemma_largest(
            s,
            tracks,
            i + 1,
            if n > max {
                n
            } else {
                max
            },
            k,
        );
    }
}

proof fn lemma_video(s: Seq<u8>, tracks: Seq<MovView>, i: int, k: int)
    requires
        0 <= i <= k < tracks.len(),
        video_track(s, tracks[k]) == Some(true),
        forall|j: int| i <= j < k ==> video_track(s, #[trigger] tracks[j]) == Some(false),
        track_number(s, tracks[k]) matches Some(Ok(_)),
    ensures
        video_number(s, tracks, i) == Some(track_number(s, tracks[k])->0->Ok_0),
    decreases k - i,
{
    if i < k {
        assert(video_track(s, tracks[i]) == Some(false));
        lemma_video(s, tracks, i + 1, k);
    }
}

/// A Live Photo movie has a track that marks its still: it begins with the still, holds what
/// is known of it where the movie puts it, has a number that no other track has, and
/// describes the first video track.
pub proof fn live_movies_mark_their_still(
    s: Seq<u8>,
    id: Seq<char>,
    m: MarkView,
    out: Seq<u8>,
    top: Seq<MovView>,
    b: MovView,
    kids: Seq<MovView>,
    v: int,
    k: int,
) -> (r: (MarkerView, int))
    requires
        s.len() <= usize::MAX,
        live_movie(s, id, m) == Some(Ok::<Seq<u8>, Seq<char>>(out)),
        source_boxes(s) == Some(Ok::<(Seq<MovView>, MovView), Seq<char>>((top, b))),
        mov_boxes(s.subrange(b.offset, b.end()), 8, b.end() - b.offset) == Some(
            Ok::<Seq<MovView>, Seq<char>>(kids),
        ),
        0 <= b.offset <= b.end() <= s.len(),
        out.len() - s.len() <= u32::MAX,
    ensures
        ({
            let (marker, x) = r;
            let moov = s.subrange(b.offset, b.end());
            let tracks = kids.filter(mov_typed(TRAK@));
            &&& occurs_at(out, marker_track(marker), x)
            &&& marker_track(marker).len() <= u32::MAX
            &&& marker.empty_duration == m.empty_duration
            &&& marker.transform == m.transform
            &&& marker.dimensions == m.dimensions
            &&& marker.chunk_offset == s.len() + 8
            &&& movie_clock(moov) matches Some(Ok(clock)) && marker.movie_timescale == clock.0
            &&& 0 <= k < tracks.len() ==> (track_number(moov, tracks[k]) matches Some(Ok(n)) && n
                < marker.track_id)
            &&& 0 <= v < tracks.len() && video_track(moov, tracks[v]) == Some(true) && (forall|
                j: int,
            |
                0 <= j < v ==> video_track(moov, #[trigger] tracks[j]) == Some(false)) ==> (
            track_number(moov, tracks[v]) matches Some(Ok(n)) && marker.video_track_id == n)
        }),
{
    let (_, _, marker, new) = lemma_live_parts(s, id, m, out);
    let moov = s.subrange(b.offset, b.end());
    let meta = movie_meta_bytes(encode_utf8(id));
    lemma_rewritten_boxes(s, top, b);
    lemma_marker_numbers(moov, kids, v, k);
    let x = lemma_marker_place(
        flat(top, rewritten_box(s)) + mov_bytes(
            MDAT@,
            marker_sample(m.transform, m.dimensions),
        ),
        moov,
        kids,
        marker_track(marker),
        meta,
        marker.track_id,
        new,
        out,
    );
    (marker, x)
}

proof fn lemma_marker_place(
    before: Seq<u8>,
    moov: Seq<u8>,
    kids: Seq<MovView>,
    track: Seq<u8>,
    meta: Seq<u8>,
    number: u32,
    new: Seq<u8>,
    out: Seq<u8>,
) -> (x: int)
    requires
        out == before + new,
        new.len() <= u32::MAX,
        mov_boxes(moov, 8, moov.len() as int) == Some(Ok::<Seq<MovView>, Seq<char>>(kids)),
        rebuilt_moov(moov, track, meta, number) == Some(Ok::<Seq<u8>, Seq<char>>(new)),
    ensures
        occurs_at(out, track, x),
        track.len() <= u32::MAX,
{
    let front = flat(kids, moov_child(moov, number + 1));
    let at = before.len() as int;
    assert(out.subrange(0, out.len() as int) =~= out);
    lemma_parts(out, before, new, 0);
    assert(new == mov_bytes(MOOV@, front + track + meta));
    lemma_small(MOOV@, front + track + meta);
    lemma_within(out, at, MOOV@, front + track + meta);
    lemma_parts(out, front + track, meta, at + 8);
    lemma_parts(out, front, track, at + 8);
    at + 8 + front.len()
}

proof fn lemma_marker_numbers(moov: Seq<u8>, kids: Seq<MovView>, v: int, k: int)
    requires
        mov_boxes(moov, 8, moov.len() as int) == Some(Ok::<Seq<MovView>, Seq<char>>(kids)),
        movie_tracks(moov) matches Some(Ok(_)),
    ensures
        movie_tracks(moov) matches Some(Ok(numbers)) && {
            let tracks = kids.filter(mov_typed(TRAK@));
            &&& movie_clock(moov) matches Some(Ok(clock)) && numbers.0 == clock.0
            &&& 0 <= k < tracks.len() ==> (track_number(moov, tracks[k]) matches Some(Ok(n)) && n
                <= numbers.2)
            &&& 0 <= v < tracks.len() && video_track(moov, tracks[v]) == Some(true) && (forall|
                j: int,
            |
                0 <= j < v ==> video_track(moov, #[trigger] tracks[j]) == Some(false)) ==> (
            track_number(moov, tracks[v]) matches Some(Ok(n)) && numbers.1 == n)
        },
{
    let tracks = kids.filter(mov_typed(TRAK@));
    if 0 <= k < tracks.len() {
        lemma_largest(moov, tracks, 0, 0, k);
    }
    if 0 <= v < tracks.len() && video_track(moov, tracks[v]) == Some(true) && (forall|j: int|
        0 <= j < v ==> video_track(moov, #[trigger] tracks[j]) == Some(false)) {
        lemma_largest(moov, tracks, 0, 0, v);
        lemma_video(moov, tracks, 0, v);
    }
}

} // verus!
