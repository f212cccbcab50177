//! When the samples of a track are shown.

use crate::bytes::{be32, be64};
use crate::fourcc::{CTTS, HDLR, MDHD, MDIA, MVHD, STTS, TRAK};
use crate::live_photo::{CoverView, first_video, moov_times};
use crate::quicktime::{
    MAX_SAMPLES, MovView, TimesView, VIDE, child_of, composition_offset, ctts_offsets,
    decoding_times, media_scale, mov_boxes, mov_typed, movie_clock, movie_root, offsets_from,
    presentation_times, sample_table, stts_times, ticks, video_track,
};
use crate::seqs::first_where;
use vstd::prelude::*;

verus! {

/// How many samples the first `k` entries of a table from `p` on stand for: each has the number
/// of its samples in four bytes and a value in the next four.
pub open spec fn samples_before(s: Seq<u8>, p: int, k: int) -> int
    decreases k,
{
    if k <= 0 {
        0
    } else {
        samples_before(s, p, k - 1) + be32(s, p + 8 * (k - 1))
    }
}

/// How long the samples of the first `k` entries of a table from `p` on last together, where
/// the value of an entry is what each of its samples lasts.
pub open spec fn time_before(s: Seq<u8>, p: int, k: int) -> int
    decreases k,
{
    if k <= 0 {
        0
    } else {
        time_before(s, p, k - 1) + be32(s, p + 8 * (k - 1)) * be32(s, p + 8 * (k - 1) + 4)
    }
}

/// Whether sample `i` is the `j`-th of those that the `k`-th of `n` entries stands for.
pub open spec fn is_sample_of(s: Seq<u8>, p: int, n: int, i: int, k: int, j: int) -> bool {
    &&& 0 <= k < n
    &&& 0 <= j < be32(s, p + 8 * k)
    &&& i == samples_before(s, p, k) + j
}

proof fn lemma_samples(s: Seq<u8>, p: int, k: int)
    ensures
        0 <= samples_before(s, p, k),
        0 <= time_before(s, p, k),
    decreases k,
{
    if k > 0 {
        lemma_samples(s, p, k - 1);
        assert(0 <= be32(s, p + 8 * (k - 1)) * be32(s, p + 8 * (k - 1) + 4)) by (nonlinear_arith)
            requires
                0 <= be32(s, p + 8 * (k - 1)),
                0 <= be32(s, p + 8 * (k - 1) + 4),
        ;
    }
}

/// Times that were found so far stay as they are.
proof fn lemma_kept_times(s: Seq<u8>, cursor: int, end: int, left: int, dts: Seq<u64>, clock: int, all: Seq<u64>)
    requires
        decoding_times(s, cursor, end, left, dts, clock) == Ok::<Seq<u64>, Seq<char>>(all),
    ensures
        dts.len() <= all.len(),
        forall|i: int| 0 <= i < dts.len() ==> all[i] == #[trigger] dts[i],
    decreases left,
{
    if left > 0 {
        let count = be32(s, cursor);
        let delta = be32(s, cursor + 4);
        let next = ticks(dts, clock, delta, count as nat);
        lemma_kept_times(s, cursor + 8, end, left - 1, next, clock + count * delta, all);
        assert forall|i: int| 0 <= i < dts.len() implies all[i] == #[trigger] dts[i] by {
            assert(next[i] == dts[i]);
        }
    }
}

proof fn lemma_times(
    s: Seq<u8>,
    p: int,
    end: int,
    n: int,
    m: int,
    dts: Seq<u64>,
    all: Seq<u64>,
    k: int,
    j: int,
)
    requires
        0 <= m <= n,
        dts.len() == samples_before(s, p, m),
        decoding_times(s, p + 8 * m, end, n - m, dts, time_before(s, p, m)) == Ok::<
            Seq<u64>,
            Seq<char>,
        >(all),
        time_before(s, p, m) <= dts.len() * 0x1_0000_0000,
    ensures
        all.len() == samples_before(s, p, n),
        all.len() <= dts.len() || all.len() <= MAX_SAMPLES,
        m <= k < n && 0 <= j < be32(s, p + 8 * k) ==> {
            let i = samples_before(s, p, k) + j;
            0 <= i < all.len() && all[i] == time_before(s, p, k) + j * be32(s, p + 8 * k + 4)
        },
    decreases n - m,
{
    if m < n {
        let cursor = p + 8 * m;
        let clock = time_before(s, p, m);
        let count = be32(s, cursor);
        let delta = be32(s, cursor + 4);
        let next = ticks(dts, clock, delta, count as nat);
        assert(p + 8 * (m + 1) == cursor + 8);
        assert(count * delta <= count * 0x1_0000_0000) by (nonlinear_arith)
            requires
                0 <= count,
                delta <= 0x1_0000_0000,
        ;
        lemma_samples(s, p, m);
        lemma_times(s, p, end, n, m + 1, next, all, k, j);
        lemma_kept_times(s, cursor + 8, end, n - m - 1, next, clock + count * delta, all);
        if k == m && 0 <= j < count {
            let i = samples_before(s, p, k) + j;
            assert(next[i] == (clock + j * delta) as u64);
            assert(0 <= j * delta <= count * delta) by (nonlinear_arith)
                requires
                    0 <= j < count,
                    0 <= delta,
            ;
            assert(all[i] == next[i]);
        }
    }
}

/// A sample is decoded when all samples before it have lasted: the `j`-th sample of the `k`-th
/// entry of the table of durations comes after the samples of the entries before, and after
/// `j` of its own entry. There are as many samples as the entries say.
pub proof fn samples_are_decoded_one_after_the_other(
    s: Seq<u8>,
    stts: MovView,
    dts: Seq<u64>,
    i: int,
    k: int,
    j: int,
)
    requires
        stts_times(s, stts) == Ok::<Seq<u64>, Seq<char>>(dts),
    ensures
        ({
            let p = stts.payload() + 8;
            let n = be32(s, stts.payload() + 4);
            &&& dts.len() == samples_before(s, p, n)
            &&& is_sample_of(s, p, n, i, k, j) ==> 0 <= i < dts.len() && dts[i] == time_before(
                s,
                p,
                k,
            ) + j * be32(s, p + 8 * k + 4)
        }),
{
    let p = stts.payload() + 8;
    let n = be32(s, stts.payload() + 4);
    lemma_times(s, p, stts.end(), n, 0, Seq::empty(), dts, k, j);
}

/// The value of four bytes as a signed number.
pub open spec fn signed_value(v: int) -> int {
    if v < 0x8000_0000 {
        v
    } else {
        v - 0x1_0000_0000
    }
}

proof fn lemma_kept_offsets(
    s: Seq<u8>,
    cursor: int,
    end: int,
    left: int,
    signed: bool,
    total: int,
    acc: Seq<int>,
    all: Seq<int>,
)
    requires
        offsets_from(s, cursor, end, left, signed, total, acc) == Ok::<Seq<int>, Seq<char>>(all),
    ensures
        acc.len() <= all.len(),
        forall|i: int| 0 <= i < acc.len() ==> all[i] == #[trigger] acc[i],
    decreases left,
{
    if left > 0 {
        let count = be32(s, cursor);
        let value = composition_offset(s, cursor + 4, signed);
        let next = acc + Seq::new(count as nat, |i: int| value);
        lemma_kept_offsets(s, cursor + 8, end, left - 1, signed, total, next, all);
        assert forall|i: int| 0 <= i < acc.len() implies all[i] == #[trigger] acc[i] by {
            assert(next[i] == acc[i]);
        }
    }
}

proof fn lemma_offsets(
    s: Seq<u8>,
    p: int,
    end: int,
    n: int,
    m: int,
    signed: bool,
    total: int,
    acc: Seq<int>,
    all: Seq<int>,
    k: int,
    j: int,
)
    requires
        0 <= m <= n,
        acc.len() == samples_before(s, p, m),
        offsets_from(s, p + 8 * m, end, n - m, signed, total, acc) == Ok::<Seq<int>, Seq<char>>(all),
    ensures
        all.len() == total,
        all.len() == samples_before(s, p, n),
        m <= k < n && 0 <= j < be32(s, p + 8 * k) ==> {
            let i = samples_before(s, p, k) + j;
            0 <= i < all.len() && all[i] == composition_offset(s, p + 8 * k + 4, signed)
        },
    decreases n - m,
{
    if m < n {
        let cursor = p + 8 * m;
        let count = be32(s, cursor);
        let value = composition_offset(s, cursor + 4, signed);
        let next = acc + Seq::new(count as nat, |i: int| value);
        assert(p + 8 * (m + 1) == cursor + 8);
        lemma_samples(s, p, m);
        lemma_offsets(s, p, end, n, m + 1, signed, total, next, all, k, j);
        lemma_kept_offsets(s, cursor + 8, end, n - m - 1, signed, total, next, all);
        if k == m && 0 <= j < count {
            let i = samples_before(s, p, k) + j;
            assert(next[i] == value);
            assert(all[i] == next[i]);
        }
    }
}

/// Every sample has the composition offset of its entry, which is signed in a table of version
/// 1, and there are as many samples as the entries say.
pub proof fn samples_have_the_offset_of_their_entry(
    s: Seq<u8>,
    ctts: MovView,
    total: int,
    offsets: Seq<int>,
    i: int,
    k: int,
    j: int,
)
    requires
        ctts_offsets(s, ctts, total) == Some(Ok::<Seq<int>, Seq<char>>(offsets)),
    ensures
        ({
            let p = ctts.payload() + 8;
            let n = be32(s, ctts.payload() + 4);
            let v = be32(s, p + 8 * k + 4);
            &&& offsets.len() == total
            &&& total == samples_before(s, p, n)
            &&& is_sample_of(s, p, n, i, k, j) ==> 0 <= i < total && offsets[i] == (if s[p - 8]
                == 1 {
                signed_value(v)
            } else {
                v
            })
        }),
{
    let p = ctts.payload() + 8;
    let n = be32(s, ctts.payload() + 4);
    lemma_offsets(
        s,
        p,
        ctts.end(),
        n,
        0,
        s[p - 8] == 1,
        total,
        Seq::empty(),
        offsets,
        k,
        j,
    );
}

/// Whether boxes are those of a track that are read for its times: the sample table with its
/// table of durations, and the header of its media.
pub open spec fn are_time_boxes(
    s: Seq<u8>,
    track: MovView,
    stbl: MovView,
    kids: Seq<MovView>,
    stts: MovView,
) -> bool {
    &&& sample_table(s, track) == Some(Ok::<MovView, Seq<char>>(stbl))
    &&& mov_boxes(s, stbl.payload(), stbl.end()) == Some(Ok::<Seq<MovView>, Seq<char>>(kids))
    &&& first_where(kids, mov_typed(STTS@)) == Some(stts)
}

/// A sample is shown when it is decoded and its composition offset has passed: with a `ctts`
/// box the tick of a sample is the time that all samples before it last plus the offset that
/// the box has for it, and without one it is that time alone.
pub proof fn samples_are_shown_at_their_offset(
    s: Seq<u8>,
    track: MovView,
    t: TimesView,
    stbl: MovView,
    kids: Seq<MovView>,
    stts: MovView,
    i: int,
    k: int,
    j: int,
    l: int,
    q: int,
)
    requires
        presentation_times(s, track) == Some(Ok::<TimesView, Seq<char>>(t)),
        are_time_boxes(s, track, stbl, kids, stts),
        is_sample_of(s, stts.payload() + 8, be32(s, stts.payload() + 4), i, k, j),
    ensures
        ({
            let p = stts.payload() + 8;
            let decoded = time_before(s, p, k) + j * be32(s, p + 8 * k + 4);
            &&& t.ticks.len() == samples_before(s, p, be32(s, stts.payload() + 4))
            &&& 0 <= i < t.ticks.len()
            &&& match first_where(kids, mov_typed(CTTS@)) {
                None => t.ticks[i] == decoded,
                Some(ctts) => {
                    let at = ctts.payload() + 8;
                    let v = be32(s, at + 8 * l + 4);
                    is_sample_of(s, at, be32(s, ctts.payload() + 4), i, l, q) ==> t.ticks[i]
                        == decoded + (if s[ctts.payload()] == 1 {
                        signed_value(v)
                    } else {
                        v
                    })
                },
            }
        }),
{
    let dts = stts_times(s, stts)->Ok_0;
    samples_are_decoded_one_after_the_other(s, stts, dts, i, k, j);
    if let Some(ctts) = first_where(kids, mov_typed(CTTS@)) {
        let offsets = ctts_offsets(s, ctts, dts.len() as int)->0->Ok_0;
        samples_have_the_offset_of_their_entry(
            s,
            ctts,
            dts.len() as int,
            offsets,
            i,
            l,
            q,
        );
    }
}

/// Every sample of a table belongs to one of its entries.
pub proof fn samples_belong_to_an_entry(s: Seq<u8>, p: int, n: int, i: int) -> (r: (int, int))
    requires
        0 <= i < samples_before(s, p, n),
    ensures
        is_sample_of(s, p, n, i, r.0, r.1),
    decreases n,
{
    if i < samples_before(s, p, n - 1) {
        samples_belong_to_an_entry(s, p, n - 1, i)
    } else {
        (n - 1, i - samples_before(s, p, n - 1))
    }
}

// ---------------------------------------------------------------------------
// When times are owed
// ---------------------------------------------------------------------------

/// Whether a table with its version in the first byte of its payload holds all of its entries.
pub open spec fn holds_entries(s: Seq<u8>, b: MovView) -> bool {
    &&& 0 <= b.payload()
    &&& b.end() <= s.len()
    &&& b.payload() + 8 + 8 * be32(s, b.payload() + 4) <= b.end()
}

/// How many samples the entries of a table stand for.
pub open spec fn samples_of(s: Seq<u8>, b: MovView) -> int {
    samples_before(s, b.payload() + 8, be32(s, b.payload() + 4))
}

proof fn lemma_fewer_before(s: Seq<u8>, p: int, m: int, n: int)
    requires
        m <= n,
    ensures
        samples_before(s, p, m) <= samples_before(s, p, n),
    decreases n - m,
{
    if m < n {
        lemma_fewer_before(s, p, m, n - 1);
        if n <= 0 {
            assert(samples_before(s, p, m) == 0);
        }
    }
}

proof fn lemma_times_owed(s: Seq<u8>, p: int, end: int, n: int, m: int, dts: Seq<u64>, clock: int)
    requires
        0 <= m <= n,
        p + 8 * n <= end,
        dts.len() == samples_before(s, p, m),
        samples_before(s, p, n) <= 10_000_000,
    ensures
        decoding_times(s, p + 8 * m, end, n - m, dts, clock) matches Ok(all) && all.len()
            == samples_before(s, p, n),
    decreases n - m,
{
    if m < n {
        let cursor = p + 8 * m;
        let count = be32(s, cursor);
        let delta = be32(s, cursor + 4);
        assert(p + 8 * (m + 1) == cursor + 8);
        lemma_fewer_before(s, p, m + 1, n);
        lemma_times_owed(
            s,
            p,
            end,
            n,
            m + 1,
            ticks(dts, clock, delta, count as nat),
            clock + count * delta,
        );
    }
}

proof fn lemma_offsets_owed(
    s: Seq<u8>,
    p: int,
    end: int,
    n: int,
    m: int,
    signed: bool,
    total: int,
    acc: Seq<int>,
)
    requires
        0 <= m <= n,
        p + 8 * n <= end,
        acc.len() == samples_before(s, p, m),
        samples_before(s, p, n) == total,
    ensures
        offsets_from(s, p + 8 * m, end, n - m, signed, total, acc) is Ok,
    decreases n - m,
{
    if m < n {
        let cursor = p + 8 * m;
        let count = be32(s, cursor);
        let value = composition_offset(s, cursor + 4, signed);
        assert(p + 8 * (m + 1) == cursor + 8);
        lemma_fewer_before(s, p, m + 1, n);
        lemma_offsets_owed(
            s,
            p,
            end,
            n,
            m + 1,
            signed,
            total,
            acc + Seq::new(count as nat, |i: int| value),
        );
    }
}

/// A track has times where its tables hold their entries and stand for the same samples, of
/// which there are some and no more than ten millions, and its media has a time scale, which
/// stands behind the two dates of its header and goes with the times.
pub proof fn complete_tables_give_times(
    s: Seq<u8>,
    track: MovView,
    stbl: MovView,
    kids: Seq<MovView>,
    stts: MovView,
    scale: u32,
)
    requires
        media_scale(s, track) == Some(Ok::<u32, Seq<char>>(scale)),
        are_time_boxes(s, track, stbl, kids, stts),
        holds_entries(s, stts),
        0 < samples_of(s, stts) <= 10_000_000,
        first_where(kids, mov_typed(CTTS@)) matches Some(ctts) ==> holds_entries(s, ctts)
            && samples_of(s, ctts) == samples_of(s, stts),
    ensures
        presentation_times(s, track) matches Some(Ok(t)) && t.timescale == scale && t.ticks.len()
            == samples_of(s, stts),
{
    let p = stts.payload() + 8;
    let n = be32(s, stts.payload() + 4);
    lemma_times_owed(s, p, stts.end(), n, 0, Seq::empty(), 0);
    let dts = stts_times(s, stts)->Ok_0;
    if let Some(ctts) = first_where(kids, mov_typed(CTTS@)) {
        let q = ctts.payload() + 8;
        lemma_offsets_owed(
            s,
            q,
            ctts.end(),
            be32(s, ctts.payload() + 4),
            0,
            s[ctts.payload()] == 1,
            dts.len() as int,
            Seq::empty(),
        );
    }
}

/// The header box of a medium says how many ticks a second has: behind its version and flags
/// come two dates, of four bytes each in version 0 and of eight otherwise.
pub proof fn media_say_their_time_scale(s: Seq<u8>, track: MovView, mdia: MovView, mdhd: MovView)
    requires
        child_of(s, track, MDIA@) == Some(Ok::<MovView, Seq<char>>(mdia)),
        child_of(s, mdia, MDHD@) == Some(Ok::<MovView, Seq<char>>(mdhd)),
        mdhd.header_size == 8,
        0 <= mdhd.offset,
        mdhd.payload() + 24 <= s.len(),
    ensures
        ({
            let at = mdhd.payload() + (if s[mdhd.payload()] == 0 {
                12int
            } else {
                20
            });
            media_scale(s, track) == (if be32(s, at) == 0 {
                Some(Err("invalid media timescale"@))
            } else {
                Some(Ok::<u32, Seq<char>>(be32(s, at) as u32))
            })
        }),
{
}

// ---------------------------------------------------------------------------
// The cover frame
// ---------------------------------------------------------------------------

proof fn lemma_video_found(s: Seq<u8>, tracks: Seq<MovView>, i: int, k: int, found: Option<MovView>)
    requires
        0 <= i <= tracks.len(),
        0 <= k < tracks.len(),
        forall|j: int| 0 <= j < tracks.len() ==> video_track(s, #[trigger] tracks[j]) is Some,
        video_track(s, tracks[k]) == Some(true),
        forall|j: int| 0 <= j < k ==> video_track(s, #[trigger] tracks[j]) == Some(false),
        i <= k ==> found is None,
        k < i ==> found == Some(tracks[k]),
    ensures
        first_video(s, tracks, i, found) == Some(Some(tracks[k])),
    decreases tracks.len() - i,
{
    if i < tracks.len() {
        assert(video_track(s, tracks[i]) is Some);
        assert(i < k ==> video_track(s, tracks[i]) == Some(false));
        lemma_video_found(
            s,
            tracks,
            i + 1,
            k,
            if video_track(s, tracks[i])->0 && found is None {
                Some(tracks[i])
            } else {
                found
            },
        );
    }
}

/// The cover frame is chosen among the times of the first video track, whatever other tracks
/// the movie has, and the movie's own clock goes with them.
pub proof fn covers_are_chosen_among_video_samples(
    moov: Seq<u8>,
    clock: (u32, u64),
    kids: Seq<MovView>,
    k: int,
    t: TimesView,
)
    requires
        movie_clock(moov) == Some(Ok::<(u32, u64), Seq<char>>(clock)),
        mov_boxes(moov, 8, moov.len() as int) == Some(Ok::<Seq<MovView>, Seq<char>>(kids)),
        0 <= k < kids.filter(mov_typed(TRAK@)).len(),
        forall|j: int|
            0 <= j < kids.filter(mov_typed(TRAK@)).len() ==> video_track(
                moov,
                #[trigger] kids.filter(mov_typed(TRAK@))[j],
            ) is Some,
        video_track(moov, kids.filter(mov_typed(TRAK@))[k]) == Some(true),
        forall|j: int|
            0 <= j < k ==> video_track(moov, #[trigger] kids.filter(mov_typed(TRAK@))[j]) == Some(
                false,
            ),
        presentation_times(moov, kids.filter(mov_typed(TRAK@))[k]) == Some(
            Ok::<TimesView, Seq<char>>(t),
        ),
    ensures
        moov_times(moov) == Some(
            Ok::<CoverView, Seq<char>>(
                CoverView {
                    samples: t,
                    movie_timescale: clock.0,
                    movie_duration: clock.1,
                },
            ),
        ),
{
    lemma_video_found(moov, kids.filter(mov_typed(TRAK@)), 0, k, None);
}

/// A track is a video track exactly where the handler of its media is of type `vide`, which
/// stands behind the version, the flags and four bytes more.
pub proof fn video_tracks_have_a_video_handler(
    s: Seq<u8>,
    track: MovView,
    mdia: MovView,
    hdlr: MovView,
)
    requires
        child_of(s, track, MDIA@) == Some(Ok::<MovView, Seq<char>>(mdia)),
        child_of(s, mdia, HDLR@) == Some(Ok::<MovView, Seq<char>>(hdlr)),
        20 <= hdlr.size,
        hdlr.payload() + 12 <= s.len(),
        0 <= hdlr.payload(),
    ensures
        video_track(s, track) == Some(
            s.subrange(hdlr.payload() + 8, hdlr.payload() + 12) == seq![
                0x76u8,
                0x69u8,
                0x64u8,
                0x65u8,
            ],
        ),
{
    assert(VIDE@ =~= seq![0x76u8, 0x69u8, 0x64u8, 0x65u8]);
}

/// The clock of a movie stands in its header behind the two dates: the ticks of a second, and
/// how many of them the movie lasts.
pub proof fn movies_say_their_clock(moov: Seq<u8>, mvhd: MovView)
    requires
        child_of(moov, movie_root(moov), MVHD@) == Some(Ok::<MovView, Seq<char>>(mvhd)),
        mvhd.header_size == 8,
        0 <= mvhd.offset,
        mvhd.payload() + 32 <= moov.len(),
        moov[mvhd.payload()] <= 1,
    ensures
        ({
            let p = mvhd.payload();
            let (scale, duration) = if moov[p] == 0 {
                (be32(moov, p + 12), be32(moov, p + 16))
            } else {
                (be32(moov, p + 20), be64(moov, p + 24))
            };
            scale != 0 ==> movie_clock(moov) == Some(
                Ok::<(u32, u64), Seq<char>>((scale as u32, duration as u64)),
            )
        }),
{
}

} // verus!
