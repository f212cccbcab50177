//! QuickTime movies: boxes, tracks and sample times.

use crate::bytes::{
    append, be32, be64, bytes_eq, enc24, enc32, enc64, push24, push32, push64_sum, read32,
};
use crate::fourcc::{CTTS, HDLR, MDHD, MDIA, MINF, MOOV, MVHD, STBL, STTS, TKHD, same_tag};
use crate::iso_validate::said_some;
use crate::isobmff::{box_bytes, make_box, read_u64be};
use crate::seqs::{
    first_where, lemma_first_where_at, lemma_first_where_has, lemma_first_where_none, told_some,
    views,
};
use crate::text::{decimal, decimal_text, decode_lossy, join, lossy_text};
use vstd::prelude::*;

verus! {

/// A box of a movie.
#[derive(Debug, Clone, Copy)]
pub struct MovBox {
    pub offset: usize,
    pub size: usize,
    pub kind: [u8; 4],
    pub header_size: usize,
}

/// What a box of a movie says.
#[verifier::ext_equal]
pub struct MovView {
    pub offset: int,
    pub size: int,
    pub kind: Seq<u8>,
    pub header_size: int,
}

impl View for MovBox {
    type V = MovView;

    open spec fn view(&self) -> MovView {
        MovView {
            offset: self.offset as int,
            size: self.size as int,
            kind: self.kind@,
            header_size: self.header_size as int,
        }
    }
}

impl MovView {
    /// Where the payload begins.
    pub open spec fn payload(self) -> int {
        self.offset + self.header_size
    }

    /// Where the box ends.
    pub open spec fn end(self) -> int {
        self.offset + self.size
    }

    /// Whether the box lies before `end`.
    pub open spec fn within(self, end: int) -> bool {
        &&& 0 <= self.offset
        &&& self.header_size == 8 || self.header_size == 16
        &&& self.header_size <= self.size
        &&& self.offset + self.size <= end
        &&& self.kind.len() == 4
    }
}

impl MovBox {
    /// Where the payload begins.
    pub fn payload_offset(&self) -> (r: usize)
        requires
            self.offset + self.header_size <= usize::MAX,
        ensures
            r == self@.payload(),
    {
        self.offset + self.header_size
    }

    /// Where the box ends.
    pub fn end(&self) -> (r: usize)
        requires
            self.offset + self.size <= usize::MAX,
        ensures
            r == self@.end(),
    {
        self.offset + self.size
    }
}

/// The box at `pos` of data that ends at `end`, or why there is none. `None` where its
/// size exceeds the address range.
pub open spec fn mov_box_at(s: Seq<u8>, pos: int, end: int) -> Option<Result<MovView, Seq<char>>> {
    let kind = s.subrange(pos + 4, pos + 8);
    let (size, header_size) = if be32(s, pos) == 1 {
        (be64(s, pos + 8), 16int)
    } else if be32(s, pos) == 0 {
        (end - pos, 8)
    } else {
        (be32(s, pos), 8)
    };
    if pos + 8 > end {
        Some(Err("truncated ISO BMFF box header"@))
    } else if be32(s, pos) == 1 && pos + 16 > end {
        Some(Err("truncated extended box header"@))
    } else if size >= header_size && pos + size > usize::MAX {
        None
    } else if size < header_size || pos + size > end {
        Some(Err("invalid "@ + lossy_text(kind) + " box size "@ + decimal_text(size)))
    } else {
        Some(Ok(MovView { offset: pos, size, kind, header_size }))
    }
}

/// The boxes from `pos` to `end`, behind `acc`.
pub open spec fn mov_boxes_from(s: Seq<u8>, pos: int, end: int, acc: Seq<MovView>) -> Option<
    Result<Seq<MovView>, Seq<char>>,
>
    decreases end - pos,
{
    if pos >= end {
        Some(Ok(acc))
    } else {
        match mov_box_at(s, pos, end) {
            None => None,
            Some(Err(e)) => Some(Err(e)),
            Some(Ok(b)) => mov_boxes_from(s, pos + b.size, end, acc.push(b)),
        }
    }
}

/// The boxes from `pos` to `end`, or why they cannot be read. `None` where a size
/// exceeds the address range.
pub open spec fn mov_boxes(s: Seq<u8>, pos: int, end: int) -> Option<Result<Seq<MovView>, Seq<char>>> {
    mov_boxes_from(s, pos, end, Seq::empty())
}

/// What a result with boxes says.
pub open spec fn told_boxes(r: Option<Result<Vec<MovBox>, String>>) -> Option<
    Result<Seq<MovView>, Seq<char>>,
> {
    match r {
        None => None,
        Some(Err(e)) => Some(Err(e@)),
        Some(Ok(v)) => Some(Ok(views(v@))),
    }
}

/// Whether all boxes lie before `end`.
pub open spec fn all_within(boxes: Seq<MovView>, end: int) -> bool {
    forall|i: int| 0 <= i < boxes.len() ==> (#[trigger] boxes[i]).within(end)
}

fn read_mov_box(data: &[u8], pos: usize, end: usize) -> (r: Option<Result<MovBox, String>>)
    requires
        pos < end <= data.len(),
    ensures
        told_some(r) == mov_box_at(data@, pos as int, end as int),
        r matches Some(Ok(b)) ==> b@.within(end as int) && b.offset == pos,
{
    if end - pos < 8 {
        return Some(Err("truncated ISO BMFF box header".to_string()));
    }
    let size32: u32 = read32(data, pos, false);
    let kind: [u8; 4] = [data[pos + 4], data[pos + 5], data[pos + 6], data[pos + 7]];
    assert(kind@ =~= data@.subrange(pos + 4, pos + 8));
    let (size, header_size): (u64, u64) = if size32 == 1 {
        if end - pos < 16 {
            return Some(Err("truncated extended box header".to_string()));
        }
        (read_u64be(data, pos + 8), 16)
    } else if size32 == 0 {
        ((end - pos) as u64, 8)
    } else {
        (size32 as u64, 8)
    };
    if size >= header_size && size > (usize::MAX - pos) as u64 {
        return None;
    }
    if size < header_size || size > (end - pos) as u64 {
        let before: String = join("invalid ", decode_lossy(kind.as_slice()).as_str());
        return Some(
            Err(join(join(before.as_str(), " box size ").as_str(), decimal(size).as_str())),
        );
    }
    Some(
        Ok(
            MovBox {
                offset: pos,
                size: size as usize,
                kind,
                header_size: header_size as usize,
            },
        ),
    )
}

/// Read the boxes of `data` from `start` to `end`; `None` where a size exceeds the
/// address range.
pub fn scan_boxes(data: &[u8], start: usize, end: usize) -> (r: Option<Result<Vec<MovBox>, String>>)
    requires
        end <= data.len(),
    ensures
        told_boxes(r) == mov_boxes(data@, start as int, end as int),
        r matches Some(Ok(v)) ==> all_within(views(v@), end as int),
{
    let mut out: Vec<MovBox> = Vec::new();
    let mut pos: usize = start;
    assert(views(out@) =~= Seq::empty());
    while pos < end
        invariant
            end <= data@.len(),
            pos <= end || pos == start,
            all_within(views(out@), end as int),
            mov_boxes(data@, start as int, end as int) == mov_boxes_from(
                data@,
                pos as int,
                end as int,
                views(out@),
            ),
        decreases end - pos,
    {
        match read_mov_box(data, pos, end) {
            None => {
                return None;
            },
            Some(Err(e)) => {
                return Some(Err(e));
            },
            Some(Ok(b)) => {
                let ghost before = views(out@);
                out.push(b);
                assert(views(out@) =~= before.push(b@));
                pos = pos + b.size;
            },
        }
    }
    Some(Ok(out))
}

/// A box: its size in 32 bits, or in 64 where they do not do, its type and its
/// payload.
pub open spec fn mov_bytes(kind: Seq<u8>, payload: Seq<u8>) -> Seq<u8> {
    if payload.len() + 8 <= 0xffff_ffff {
        box_bytes(kind, payload)
    } else {
        enc32(1) + kind + enc64(payload.len() + 16int) + payload
    }
}

/// Build a box of a movie.
pub fn make_mov_box(kind: &[u8; 4], payload: &[u8]) -> (r: Vec<u8>)
    ensures
        r@ == mov_bytes(kind@, payload@),
{
    if payload.len() as u64 <= 0xffff_ffff - 8 {
        make_box(kind, payload)
    } else {
        let mut v: Vec<u8> = Vec::new();
        push32(&mut v, 1);
        append(&mut v, kind.as_slice());
        push64_sum(&mut v, payload.len(), 16);
        append(&mut v, payload);
        v
    }
}

/// A box with a version and flags.
pub open spec fn full_bytes(kind: Seq<u8>, version: u8, flags: int, payload: Seq<u8>) -> Seq<u8> {
    mov_bytes(kind, seq![version] + enc24(flags) + payload)
}

/// Build a box with a version and flags.
pub fn full_box(kind: &[u8; 4], version: u8, flags: u32, payload: &[u8]) -> (r: Vec<u8>)
    ensures
        r@ == full_bytes(kind@, version, flags as int, payload@),
{
    let mut p: Vec<u8> = vec![version];
    push24(&mut p, flags);
    append(&mut p, payload);
    assert(p@ =~= seq![version] + enc24(flags as int) + payload@);
    make_mov_box(kind, p.as_slice())
}

/// Being a box of a type.
pub open spec fn mov_typed(kind: Seq<u8>) -> spec_fn(MovView) -> bool {
    |b: MovView| b.kind == kind
}

/// The first box of a type.
pub fn find_mov<'a>(boxes: &'a Vec<MovBox>, kind: &[u8; 4]) -> (r: Option<&'a MovBox>)
    ensures
        match r {
            Some(b) => first_where(views(boxes@), mov_typed(kind@)) == Some(b@),
            None => first_where(views(boxes@), mov_typed(kind@)) is None,
        },
{
    let mut i: usize = 0;
    while i < boxes.len()
        invariant
            i <= boxes@.len(),
            forall|j: int| 0 <= j < i ==> (#[trigger] boxes@[j]).kind@ != kind@,
        decreases boxes@.len() - i,
    {
        if same_tag(&boxes[i].kind, kind) {
            proof {
                lemma_first_where_at(views(boxes@), mov_typed(kind@), i as int);
            }
            return Some(&boxes[i]);
        }
        i = i + 1;
    }
    proof {
        lemma_first_where_none(views(boxes@), mov_typed(kind@));
    }
    None
}

/// The first box of a type in a box, or why there is none.
pub open spec fn child_of(s: Seq<u8>, parent: MovView, kind: Seq<u8>) -> Option<
    Result<MovView, Seq<char>>,
> {
    match mov_boxes(s, parent.payload(), parent.end()) {
        None => None,
        Some(Err(e)) => Some(Err(e)),
        Some(Ok(kids)) => match first_where(kids, mov_typed(kind)) {
            Some(b) => Some(Ok(b)),
            None => Some(Err("missing "@ + lossy_text(kind) + " box"@)),
        },
    }
}

/// The first box of a type in a box.
pub fn direct_child(data: &[u8], parent: &MovBox, kind: &[u8; 4]) -> (r: Option<Result<MovBox, String>>)
    requires
        parent@.within(data.len() as int),
    ensures
        told_some(r) == child_of(data@, parent@, kind@),
        r matches Some(Ok(b)) ==> b@.within(parent@.end()) && b@.within(data@.len() as int),
{
    match scan_boxes(data, parent.payload_offset(), parent.end()) {
        None => None,
        Some(Err(e)) => Some(Err(e)),
        Some(Ok(kids)) => match find_mov(&kids, kind) {
            Some(b) => {
                proof {
                    lemma_first_where_has(views(kids@), mov_typed(kind@));
                }
                Some(Ok(*b))
            },
            None => Some(
                Err(
                    join(
                        join("missing ", decode_lossy(kind.as_slice()).as_str()).as_str(),
                        " box",
                    ),
                ),
            ),
        },
    }
}

/// The whole of a movie box, taken as a box with an 8-byte header.
pub open spec fn movie_root(s: Seq<u8>) -> MovView {
    MovView { offset: 0, size: s.len() as int, kind: MOOV@, header_size: 8 }
}

pub fn make_root(moov: &[u8]) -> (r: MovBox)
    requires
        moov.len() >= 8,
    ensures
        r@ == movie_root(moov@),
        r@.within(moov@.len() as int),
{
    MovBox { offset: 0, size: moov.len(), kind: MOOV, header_size: 8 }
}

/// Time scale and duration of a movie, or why there are none. `None` where its header
/// is cut short by the end of the data.
pub open spec fn movie_clock(s: Seq<u8>) -> Option<Result<(u32, u64), Seq<char>>> {
    match child_of(s, movie_root(s), MVHD@) {
        None => None,
        Some(Err(e)) => Some(Err(e)),
        Some(Ok(b)) => if b.payload() >= s.len() {
            None
        } else {
            let version = s[b.payload()];
            if version > 1 {
                Some(Err("unsupported mvhd version "@ + decimal_text(version as int)))
            } else {
                let at = b.offset + if version == 0 {
                    20int
                } else {
                    28
                };
                let end = at + if version == 0 {
                    8int
                } else {
                    12
                };
                if end > s.len() {
                    None
                } else if be32(s, at) == 0 {
                    Some(Err("invalid movie timescale"@))
                } else {
                    let duration = if version == 0 {
                        be32(s, at + 4)
                    } else {
                        be64(s, at + 4)
                    };
                    Some(Ok((be32(s, at) as u32, duration as u64)))
                }
            }
        },
    }
}

/// Read the time scale and the duration of a movie from its `moov` box; `None` where
/// its header is cut short by the end of the data.
pub fn movie_timescale(moov: &[u8]) -> (r: Option<Result<(u32, u64), String>>)
    requires
        moov.len() >= 8,
    ensures
        said_some(r) == movie_clock(moov@),
        r matches Some(Ok(c)) ==> c.0 > 0,
{
    let mvhd: MovBox = match direct_child(moov, &make_root(moov), &MVHD) {
        None => {
            return None;
        },
        Some(Err(e)) => {
            return Some(Err(e));
        },
        Some(Ok(b)) => b,
    };
    let p: usize = mvhd.payload_offset();
    if p >= moov.len() {
        return None;
    }
    let version: u8 = moov[p];
    if version > 1 {
        return Some(Err(join("unsupported mvhd version ", decimal(version as u64).as_str())));
    }
    let (skip, need): (usize, usize) = if version == 0 {
        (20, 28)
    } else {
        (28, 40)
    };
    if moov.len() - mvhd.offset < need {
        return None;
    }
    let at: usize = mvhd.offset + skip;
    let timescale: u32 = read32(moov, at, false);
    let duration: u64 = if version == 0 {
        read32(moov, at + 4, false) as u64
    } else {
        read_u64be(moov, at + 4)
    };
    if timescale == 0 {
        return Some(Err("invalid movie timescale".to_string()));
    }
    Some(Ok((timescale, duration)))
}

/// The number behind the two time stamps of a header box: a track's number or a time
/// scale. `None` where the box is cut short by the end of the data.
pub open spec fn number_in_header(s: Seq<u8>, b: MovView) -> Option<u32> {
    if b.payload() >= s.len() {
        None
    } else {
        let at = b.offset + if s[b.payload()] == 0 {
            20int
        } else {
            28
        };
        if at + 4 > s.len() {
            None
        } else {
            Some(be32(s, at) as u32)
        }
    }
}

fn read_number_in_header(data: &[u8], b: &MovBox) -> (r: Option<u32>)
    requires
        b@.within(data.len() as int),
    ensures
        r == number_in_header(data@, b@),
{
    let p: usize = b.payload_offset();
    if p >= data.len() {
        return None;
    }
    let skip: usize = if data[p] == 0 {
        20
    } else {
        28
    };
    if data.len() - b.offset < skip + 4 {
        return None;
    }
    Some(read32(data, b.offset + skip, false))
}

/// The number of a track.
pub open spec fn track_number(s: Seq<u8>, track: MovView) -> Option<Result<u32, Seq<char>>> {
    match child_of(s, track, TKHD@) {
        None => None,
        Some(Err(e)) => Some(Err(e)),
        Some(Ok(b)) => match number_in_header(s, b) {
            None => None,
            Some(n) => Some(Ok(n)),
        },
    }
}

pub fn track_id(moov: &[u8], track: &MovBox) -> (r: Option<Result<u32, String>>)
    requires
        track@.within(moov.len() as int),
    ensures
        said_some(r) == track_number(moov@, track@),
{
    match direct_child(moov, track, &TKHD) {
        None => None,
        Some(Err(e)) => Some(Err(e)),
        Some(Ok(b)) => match read_number_in_header(moov, &b) {
            None => None,
            Some(n) => Some(Ok(n)),
        },
    }
}

/// The handler type of a track, such as `vide`.
pub open spec fn track_handler(s: Seq<u8>, track: MovView) -> Option<Result<Seq<u8>, Seq<char>>> {
    match child_of(s, track, MDIA@) {
        None => None,
        Some(Err(e)) => Some(Err(e)),
        Some(Ok(mdia)) => match child_of(s, mdia, HDLR@) {
            None => None,
            Some(Err(e)) => Some(Err(e)),
            Some(Ok(b)) => if b.size < 20 {
                Some(Err("truncated media handler"@))
            } else if b.payload() + 12 > s.len() {
                None
            } else {
                Some(Ok(s.subrange(b.payload() + 8, b.payload() + 12)))
            },
        },
    }
}

/// Whether a track is a video track, as its handler says.
pub fn is_video_track(moov: &[u8], track: &MovBox) -> (r: Option<bool>)
    requires
        track@.within(moov.len() as int),
    ensures
        r == video_track(moov@, track@),
{
    let mdia: MovBox = match direct_child(moov, track, &MDIA) {
        None => {
            return None;
        },
        Some(Err(_)) => {
            return Some(false);
        },
        Some(Ok(b)) => b,
    };
    let hdlr: MovBox = match direct_child(moov, &mdia, &HDLR) {
        None => {
            return None;
        },
        Some(Err(_)) => {
            return Some(false);
        },
        Some(Ok(b)) => b,
    };
    if hdlr.size < 20 {
        return Some(false);
    }
    let p: usize = hdlr.payload_offset();
    if moov.len() - p < 12 {
        return None;
    }
    Some(bytes_eq(vstd::slice::slice_subrange(moov, p + 8, p + 12), VIDE.as_slice()))
}

/// The handler type of a video track.
pub const VIDE: [u8; 4] = [0x76, 0x69, 0x64, 0x65];

/// Whether a track is a video track. `None` where the data ends within its handler.
pub open spec fn video_track(s: Seq<u8>, track: MovView) -> Option<bool> {
    match track_handler(s, track) {
        None => None,
        Some(Err(_)) => Some(false),
        Some(Ok(h)) => Some(h == VIDE@),
    }
}

/// The time scale of a track's media.
pub open spec fn media_scale(s: Seq<u8>, track: MovView) -> Option<Result<u32, Seq<char>>> {
    match child_of(s, track, MDIA@) {
        None => None,
        Some(Err(e)) => Some(Err(e)),
        Some(Ok(mdia)) => match child_of(s, mdia, MDHD@) {
            None => None,
            Some(Err(e)) => Some(Err(e)),
            Some(Ok(b)) => match number_in_header(s, b) {
                None => None,
                Some(n) => if n == 0 {
                    Some(Err("invalid media timescale"@))
                } else {
                    Some(Ok(n))
                },
            },
        },
    }
}

fn mdhd_timescale(moov: &[u8], track: &MovBox) -> (r: Option<Result<u32, String>>)
    requires
        track@.within(moov.len() as int),
    ensures
        said_some(r) == media_scale(moov@, track@),
        r matches Some(Ok(n)) ==> n > 0,
{
    let mdia: MovBox = match direct_child(moov, track, &MDIA) {
        None => {
            return None;
        },
        Some(Err(e)) => {
            return Some(Err(e));
        },
        Some(Ok(b)) => b,
    };
    let mdhd: MovBox = match direct_child(moov, &mdia, &MDHD) {
        None => {
            return None;
        },
        Some(Err(e)) => {
            return Some(Err(e));
        },
        Some(Ok(b)) => b,
    };
    match read_number_in_header(moov, &mdhd) {
        None => None,
        Some(n) => if n == 0 {
            Some(Err("invalid media timescale".to_string()))
        } else {
            Some(Ok(n))
        },
    }
}

// ---------------------------------------------------------------------------
// Sample times
// ---------------------------------------------------------------------------

/// The most samples that a track may have.
pub const MAX_SAMPLES: usize = 10_000_000;

/// `n` decoding times from `clock` on, `delta` apart, behind `acc`.
pub open spec fn ticks(acc: Seq<u64>, clock: int, delta: int, n: nat) -> Seq<u64> {
    acc + Seq::new(n, |i: int| (clock + i * delta) as u64)
}

/// The decoding times that the entries of a `stts` box from `cursor` on say, behind
/// `dts`; the next sample comes at `clock`.
pub open spec fn decoding_times(
    s: Seq<u8>,
    cursor: int,
    end: int,
    left: int,
    dts: Seq<u64>,
    clock: int,
) -> Result<Seq<u64>, Seq<char>>
    decreases left,
{
    if left <= 0 {
        Ok(dts)
    } else if cursor + 8 > end {
        Err("truncated stts entry"@)
    } else {
        let count = be32(s, cursor);
        let delta = be32(s, cursor + 4);
        if count > MAX_SAMPLES - dts.len() {
            Err("video sample table exceeds safety limit"@)
        } else {
            decoding_times(
                s,
                cursor + 8,
                end,
                left - 1,
                ticks(dts, clock, delta, count as nat),
                clock + count * delta,
            )
        }
    }
}

/// The decoding times of the samples that a `stts` box describes.
pub open spec fn stts_times(s: Seq<u8>, stts: MovView) -> Result<Seq<u64>, Seq<char>> {
    let cursor = stts.payload() + 4;
    if cursor + 4 > stts.end() {
        Err("truncated stts"@)
    } else {
        match decoding_times(s, cursor + 4, stts.end(), be32(s, cursor), Seq::empty(), 0) {
            Err(e) => Err(e),
            Ok(dts) => if dts.len() == 0 {
                Err("video track has no samples"@)
            } else {
                Ok(dts)
            },
        }
    }
}

/// What a result with times says.
pub open spec fn told_times(r: Result<Vec<u64>, String>) -> Result<Seq<u64>, Seq<char>> {
    match r {
        Ok(v) => Ok(v@),
        Err(e) => Err(e@),
    }
}

fn read_stts(moov: &[u8], stts: &MovBox) -> (r: Result<Vec<u64>, String>)
    requires
        stts@.within(moov.len() as int),
    ensures
        told_times(r) == stts_times(moov@, stts@),
        r matches Ok(v) ==> 0 < v@.len() <= MAX_SAMPLES && forall|i: int|
            0 <= i < v@.len() ==> #[trigger] v@[i] <= MAX_SAMPLES * 0x1_0000_0000,
{
    let end: usize = stts.end();
    let p: usize = stts.payload_offset();
    if end - p < 8 {
        return Err("truncated stts".to_string());
    }
    let entry_count: u32 = read32(moov, p + 4, false);
    let mut cursor: usize = p + 8;
    let mut dts: Vec<u64> = Vec::new();
    let mut clock: u64 = 0;
    let mut k: u32 = 0;
    let ghost all = decoding_times(
        moov@,
        cursor as int,
        end as int,
        entry_count as int,
        Seq::empty(),
        0,
    );
    while k < entry_count
        invariant
            k <= entry_count,
            cursor <= end <= moov@.len(),
            dts@.len() <= MAX_SAMPLES,
            clock <= dts@.len() * 0x1_0000_0000,
            all matches Err(e) ==> stts_times(moov@, stts@) == Err::<Seq<u64>, Seq<char>>(e),
            forall|i: int| 0 <= i < dts@.len() ==> #[trigger] dts@[i] <= MAX_SAMPLES * 0x1_0000_0000,
            all == decoding_times(
                moov@,
                cursor as int,
                end as int,
                entry_count - k,
                dts@,
                clock as int,
            ),
        decreases entry_count - k,
    {
        if end - cursor < 8 {
            return Err("truncated stts entry".to_string());
        }
        let count: u32 = read32(moov, cursor, false);
        let delta: u32 = read32(moov, cursor + 4, false);
        cursor = cursor + 8;
        if count as usize > MAX_SAMPLES - dts.len() {
            return Err("video sample table exceeds safety limit".to_string());
        }
        let ghost before = dts@;
        let ghost from = clock as int;
        let mut i: u32 = 0;
        proof {
            assert(0 * delta == 0) by (nonlinear_arith);
            assert(dts@ =~= ticks(before, from, delta as int, 0));
        }
        while i < count
            invariant
                i <= count,
                before.len() + count <= MAX_SAMPLES,
                clock == from + i * delta,
                0 <= from <= before.len() * 0x1_0000_0000,
                clock <= (before.len() + i) * 0x1_0000_0000,
                dts@ == ticks(before, from, delta as int, i as nat),
                forall|j: int|
                    0 <= j < dts@.len() ==> #[trigger] dts@[j] <= MAX_SAMPLES * 0x1_0000_0000,
            decreases count - i,
        {
            dts.push(clock);
            assert((i + 1) * delta == i * delta + delta) by (nonlinear_arith);
            clock = clock + delta as u64;
            i = i + 1;
            assert(dts@ =~= ticks(before, from, delta as int, i as nat));
        }
        k = k + 1;
    }
    if dts.len() == 0 {
        return Err("video track has no samples".to_string());
    }
    Ok(dts)
}

/// A composition offset; signed in boxes of version 1.
pub open spec fn composition_offset(s: Seq<u8>, at: int, signed: bool) -> int {
    let v = be32(s, at);
    if signed && v >= 0x8000_0000 {
        v - 0x1_0000_0000
    } else {
        v
    }
}

/// The composition offsets that the entries of a `ctts` box from `cursor` on say,
/// behind `acc`, for `total` samples.
pub open spec fn offsets_from(
    s: Seq<u8>,
    cursor: int,
    end: int,
    left: int,
    signed: bool,
    total: int,
    acc: Seq<int>,
) -> Result<Seq<int>, Seq<char>>
    decreases left,
{
    if left <= 0 {
        if acc.len() == total {
            Ok(acc)
        } else {
            Err("ctts/stts sample count mismatch"@)
        }
    } else if cursor + 8 > end {
        Err("truncated ctts entry"@)
    } else {
        let count = be32(s, cursor);
        let value = composition_offset(s, cursor + 4, signed);
        if acc.len() + count > total {
            Err("ctts sample count exceeds stts"@)
        } else {
            offsets_from(
                s,
                cursor + 8,
                end,
                left - 1,
                signed,
                total,
                acc + Seq::new(count as nat, |i: int| value),
            )
        }
    }
}

/// The composition offsets of `total` samples that a `ctts` box says. `None` where the
/// data ends before its entries.
pub open spec fn ctts_offsets(s: Seq<u8>, b: MovView, total: int) -> Option<Result<Seq<int>, Seq<char>>> {
    let p = b.payload();
    if p + 8 > s.len() {
        None
    } else {
        Some(
            offsets_from(s, p + 8, b.end(), be32(s, p + 4), s[p] == 1, total, Seq::empty()),
        )
    }
}

/// Signed numbers as integers.
pub open spec fn signed_ints(v: Seq<i64>) -> Seq<int> {
    Seq::new(v.len(), |i: int| v[i] as int)
}

/// What a result with offsets says.
pub open spec fn told_offsets(r: Option<Result<Vec<i64>, String>>) -> Option<Result<Seq<int>, Seq<char>>> {
    match r {
        None => None,
        Some(Err(e)) => Some(Err(e@)),
        Some(Ok(v)) => Some(Ok(signed_ints(v@))),
    }
}

fn read_ctts(moov: &[u8], ctts: &MovBox, total: usize) -> (r: Option<Result<Vec<i64>, String>>)
    requires
        ctts@.within(moov.len() as int),
        total <= MAX_SAMPLES,
    ensures
        told_offsets(r) == ctts_offsets(moov@, ctts@, total as int),
        r matches Some(Ok(v)) ==> v@.len() == total && forall|i: int|
            0 <= i < v@.len() ==> -0x8000_0000 <= #[trigger] v@[i] <= 0xffff_ffff,
{
    let p: usize = ctts.payload_offset();
    if moov.len() - p < 8 {
        return None;
    }
    let end: usize = ctts.end();
    let signed: bool = moov[p] == 1;
    let entry_count: u32 = read32(moov, p + 4, false);
    let mut cursor: usize = p + 8;
    let mut offsets: Vec<i64> = Vec::new();
    let mut k: u32 = 0;
    let ghost all = offsets_from(
        moov@,
        cursor as int,
        end as int,
        entry_count as int,
        signed,
        total as int,
        Seq::empty(),
    );
    assert(signed_ints(offsets@) =~= Seq::empty());
    while k < entry_count
        invariant
            k <= entry_count,
            end <= moov@.len(),
            cursor <= moov@.len(),
            offsets@.len() <= total <= MAX_SAMPLES,
            ctts_offsets(moov@, ctts@, total as int) == Some(all),
            forall|i: int|
                0 <= i < offsets@.len() ==> -0x8000_0000 <= #[trigger] offsets@[i] <= 0xffff_ffff,
            all == offsets_from(
                moov@,
                cursor as int,
                end as int,
                entry_count - k,
                signed,
                total as int,
                signed_ints(offsets@),
            ),
        decreases entry_count - k,
    {
        if cursor > end || end - cursor < 8 {
            return Some(Err("truncated ctts entry".to_string()));
        }
        let count: u32 = read32(moov, cursor, false);
        let raw: u32 = read32(moov, cursor + 4, false);
        let value: i64 = if signed && raw >= 0x8000_0000 {
            raw as i64 - 0x1_0000_0000
        } else {
            raw as i64
        };
        cursor = cursor + 8;
        if count as usize > total - offsets.len() {
            return Some(Err("ctts sample count exceeds stts".to_string()));
        }
        let ghost before = signed_ints(offsets@);
        let mut i: u32 = 0;
        assert(signed_ints(offsets@) =~= before + Seq::new(0, |j: int| value as int));
        while i < count
            invariant
                i <= count,
                before.len() + count <= total,
                -0x8000_0000 <= value <= 0xffff_ffff,
                forall|j: int|
                    0 <= j < offsets@.len() ==> -0x8000_0000 <= #[trigger] offsets@[j]
                        <= 0xffff_ffff,
                signed_ints(offsets@) == before + Seq::new(i as nat, |j: int| value as int),
            decreases count - i,
        {
            let ghost done = signed_ints(offsets@);
            offsets.push(value);
            i = i + 1;
            assert(signed_ints(offsets@) =~= done.push(value as int));
            assert(signed_ints(offsets@) =~= before + Seq::new(i as nat, |j: int| value as int));
        }
        assert(offsets@.len() == signed_ints(offsets@).len());
        k = k + 1;
    }
    assert(offsets@.len() == signed_ints(offsets@).len());
    if offsets.len() != total {
        return Some(Err("ctts/stts sample count mismatch".to_string()));
    }
    Some(Ok(offsets))
}

/// Presentation times of samples, in ticks of a time scale.
pub struct SampleTimes {
    pub ticks: Vec<i64>,
    pub timescale: u32,
}

/// What presentation times say.
#[verifier::ext_equal]
pub struct TimesView {
    pub ticks: Seq<int>,
    pub timescale: u32,
}

impl View for SampleTimes {
    type V = TimesView;

    open spec fn view(&self) -> TimesView {
        TimesView { ticks: signed_ints(self.ticks@), timescale: self.timescale }
    }
}

/// The sample table of a track.
pub open spec fn sample_table(s: Seq<u8>, track: MovView) -> Option<Result<MovView, Seq<char>>> {
    match child_of(s, track, MDIA@) {
        None => None,
        Some(Err(e)) => Some(Err(e)),
        Some(Ok(mdia)) => match child_of(s, mdia, MINF@) {
            None => None,
            Some(Err(e)) => Some(Err(e)),
            Some(Ok(minf)) => child_of(s, minf, STBL@),
        },
    }
}

fn find_sample_table(moov: &[u8], track: &MovBox) -> (r: Option<Result<MovBox, String>>)
    requires
        track@.within(moov.len() as int),
    ensures
        told_some(r) == sample_table(moov@, track@),
        r matches Some(Ok(b)) ==> b@.within(moov@.len() as int),
{
    let mdia: MovBox = match direct_child(moov, track, &MDIA) {
        None => {
            return None;
        },
        Some(Err(e)) => {
            return Some(Err(e));
        },
        Some(Ok(b)) => b,
    };
    let minf: MovBox = match direct_child(moov, &mdia, &MINF) {
        None => {
            return None;
        },
        Some(Err(e)) => {
            return Some(Err(e));
        },
        Some(Ok(b)) => b,
    };
    direct_child(moov, &minf, &STBL)
}

/// The composition offsets of `total` samples of a sample table: zero where it has no
/// `ctts` box.
pub open spec fn table_offsets(s: Seq<u8>, stbl: MovView, total: int) -> Option<
    Result<Seq<int>, Seq<char>>,
> {
    match mov_boxes(s, stbl.payload(), stbl.end()) {
        None => None,
        Some(Err(e)) => Some(Err(e)),
        Some(Ok(kids)) => match first_where(kids, mov_typed(CTTS@)) {
            None => Some(Ok(Seq::new(total as nat, |i: int| 0int))),
            Some(b) => ctts_offsets(s, b, total),
        },
    }
}

fn read_table_offsets(moov: &[u8], stbl: &MovBox, total: usize) -> (r: Option<Result<Vec<i64>, String>>)
    requires
        stbl@.within(moov.len() as int),
        total <= MAX_SAMPLES,
    ensures
        told_offsets(r) == table_offsets(moov@, stbl@, total as int),
        r matches Some(Ok(v)) ==> v@.len() == total && forall|i: int|
            0 <= i < v@.len() ==> -0x8000_0000 <= #[trigger] v@[i] <= 0xffff_ffff,
{
    let kids: Vec<MovBox> = match scan_boxes(moov, stbl.payload_offset(), stbl.end()) {
        None => {
            return None;
        },
        Some(Err(e)) => {
            return Some(Err(e));
        },
        Some(Ok(v)) => v,
    };
    match find_mov(&kids, &CTTS) {
        Some(b) => {
            proof {
                lemma_first_where_has(views(kids@), mov_typed(CTTS@));
            }
            read_ctts(moov, b, total)
        },
        None => {
            let zero: Vec<i64> = vec![0i64; total];
            assert(signed_ints(zero@) =~= Seq::new(total as nat, |i: int| 0int));
            Some(Ok(zero))
        },
    }
}

/// The presentation times of a track's samples: decoding times with composition
/// offsets.
pub open spec fn presentation_times(s: Seq<u8>, track: MovView) -> Option<
    Result<TimesView, Seq<char>>,
> {
    match media_scale(s, track) {
        None => None,
        Some(Err(e)) => Some(Err(e)),
        Some(Ok(timescale)) => match sample_table(s, track) {
            None => None,
            Some(Err(e)) => Some(Err(e)),
            Some(Ok(stbl)) => match child_of(s, stbl, STTS@) {
                None => None,
                Some(Err(e)) => Some(Err(e)),
                Some(Ok(stts)) => match stts_times(s, stts) {
                    Err(e) => Some(Err(e)),
                    Ok(dts) => match table_offsets(s, stbl, dts.len() as int) {
                        None => None,
                        Some(Err(e)) => Some(Err(e)),
                        Some(Ok(offsets)) => Some(
                            Ok(
                                TimesView {
                                    ticks: Seq::new(dts.len(), |i: int| dts[i] + offsets[i]),
                                    timescale,
                                },
                            ),
                        ),
                    },
                },
            },
        },
    }
}

/// Read the presentation times of a track's samples; `None` where a box of it is cut
/// short by the end of the data or a size exceeds the address range.
pub fn sample_times(moov: &[u8], track: &MovBox) -> (r: Option<Result<SampleTimes, String>>)
    requires
        track@.within(moov.len() as int),
    ensures
        told_some(r) == presentation_times(moov@, track@),
        r matches Some(Ok(t)) ==> t.timescale > 0 && t.ticks@.len() > 0,
{
    let timescale: u32 = match mdhd_timescale(moov, track) {
        None => {
            return None;
        },
        Some(Err(e)) => {
            return Some(Err(e));
        },
        Some(Ok(n)) => n,
    };
    let stbl: MovBox = match find_sample_table(moov, track) {
        None => {
            return None;
        },
        Some(Err(e)) => {
            return Some(Err(e));
        },
        Some(Ok(b)) => b,
    };
    let stts: MovBox = match direct_child(moov, &stbl, &STTS) {
        None => {
            return None;
        },
        Some(Err(e)) => {
            return Some(Err(e));
        },
        Some(Ok(b)) => b,
    };
    let dts: Vec<u64> = match read_stts(moov, &stts) {
        Err(e) => {
            return Some(Err(e));
        },
        Ok(v) => v,
    };
    let offsets: Vec<i64> = match read_table_offsets(moov, &stbl, dts.len()) {
        None => {
            return None;
        },
        Some(Err(e)) => {
            return Some(Err(e));
        },
        Some(Ok(v)) => v,
    };
    let ghost want = Seq::new(dts@.len(), |i: int| dts@[i] + signed_ints(offsets@)[i]);
    let mut ticks: Vec<i64> = Vec::new();
    let mut i: usize = 0;
    while i < dts.len()
        invariant
            i <= dts@.len() == offsets@.len(),
            want == Seq::new(dts@.len(), |i: int| dts@[i] + signed_ints(offsets@)[i]),
            forall|j: int| 0 <= j < dts@.len() ==> #[trigger] dts@[j] <= MAX_SAMPLES * 0x1_0000_0000,
            forall|j: int|
                0 <= j < offsets@.len() ==> -0x8000_0000 <= #[trigger] offsets@[j] <= 0xffff_ffff,
            signed_ints(ticks@) == want.take(i as int),
        decreases dts@.len() - i,
    {
        let ghost done = signed_ints(ticks@);
        assert(dts@[i as int] <= MAX_SAMPLES * 0x1_0000_0000);
        let d: i64 = dts[i] as i64;
        let t: i64 = d + offsets[i];
        ticks.push(t);
        i = i + 1;
        assert(signed_ints(ticks@) =~= done.push(t as int));
        assert(signed_ints(ticks@) =~= want.take(i as int));
    }
    assert(want.take(i as int) =~= want);
    assert(ticks@.len() == signed_ints(ticks@).len());
    Some(Ok(SampleTimes { ticks, timescale }))
}

} // verus!
