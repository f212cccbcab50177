//! HEVC elementary streams: NAL units, decoder configuration and chroma planes.

use crate::bytes::{
    append, append_zeros, be32, enc16, enc32, find_bytes, find_from, lemma_find_from_some,
    matches_at, occurs_at, opt_bytes, push16, push16_of, push32, push32_of, zeros,
};
use crate::raster::least;
use crate::seqs::views;
use vstd::prelude::*;

verus! {

/// The short start code of a NAL unit.
pub const START_CODE_3: [u8; 3] = [0x00, 0x00, 0x01];

/// The long start code of a NAL unit.
pub const START_CODE_4: [u8; 4] = [0x00, 0x00, 0x00, 0x01];

/// NAL unit type of a video parameter set.
pub const NAL_VPS: u8 = 32;

/// NAL unit type of a sequence parameter set.
pub const NAL_SPS: u8 = 33;

/// NAL unit type of a picture parameter set.
pub const NAL_PPS: u8 = 34;

/// NAL unit type of prefix supplemental information.
pub const NAL_PREFIX_SEI: u8 = 39;

/// How long the start code at `p` is; zero where there is none.
pub open spec fn code_len(s: Seq<u8>, p: int) -> int {
    if occurs_at(s, START_CODE_4@, p) {
        4
    } else if occurs_at(s, START_CODE_3@, p) {
        3
    } else {
        0
    }
}

/// How long the start code at `p` is; zero where there is none.
fn start_code_len(data: &[u8], p: usize) -> (r: usize)
    ensures
        r == code_len(data@, p as int),
        p + r <= data@.len() || r == 0,
{
    if matches_at(data, &START_CODE_4, p) {
        4
    } else if matches_at(data, &START_CODE_3, p) {
        3
    } else {
        0
    }
}

/// Where the NAL unit that begins at `from` ends: at the next start code, be it long or
/// short, or with the stream.
pub open spec fn nal_end(s: Seq<u8>, from: int) -> int {
    match (find_from(s, START_CODE_4@, from), find_from(s, START_CODE_3@, from)) {
        (Some(long), Some(short)) => least(long, short),
        (Some(long), None) => long,
        (None, Some(short)) => short,
        (None, None) => s.len() as int,
    }
}

pub proof fn lemma_nal_end(s: Seq<u8>, from: int)
    requires
        0 <= from <= s.len(),
    ensures
        from <= nal_end(s, from) <= s.len(),
{
    lemma_find_from_some(s, START_CODE_4@, from);
    lemma_find_from_some(s, START_CODE_3@, from);
}

/// Where the NAL unit that begins at `from` ends.
pub fn find_nal_end(data: &[u8], from: usize) -> (r: usize)
    requires
        from <= data.len(),
    ensures
        r == nal_end(data@, from as int),
        from <= r <= data@.len(),
{
    proof {
        lemma_nal_end(data@, from as int);
    }
    match (find_bytes(data, &START_CODE_4, from), find_bytes(data, &START_CODE_3, from)) {
        (Some(long), Some(short)) => if long <= short {
            long
        } else {
            short
        },
        (Some(long), None) => long,
        (None, Some(short)) => short,
        (None, None) => data.len(),
    }
}

/// The NAL unit type in the first byte of a NAL unit.
pub open spec fn nal_type(header: u8) -> int {
    (header as int / 2) % 64
}

/// Whether a NAL unit of this type is left out of a tile.
pub open spec fn is_parameter_type(t: int) -> bool {
    t == NAL_VPS || t == NAL_SPS || t == NAL_PPS || t == NAL_PREFIX_SEI
}

/// The NAL units from `pos` on, with their start codes, without parameter sets
/// and prefix supplemental information. `None` where the stream ends in a start
/// code.
pub open spec fn slices_from(s: Seq<u8>, pos: int) -> Option<Seq<u8>>
    decreases s.len() - pos,
{
    if pos < 0 || pos >= s.len() {
        Some(Seq::empty())
    } else {
        let start = pos + code_len(s, pos);
        let end = nal_end(s, start);
        if start == pos {
            slices_from(s, pos + 1)
        } else if start >= s.len() {
            None
        } else if end <= pos || end > s.len() {
            None
        } else {
            match slices_from(s, end) {
                None => None,
                Some(rest) => if is_parameter_type(nal_type(s[start])) {
                    Some(rest)
                } else {
                    Some(s.subrange(pos, end) + rest)
                },
            }
        }
    }
}

/// What comes of `done` followed by `rest`.
pub open spec fn followed_by(done: Seq<u8>, rest: Option<Seq<u8>>) -> Option<Seq<u8>> {
    match rest {
        None => None,
        Some(r) => Some(done + r),
    }
}

/// Like `drop_parameter_nals`, for any stream: `None` where it ends in a start
/// code.
pub fn try_drop_parameter_nals(data: &[u8]) -> (r: Option<Vec<u8>>)
    ensures
        opt_bytes(r) == slices_from(data@, 0),
{
    let mut out: Vec<u8> = Vec::new();
    let mut pos: usize = 0;
    assert(slices_from(data@, 0) == followed_by(out@, slices_from(data@, 0))) by {
        match slices_from(data@, 0) {
            Some(x) => assert(out@ + x =~= x),
            None => {},
        }
    }
    while pos < data.len()
        invariant
            pos <= data@.len(),
            slices_from(data@, 0) == followed_by(out@, slices_from(data@, pos as int)),
        decreases data@.len() - pos,
    {
        let code: usize = start_code_len(data, pos);
        if code == 0 {
            pos = pos + 1;
            continue;
        }
        let start: usize = pos + code;
        if start >= data.len() {
            return None;
        }
        let end: usize = find_nal_end(data, start);
        let kind: u8 = (data[start] / 2) % 64;
        let ghost rest = slices_from(data@, end as int);
        if kind != NAL_VPS && kind != NAL_SPS && kind != NAL_PPS && kind != NAL_PREFIX_SEI {
            let ghost before = out@;
            append(&mut out, vstd::slice::slice_subrange(data, pos, end));
            proof {
                match rest {
                    Some(x) => assert(out@ + x =~= before + (data@.subrange(
                        pos as int,
                        end as int,
                    ) + x)),
                    None => {},
                }
            }
        }
        pos = end;
    }
    assert(out@ + Seq::<u8>::empty() =~= out@);
    Some(out)
}

/// Remove parameter sets (VPS, SPS, PPS) and prefix SEI from a single-frame HEVC
/// byte stream; every other unit, the slices among them, stays as it is. The decoder
/// configuration lives in the `hvcC` property alone.
pub fn drop_parameter_nals(data: &[u8]) -> (r: Vec<u8>)
    requires
        slices_from(data@, 0) is Some,
    ensures
        Some(r@) == slices_from(data@, 0),
{
    try_drop_parameter_nals(data).unwrap()
}

/// The NAL units from `pos` on, each behind its length in four bytes.
pub open spec fn prefixed_from(s: Seq<u8>, pos: int) -> Seq<u8>
    decreases s.len() - pos,
{
    if pos < 0 || pos >= s.len() {
        Seq::empty()
    } else {
        let start = pos + code_len(s, pos);
        let end = nal_end(s, start);
        if start == pos {
            prefixed_from(s, pos + 1)
        } else if end <= pos || end > s.len() {
            Seq::empty()
        } else {
            enc32(end - start) + s.subrange(start, end) + prefixed_from(s, end)
        }
    }
}

/// Convert an HEVC byte stream, with start codes of three or four bytes, to
/// length-prefixed NAL units, as `mdat` stores them.
pub fn hevc_byte_stream_to_length_prefixed(data: &[u8]) -> (r: Vec<u8>)
    ensures
        r@ == prefixed_from(data@, 0),
{
    let mut output: Vec<u8> = Vec::new();
    let mut pos: usize = 0;
    while pos < data.len()
        invariant
            pos <= data@.len(),
            prefixed_from(data@, 0) == output@ + prefixed_from(data@, pos as int),
        decreases data@.len() - pos,
    {
        let code: usize = start_code_len(data, pos);
        if code == 0 {
            pos = pos + 1;
            continue;
        }
        let start: usize = pos + code;
        let end: usize = find_nal_end(data, start);
        let ghost before = output@;
        push32_of(&mut output, (end - start) as u64);
        append(&mut output, vstd::slice::slice_subrange(data, start, end));
        assert(output@ + prefixed_from(data@, end as int) =~= before + (enc32(end - start)
            + data@.subrange(start as int, end as int) + prefixed_from(data@, end as int)));
        pos = end;
    }
    assert(output@ + Seq::<u8>::empty() =~= output@);
    output
}

/// The bytes from `i` on with each `00 00 03` replaced by `00 00`.
pub open spec fn unescaped(nal: Seq<u8>, i: int) -> Seq<u8>
    decreases nal.len() - i,
{
    if i < 0 || i >= nal.len() {
        Seq::empty()
    } else if i + 2 < nal.len() && nal[i] == 0 && nal[i + 1] == 0 && nal[i + 2] == 3 {
        seq![0u8, 0u8] + unescaped(nal, i + 3)
    } else {
        seq![nal[i]] + unescaped(nal, i + 1)
    }
}

/// Strip the emulation-prevention bytes from a NAL unit.
pub fn rbsp(nal: &[u8]) -> (r: Vec<u8>)
    ensures
        r@ == unescaped(nal@, 0),
{
    let mut out: Vec<u8> = Vec::new();
    let mut i: usize = 0;
    while i < nal.len()
        invariant
            i <= nal@.len(),
            unescaped(nal@, 0) == out@ + unescaped(nal@, i as int),
        decreases nal@.len() - i,
    {
        let ghost before = out@;
        if nal.len() - i > 2 && nal[i] == 0 && nal[i + 1] == 0 && nal[i + 2] == 3 {
            out.push(0);
            out.push(0);
            assert(out@ + unescaped(nal@, i + 3) =~= before + (seq![0u8, 0u8] + unescaped(nal@, i + 3)));
            i = i + 3;
        } else {
            out.push(nal[i]);
            assert(out@ + unescaped(nal@, i + 1) =~= before + (seq![nal@[i as int]] + unescaped(nal@, i + 1)));
            i = i + 1;
        }
    }
    assert(out@ + Seq::<u8>::empty() =~= out@);
    out
}

/// The bit at `pos`, most significant bit of each byte first.
pub open spec fn bit_at(s: Seq<u8>, pos: int) -> int {
    ((s[pos / 8] >> ((7 - pos % 8) as u8)) & 1u8) as int
}

/// The value of the `n` bits from `pos` on.
pub open spec fn bits_at(s: Seq<u8>, pos: int, n: nat) -> int
    decreases n,
{
    if n == 0 {
        0
    } else {
        2 * bits_at(s, pos, (n - 1) as nat) + bit_at(s, pos + n - 1)
    }
}

/// A reader of bits over a byte slice, most significant bit first.
pub struct BitReader<'a> {
    pub data: &'a [u8],
    pub pos: usize,
}

proof fn lemma_double_mod(v: int, bit: int)
    requires
        0 <= bit <= 1,
    ensures
        (2 * v + bit) % 0x1_0000_0000 == (v % 0x8000_0000) * 2 + bit,
        (v % 0x1_0000_0000) % 0x8000_0000 == v % 0x8000_0000,
{
}

impl BitReader<'_> {
    /// Read `n` bits; the low 32 of them are the result.
    pub fn read(&mut self, n: u32) -> (r: u32)
        requires
            old(self).pos + n <= 8 * old(self).data.len(),
            old(self).pos + n <= usize::MAX,
        ensures
            final(self).data == old(self).data,
            final(self).pos == old(self).pos + n,
            r == bits_at(old(self).data@, old(self).pos as int, n as nat) % 0x1_0000_0000,
    {
        let mut val: u32 = 0;
        let mut i: u32 = 0;
        let ghost start = self.pos as int;
        while i < n
            invariant
                i <= n,
                self.data == old(self).data,
                self.pos == start + i,
                start + n <= 8 * self.data.len(),
                start + n <= usize::MAX,
                val == bits_at(self.data@, start, i as nat) % 0x1_0000_0000,
            decreases n - i,
        {
            let byte: u8 = self.data[self.pos / 8];
            let bit: u8 = (byte >> ((7 - (self.pos % 8)) as u8)) & 1u8;
            assert(bit <= 1) by {
                let shifted: u8 = byte >> ((7 - (self.pos % 8)) as u8);
                assert(shifted & 1u8 <= 1u8) by (bit_vector);
            }
            proof {
                lemma_double_mod(bits_at(self.data@, start, i as nat), bit as int);
            }
            val = (val % 0x8000_0000) * 2 + bit as u32;
            self.pos = self.pos + 1;
            i = i + 1;
        }
        val
    }
}

/// Eight bits that fill a byte are that byte.
pub proof fn lemma_bits_of_byte(s: Seq<u8>, k: int)
    ensures
        bits_at(s, 8 * k, 8) == s[k],
{
    reveal_with_fuel(bits_at, 9);
    let b = s[k];
    assert(((b >> 7u8) & 1u8) * 128 + ((b >> 6u8) & 1u8) * 64 + ((b >> 5u8) & 1u8) * 32 + ((b >> 4u8)
        & 1u8) * 16 + ((b >> 3u8) & 1u8) * 8 + ((b >> 2u8) & 1u8) * 4 + ((b >> 1u8) & 1u8) * 2 + ((b
        >> 0u8) & 1u8) == b) by (bit_vector);
    assert forall|i: int| 0 <= i < 8 implies #[trigger] bit_at(s, 8 * k + i) == ((b >> ((7 - i) as u8))
        & 1u8) as int by {
        assert((8 * k + i) / 8 == k && (8 * k + i) % 8 == i);
    }
    assert(bit_at(s, 8 * k) == ((b >> 7u8) & 1u8) as int) by {
        assert(bit_at(s, 8 * k + 0) == ((b >> 7u8) & 1u8) as int);
    }
}

/// The value of bits is that of the first ones before that of the others.
pub proof fn lemma_bits_split(s: Seq<u8>, pos: int, m: nat, n: nat)
    ensures
        bits_at(s, pos, m + n) == bits_at(s, pos, m) * pow2_of(n) + bits_at(s, pos + m, n),
    decreases n,
{
    if n > 0 {
        let p = (n - 1) as nat;
        lemma_bits_split(s, pos, m, p);
        let a = bits_at(s, pos, m);
        assert(2 * (a * pow2_of(p)) == a * (2 * pow2_of(p))) by (nonlinear_arith);
        assert((m + n - 1) as nat == m + p);
    }
}

/// Two to the power `n`.
pub open spec fn pow2_of(n: nat) -> int
    decreases n,
{
    if n == 0 {
        1
    } else {
        2 * pow2_of((n - 1) as nat)
    }
}

/// Thirty-two bits that fill four bytes are their big-endian value.
pub proof fn lemma_bits_of_word(s: Seq<u8>, k: int)
    ensures
        bits_at(s, 8 * k, 32) == be32(s, k),
{
    lemma_bits_of_byte(s, k);
    lemma_bits_of_byte(s, k + 1);
    lemma_bits_of_byte(s, k + 2);
    lemma_bits_of_byte(s, k + 3);
    lemma_bits_split(s, 8 * k, 8, 8);
    lemma_bits_split(s, 8 * k, 16, 8);
    lemma_bits_split(s, 8 * k, 24, 8);
    assert(pow2_of(8) == 256) by {
        reveal_with_fuel(pow2_of, 9);
    }
}

/// The profile byte, the compatibility flags and the level of a parameter set. A
/// level of zero stands for `0x5a`.
pub open spec fn profile_at(s: Seq<u8>, k: int) -> (u8, u32, u8) {
    (
        s[k],
        be32(s, k + 1) as u32,
        if s[k + 11] != 0 {
            s[k + 11]
        } else {
            0x5a
        },
    )
}

/// Read what `profile_at` says, from a reader that stands at byte `k`.
fn read_profile(br: &mut BitReader<'_>, k: usize) -> (r: (u8, u32, u8))
    requires
        old(br).pos == 8 * k,
        k + 12 <= old(br).data.len(),
        8 * k + 96 <= usize::MAX,
    ensures
        r == profile_at(old(br).data@, k as int),
{
    let ghost s = br.data@;
    proof {
        lemma_bits_of_byte(s, k as int);
        lemma_bits_of_word(s, k + 1);
        lemma_bits_of_byte(s, k + 11);
    }
    let profile: u32 = br.read(8);
    let compat: u32 = br.read(32);
    let _ = br.read(48);
    let level: u32 = br.read(8);
    (
        profile as u8,
        compat,
        if level != 0 {
            level as u8
        } else {
            0x5a
        },
    )
}

/// The profile, compatibility flags and level in a sequence parameter set: behind
/// the NAL header of two bytes, identifiers of one byte come first.
pub open spec fn sps_profile(sps: Seq<u8>) -> Option<(u8, u32, u8)> {
    let s = unescaped(sps, 0);
    if s.len() < 16 {
        None
    } else {
        Some(profile_at(s, 3))
    }
}

/// The profile, compatibility flags and level in a sequence parameter set.
pub fn sps_ptl(sps: &[u8]) -> (r: Option<(u8, u32, u8)>)
    ensures
        r == sps_profile(sps@),
{
    let rbsp: Vec<u8> = rbsp(sps);
    if rbsp.len() < 16 {
        return None;
    }
    let data: &[u8] = vstd::slice::slice_subrange(rbsp.as_slice(), 2, rbsp.len());
    let mut br: BitReader<'_> = BitReader { data, pos: 0 };
    // Parameter set identifier, number of sub-layers, nesting flag.
    let _ = br.read(4);
    let _ = br.read(3);
    let _ = br.read(1);
    let ghost s = rbsp@;
    assert(profile_at(data@, 1) == profile_at(s, 3));
    Some(read_profile(&mut br, 1))
}

/// The profile, compatibility flags and level in a video parameter set: behind
/// the NAL header of two bytes, identifiers of four bytes come first.
pub open spec fn vps_profile(vps: Seq<u8>) -> Option<(u8, u32, u8)> {
    let s = unescaped(vps, 0);
    if s.len() < 22 {
        None
    } else {
        Some(profile_at(s, 6))
    }
}

/// The profile, compatibility flags and level in a video parameter set.
pub fn vps_ptl(vps: &[u8]) -> (r: Option<(u8, u32, u8)>)
    ensures
        r == vps_profile(vps@),
{
    let rbsp: Vec<u8> = rbsp(vps);
    if rbsp.len() < 22 {
        return None;
    }
    let data: &[u8] = vstd::slice::slice_subrange(rbsp.as_slice(), 2, rbsp.len());
    let mut br: BitReader<'_> = BitReader { data, pos: 0 };
    // Parameter set identifier, base layer flags, number of layers, number of
    // sub-layers, nesting flag, reserved bits.
    let _ = br.read(4);
    let _ = br.read(1);
    let _ = br.read(1);
    let _ = br.read(6);
    let _ = br.read(3);
    let _ = br.read(1);
    let _ = br.read(16);
    let ghost s = rbsp@;
    assert(profile_at(data@, 4) == profile_at(s, 6));
    Some(read_profile(&mut br, 4))
}

/// Where the start codes from `p` on stand.
pub open spec fn code_positions(s: Seq<u8>, p: int) -> Seq<int>
    decreases s.len() - p,
{
    if p < 0 || p >= s.len() {
        Seq::empty()
    } else if code_len(s, p) > 0 {
        seq![p] + code_positions(s, p + code_len(s, p))
    } else {
        code_positions(s, p + 1)
    }
}

/// What stands between the start code `i` of `positions` and the next one.
pub open spec fn nal_between(s: Seq<u8>, positions: Seq<int>, i: int) -> Seq<u8> {
    let start = positions[i] + code_len(s, positions[i]);
    let end = if i + 1 < positions.len() {
        positions[i + 1]
    } else {
        s.len() as int
    };
    if start < end {
        s.subrange(start, end)
    } else {
        Seq::empty()
    }
}

/// The last of the first `n` NAL units that is of type `t`; empty ones have no
/// type.
pub open spec fn last_nal(s: Seq<u8>, positions: Seq<int>, t: u8, n: nat) -> Option<Seq<u8>>
    decreases n,
{
    if n == 0 {
        None
    } else {
        let nal = nal_between(s, positions, n - 1);
        if nal.len() > 0 && nal_type(nal[0]) == t {
            Some(nal)
        } else {
            last_nal(s, positions, t, (n - 1) as nat)
        }
    }
}

/// The last NAL unit of type `t` in a byte stream.
pub open spec fn parameter_set(s: Seq<u8>, t: u8) -> Option<Seq<u8>> {
    let positions = code_positions(s, 0);
    last_nal(s, positions, t, positions.len())
}

/// An array of one NAL unit in a decoder configuration record.
pub open spec fn nal_array(nal_type: u8, nal: Seq<u8>) -> Seq<u8> {
    seq![(0x40 + nal_type % 64) as u8] + enc16(1) + enc16(nal.len() as int) + nal
}

/// The decoder configuration record of three parameter sets. A chroma format of 3
/// (4:4:4) always claims compatibility with the Main 4:4:4 profile.
pub open spec fn hvcc_record(vps: Seq<u8>, sps: Seq<u8>, pps: Seq<u8>, chroma: u8) -> Seq<u8> {
    let (profile, flags, level) = match sps_profile(sps) {
        Some(p) => p,
        None => match vps_profile(vps) {
            Some(p) => p,
            None => (0x04u8, 0x0800_0000u32, 0x5au8),
        },
    };
    let compat = if chroma == 3 {
        0x0800_0000
    } else {
        flags
    };
    seq![1u8, profile] + enc32(compat as int) + zeros(6) + seq![
        level,
        0xf0u8,
        0x00u8,
        0xfcu8,
        (0xfc + chroma % 4) as u8,
        0xf8u8,
        0xf8u8,
        0u8,
        0u8,
        0x0fu8,
        3u8,
    ] + nal_array(NAL_VPS, vps) + nal_array(NAL_SPS, sps) + nal_array(NAL_PPS, pps)
}

/// The decoder configuration record of a byte stream; `None` where one of the
/// three parameter sets is missing.
pub open spec fn hvcc_of(s: Seq<u8>, chroma: u8) -> Option<Seq<u8>> {
    match (parameter_set(s, NAL_VPS), parameter_set(s, NAL_SPS), parameter_set(s, NAL_PPS)) {
        (Some(vps), Some(sps), Some(pps)) => Some(hvcc_record(vps, sps, pps, chroma)),
        _ => None,
    }
}

/// Positions as integers.
pub open spec fn as_ints(s: Seq<usize>) -> Seq<int> {
    Seq::new(s.len(), |i: int| s[i] as int)
}

/// Where the start codes stand.
fn start_codes(data: &[u8]) -> (r: Vec<usize>)
    ensures
        as_ints(r@) == code_positions(data@, 0),
        forall|i: int| 0 <= i < r@.len() ==> #[trigger] r@[i] < data@.len(),
{
    let mut out: Vec<usize> = Vec::new();
    let mut p: usize = 0;
    assert(as_ints(out@) + code_positions(data@, 0) =~= code_positions(data@, 0));
    while p < data.len()
        invariant
            p <= data@.len(),
            code_positions(data@, 0) == as_ints(out@) + code_positions(data@, p as int),
            forall|i: int| 0 <= i < out@.len() ==> #[trigger] out@[i] < data@.len(),
        decreases data@.len() - p,
    {
        let code: usize = start_code_len(data, p);
        if code > 0 {
            let ghost before = as_ints(out@);
            out.push(p);
            let ghost rest = code_positions(data@, p + code);
            assert(as_ints(out@) + rest =~= before + (seq![p as int] + rest));
            p = p + code;
        } else {
            p = p + 1;
        }
    }
    assert(as_ints(out@) + Seq::<int>::empty() =~= as_ints(out@));
    out
}

/// The last NAL unit of type `kind` in a byte stream.
fn find_parameter_set<'a>(data: &'a [u8], positions: &[usize], kind: u8) -> (r: Option<&'a [u8]>)
    requires
        forall|i: int| 0 <= i < positions@.len() ==> #[trigger] positions@[i] < data@.len(),
    ensures
        match r {
            Some(nal) => last_nal(data@, as_ints(positions@), kind, positions@.len()) == Some(nal@),
            None => last_nal(data@, as_ints(positions@), kind, positions@.len()) is None,
        },
{
    let ghost ints = as_ints(positions@);
    let mut n: usize = positions.len();
    while n > 0
        invariant
            n <= positions@.len(),
            ints == as_ints(positions@),
            forall|i: int| 0 <= i < positions@.len() ==> #[trigger] positions@[i] < data@.len(),
            last_nal(data@, ints, kind, positions@.len()) == last_nal(data@, ints, kind, n as nat),
        decreases n,
    {
        let p: usize = positions[n - 1];
        let total: usize = data.len();
        let start: usize = p + start_code_len(data, p);
        let end: usize = if n < positions.len() {
            positions[n]
        } else {
            total
        };
        if start < end && (data[start] / 2) % 64 == kind {
            return Some(vstd::slice::slice_subrange(data, start, end));
        }
        n = n - 1;
    }
    None
}

/// Append an array of one NAL unit to a decoder configuration record.
fn push_nal_array(hvcc: &mut Vec<u8>, nal_type: u8, nal_data: &[u8])
    ensures
        final(hvcc)@ == old(hvcc)@ + nal_array(nal_type, nal_data@),
{
    hvcc.push(0x40 + nal_type % 64);
    push16(hvcc, 1);
    push16_of(hvcc, nal_data.len() as u64);
    append(hvcc, nal_data);
    assert(hvcc@ =~= old(hvcc)@ + nal_array(nal_type, nal_data@));
}

/// Build the `hvcC` payload of an HEVC byte stream, with an explicit chroma format:
/// 0 for monochrome, 1 for 4:2:0, 3 for 4:4:4.
pub fn extract_hvcc_config_with_chroma(hevc_data: &[u8], chroma: u8) -> (r: Option<Vec<u8>>)
    ensures
        opt_bytes(r) == hvcc_of(hevc_data@, chroma),
{
    let positions: Vec<usize> = start_codes(hevc_data);
    let vps: &[u8] = match find_parameter_set(hevc_data, positions.as_slice(), NAL_VPS) {
        Some(n) => n,
        None => {
            return None;
        },
    };
    let sps: &[u8] = match find_parameter_set(hevc_data, positions.as_slice(), NAL_SPS) {
        Some(n) => n,
        None => {
            return None;
        },
    };
    let pps: &[u8] = match find_parameter_set(hevc_data, positions.as_slice(), NAL_PPS) {
        Some(n) => n,
        None => {
            return None;
        },
    };
    let (profile_byte, flags, level_idc): (u8, u32, u8) = match sps_ptl(sps) {
        Some(p) => p,
        None => match vps_ptl(vps) {
            Some(p) => p,
            None => (0x04, 0x0800_0000, 0x5a),
        },
    };
    let compat_flags: u32 = if chroma == 3 {
        0x0800_0000
    } else {
        flags
    };
    let mut hvcc: Vec<u8> = Vec::new();
    hvcc.push(1);
    hvcc.push(profile_byte);
    push32(&mut hvcc, compat_flags);
    append_zeros(&mut hvcc, 6);
    let rest: [u8; 11] = [
        level_idc,
        0xf0,
        0x00,
        0xfc,
        0xfc + chroma % 4,
        0xf8,
        0xf8,
        0,
        0,
        0x0f,
        3,
    ];
    append(&mut hvcc, &rest);
    push_nal_array(&mut hvcc, NAL_VPS, vps);
    push_nal_array(&mut hvcc, NAL_SPS, sps);
    push_nal_array(&mut hvcc, NAL_PPS, pps);
    assert(hvcc@ =~= hvcc_record(vps@, sps@, pps@, chroma));
    Some(hvcc)
}

/// Build the `hvcC` payload of an HEVC byte stream of a single-tile gain map,
/// which is 4:2:0 where `gain_map_420` asks for it and 4:4:4 otherwise.
pub fn extract_hvcc_config(hevc_data: &[u8], gain_map_420: bool) -> (r: Option<Vec<u8>>)
    ensures
        opt_bytes(r) == hvcc_of(
            hevc_data@,
            if gain_map_420 {
                1
            } else {
                3
            },
        ),
{
    let chroma: u8 = if gain_map_420 {
        1
    } else {
        3
    };
    extract_hvcc_config_with_chroma(hevc_data, chroma)
}

/// Encoded tiles as a file stores them, with their decoder configuration.
pub struct TilePackage {
    /// The decoder configuration; empty where no tile brought one.
    pub hvcc: Vec<u8>,
    /// The slices of each tile, length-prefixed.
    pub payloads: Vec<Vec<u8>>,
}

/// The slices of an encoded tile, length-prefixed.
pub open spec fn tile_payload(stream: Seq<u8>) -> Option<Seq<u8>> {
    match slices_from(stream, 0) {
        Some(slices) => Some(prefixed_from(slices, 0)),
        None => None,
    }
}

/// The decoder configuration of the first of the first `n` tiles that has one;
/// empty where none has.
pub open spec fn first_hvcc(streams: Seq<Seq<u8>>, chroma: u8, n: nat) -> Seq<u8>
    decreases n,
{
    if n == 0 {
        Seq::empty()
    } else {
        let before = first_hvcc(streams, chroma, (n - 1) as nat);
        if before.len() > 0 {
            before
        } else {
            match hvcc_of(streams[n - 1], chroma) {
                Some(h) => h,
                None => Seq::empty(),
            }
        }
    }
}

/// Whether each stream can be stored as a tile.
pub open spec fn all_packable(streams: Seq<Seq<u8>>) -> bool {
    forall|i: int| 0 <= i < streams.len() ==> #[trigger] tile_payload(streams[i]) is Some
}

/// The stored form of each stream.
pub open spec fn tile_payloads(streams: Seq<Seq<u8>>) -> Seq<Seq<u8>> {
    Seq::new(streams.len(), |i: int| tile_payload(streams[i]).unwrap())
}

/// Strip and length-prefix encoded tiles, one byte stream each, and take the
/// decoder configuration from the first that has it. `None` where a stream ends
/// in a start code.
pub fn package_tiles(streams: &[Vec<u8>], chroma: u8) -> (r: Option<TilePackage>)
    ensures
        r is Some <==> all_packable(views(streams@)),
        r matches Some(p) ==> p.hvcc@ == first_hvcc(views(streams@), chroma, streams@.len())
            && views(p.payloads@) == tile_payloads(views(streams@)),
{
    let ghost all = views(streams@);
    let mut hvcc: Vec<u8> = Vec::new();
    let mut payloads: Vec<Vec<u8>> = Vec::new();
    let mut i: usize = 0;
    while i < streams.len()
        invariant
            i <= streams@.len(),
            all == views(streams@),
            hvcc@ == first_hvcc(all, chroma, i as nat),
            payloads@.len() == i,
            forall|j: int| 0 <= j < i ==> #[trigger] tile_payload(all[j]) == Some(payloads@[j]@),
        decreases streams@.len() - i,
    {
        let stream: &[u8] = streams[i].as_slice();
        assert(stream@ == all[i as int]);
        if hvcc.len() == 0 {
            match extract_hvcc_config_with_chroma(stream, chroma) {
                Some(h) => {
                    hvcc = h;
                },
                None => {},
            }
        }
        match try_drop_parameter_nals(stream) {
            None => {
                assert(tile_payload(all[i as int]) is None);
                return None;
            },
            Some(idr) => {
                payloads.push(hevc_byte_stream_to_length_prefixed(idr.as_slice()));
            },
        }
        i = i + 1;
    }
    assert(views(payloads@) =~= tile_payloads(all));
    Some(TilePackage { hvcc, payloads })
}

/// The mean of the four samples of a plane that a chroma sample covers; beyond the
/// right and the bottom edge the last column and row stand in.
pub open spec fn chroma_mean(plane: Seq<u8>, width: int, height: int, cx: int, cy: int) -> int {
    let x0 = 2 * cx;
    let x1 = least(2 * cx + 1, width - 1);
    let y0 = 2 * cy;
    let y1 = least(2 * cy + 1, height - 1);
    (plane[y0 * width + x0] + plane[y0 * width + x1] + plane[y1 * width + x0] + plane[y1 * width + x1])
        / 4
}

/// A plane at half its width and height, rounded up.
pub open spec fn halved(plane: Seq<u8>, width: int, height: int) -> Seq<u8> {
    let cw = (width + 1) / 2;
    let ch = (height + 1) / 2;
    Seq::new((cw * ch) as nat, |i: int| chroma_mean(plane, width, height, i % cw, i / cw) as u8)
}

proof fn lemma_sample_index(x: int, y: int, width: int, height: int)
    requires
        0 <= x < width,
        0 <= y < height,
    ensures
        0 <= y * width <= y * width + x < width * height,
{
    assert(0 <= y * width && y * width + width <= height * width) by (nonlinear_arith)
        requires
            0 <= y < height,
            0 <= width,
    ;
    assert(height * width == width * height) by (nonlinear_arith);
}

/// The mean of the four samples that a chroma sample covers.
fn mean_of_four(plane: &[u8], width: usize, height: usize, cx: usize, cy: usize) -> (r: u8)
    requires
        width * height <= plane.len(),
        2 * cx < width <= usize::MAX - 1,
        2 * cy < height <= usize::MAX - 1,
    ensures
        r == chroma_mean(plane@, width as int, height as int, cx as int, cy as int),
{
    let x0: usize = 2 * cx;
    let x1: usize = if x0 + 1 < width {
        x0 + 1
    } else {
        width - 1
    };
    let y0: usize = 2 * cy;
    let y1: usize = if y0 + 1 < height {
        y0 + 1
    } else {
        height - 1
    };
    proof {
        lemma_sample_index(x0 as int, y0 as int, width as int, height as int);
        lemma_sample_index(x1 as int, y0 as int, width as int, height as int);
        lemma_sample_index(x0 as int, y1 as int, width as int, height as int);
        lemma_sample_index(x1 as int, y1 as int, width as int, height as int);
    }
    let sum: u32 = plane[y0 * width + x0] as u32 + plane[y0 * width + x1] as u32 + plane[y1 * width + x0] as u32
        + plane[y1 * width + x1] as u32;
    (sum / 4) as u8
}

/// Halve a plane in both directions.
fn halve_plane(plane: &[u8], width: u32, height: u32) -> (r: Vec<u8>)
    requires
        width < u32::MAX,
        height < u32::MAX,
        width * height <= plane.len(),
    ensures
        r@ == halved(plane@, width as int, height as int),
{
    let cw: usize = ((width + 1) / 2) as usize;
    let ch: usize = ((height + 1) / 2) as usize;
    let mut small: Vec<u8> = Vec::new();
    let mut cy: usize = 0;
    assert(0 * cw == 0) by (nonlinear_arith);
    while cy < ch
        invariant
            width < u32::MAX,
            height < u32::MAX,
            width * height <= plane.len(),
            cw == (width + 1) / 2,
            ch == (height + 1) / 2,
            cy <= ch,
            small@.len() == cy * cw,
            forall|i: int|
                0 <= i < cy * cw ==> #[trigger] small@[i] == chroma_mean(
                    plane@,
                    width as int,
                    height as int,
                    i % cw as int,
                    i / cw as int,
                ),
        decreases ch - cy,
    {
        let mut cx: usize = 0;
        while cx < cw
            invariant
                width < u32::MAX,
                height < u32::MAX,
                width * height <= plane.len(),
                cw == (width + 1) / 2,
                ch == (height + 1) / 2,
                cy < ch,
                cx <= cw,
                small@.len() == cy * cw + cx,
                forall|i: int|
                    0 <= i < cy * cw + cx ==> #[trigger] small@[i] == chroma_mean(
                        plane@,
                        width as int,
                        height as int,
                        i % cw as int,
                        i / cw as int,
                    ),
            decreases cw - cx,
        {
            proof {
                vstd::arithmetic::div_mod::lemma_fundamental_div_mod_converse(
                    cy * cw + cx,
                    cw as int,
                    cy as int,
                    cx as int,
                );
            }
            small.push(mean_of_four(plane, width as usize, height as usize, cx, cy));
            cx = cx + 1;
        }
        assert((cy + 1) * cw == cy * cw + cw) by (nonlinear_arith);
        cy = cy + 1;
    }
    assert(cy * cw == cw * ch) by (nonlinear_arith)
        requires
            cy == ch,
    ;
    assert(small@ =~= halved(plane@, width as int, height as int));
    small
}

/// Subsample the chroma planes of a 4:4:4 frame to 4:2:0; the luma plane stays.
pub fn yuv444_to_420(y_plane: Vec<u8>, u_plane: Vec<u8>, v_plane: Vec<u8>, width: u32, height: u32) -> (r: (
    Vec<u8>,
    Vec<u8>,
    Vec<u8>,
))
    requires
        width < u32::MAX,
        height < u32::MAX,
        width * height <= u_plane.len(),
        width * height <= v_plane.len(),
    ensures
        r.0@ == y_plane@,
        r.1@ == halved(u_plane@, width as int, height as int),
        r.2@ == halved(v_plane@, width as int, height as int),
{
    let u_small: Vec<u8> = halve_plane(u_plane.as_slice(), width, height);
    let v_small: Vec<u8> = halve_plane(v_plane.as_slice(), width, height);
    (y_plane, u_small, v_small)
}

} // verus!
