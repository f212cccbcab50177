//! What a decoder reads of the configuration record of a stream.

use crate::bytes::{be32, enc16, enc32, occurs_at, zeros};
use crate::hevc::{
    NAL_PPS, NAL_SPS, NAL_VPS, code_len, code_positions, first_hvcc, hvcc_of, hvcc_record, last_nal,
    nal_array, nal_between, nal_type, parameter_set, sps_profile, tile_payload, unescaped,
    vps_profile,
};
use crate::nal_laws::{
    UnitView, all_clean, code_of, is_clean, lemma_next_unit, measured,
    stored_tiles_hold_their_slices, stream_of, without_parameters,
};
use crate::round_trip::{
    integers_of_16_bits_read_back, integers_of_32_bits_read_back, lemma_byte, lemma_flat_same,
    lemma_parts,
};
use crate::seqs::flat;
use vstd::prelude::*;

verus! {

// ---------------------------------------------------------------------------
// Reading a record
// ---------------------------------------------------------------------------

/// The `n` NAL units from `p` on, each behind its length of 16 bits, and where they end.
pub open spec fn units_at(r: Seq<u8>, p: int, n: int) -> Option<(Seq<Seq<u8>>, int)>
    decreases n,
{
    if n <= 0 {
        Some((Seq::empty(), p))
    } else if p + 2 > r.len() {
        None
    } else {
        let end = p + 2 + r[p] * 256 + r[p + 1];
        if end > r.len() {
            None
        } else {
            match units_at(r, end, n - 1) {
                None => None,
                Some((rest, e)) => Some((seq![r.subrange(p + 2, end)] + rest, e)),
            }
        }
    }
}

/// The `n` arrays from `p` on, each a type in the low six bits of a byte, a number of 16 bits
/// and so many NAL units, and where they end.
pub open spec fn arrays_at(r: Seq<u8>, p: int, n: int) -> Option<(Seq<(int, Seq<Seq<u8>>)>, int)>
    decreases n,
{
    if n <= 0 {
        Some((Seq::empty(), p))
    } else if p + 3 > r.len() {
        None
    } else {
        match units_at(r, p + 3, r[p + 1] * 256 + r[p + 2]) {
            None => None,
            Some((units, q)) => match arrays_at(r, q, n - 1) {
                None => None,
                Some((rest, e)) => Some((seq![(r[p] as int % 64, units)] + rest, e)),
            },
        }
    }
}

/// Whether a decoder reads of the record `r` these three parameter sets and nothing else: it
/// is of version 1, lengths in the stream take four bytes, and its three arrays hold one NAL
/// unit each and end with the record.
pub open spec fn configures(r: Seq<u8>, vps: Seq<u8>, sps: Seq<u8>, pps: Seq<u8>) -> bool {
    &&& r.len() >= 23
    &&& r[0] == 1
    &&& r[21] % 4 == 3
    &&& arrays_at(r, 23, r[22] as int) == Some(
        (
            seq![(32int, seq![vps]), (33int, seq![sps]), (34int, seq![pps])],
            r.len() as int,
        ),
    )
}

proof fn lemma_array(r: Seq<u8>, p: int, t: u8, nal: Seq<u8>)
    requires
        occurs_at(r, nal_array(t, nal), p),
        nal.len() < 0x1_0000,
        t < 64,
    ensures
        p + 3 <= r.len(),
        r[p] as int % 64 == t,
        r[p + 1] * 256 + r[p + 2] == 1,
        units_at(r, p + 3, 1) == Some((seq![nal], p + 5 + nal.len())),
        nal_array(t, nal).len() == 5 + nal.len(),
{
    let head = seq![(0x40 + t % 64) as u8];
    let n = nal.len() as int;
    lemma_parts(r, head + enc16(1) + enc16(n), nal, p);
    lemma_parts(r, head + enc16(1), enc16(n), p);
    lemma_parts(r, head, enc16(1), p);
    lemma_byte(r, head, p, 0);
    integers_of_16_bits_read_back(r, p + 1, 1);
    integers_of_16_bits_read_back(r, p + 3, n);
    let q = p + 5 + n;
    assert(r.subrange(p + 5, q) == nal);
    assert(units_at(r, q, 0) == Some((Seq::<Seq<u8>>::empty(), q)));
    assert(seq![nal] + Seq::<Seq<u8>>::empty() =~= seq![nal]);
}

proof fn lemma_next_array(
    r: Seq<u8>,
    p: int,
    t: u8,
    nal: Seq<u8>,
    n: int,
    rest: Seq<(int, Seq<Seq<u8>>)>,
    e: int,
)
    requires
        occurs_at(r, nal_array(t, nal), p),
        nal.len() < 0x1_0000,
        t < 64,
        n > 0,
        arrays_at(r, p + 5 + nal.len(), n - 1) == Some((rest, e)),
    ensures
        arrays_at(r, p, n) == Some((seq![(t as int, seq![nal])] + rest, e)),
{
    lemma_array(r, p, t, nal);
}

proof fn lemma_three_parts(head: Seq<u8>, a: Seq<u8>, b: Seq<u8>, c: Seq<u8>)
    ensures
        occurs_at(head + a + b + c, a, head.len() as int),
        occurs_at(head + a + b + c, b, (head.len() + a.len()) as int),
        occurs_at(head + a + b + c, c, (head.len() + a.len() + b.len()) as int),
{
    let r = head + a + b + c;
    assert(r.subrange(0, r.len() as int) =~= r);
    lemma_parts(r, head + a + b, c, 0);
    lemma_parts(r, head + a, b, 0);
    lemma_parts(r, head, a, 0);
}

proof fn lemma_arrays_at(r: Seq<u8>, vps: Seq<u8>, sps: Seq<u8>, pps: Seq<u8>, p: int, q: int)
    requires
        vps.len() < 0x1_0000,
        sps.len() < 0x1_0000,
        pps.len() < 0x1_0000,
        p == 28 + vps.len(),
        q == p + 5 + sps.len(),
        r.len() == q + 5 + pps.len(),
        occurs_at(r, nal_array(NAL_VPS, vps), 23),
        occurs_at(r, nal_array(NAL_SPS, sps), p),
        occurs_at(r, nal_array(NAL_PPS, pps), q),
    ensures
        arrays_at(r, 23, 3) == Some(
            (
                seq![(32int, seq![vps])] + (seq![(33int, seq![sps])] + (seq![(34int, seq![pps])]
                    + Seq::<(int, Seq<Seq<u8>>)>::empty())),
                r.len() as int,
            ),
        ),
{
    let e = r.len() as int;
    let none = Seq::<(int, Seq<Seq<u8>>)>::empty();
    let last = seq![(34int, seq![pps])] + none;
    let two = seq![(33int, seq![sps])] + last;
    assert(arrays_at(r, e, 0) == Some((none, e)));
    lemma_next_array(r, q, NAL_PPS, pps, 1, none, e);
    lemma_next_array(r, p, NAL_SPS, sps, 2, last, e);
    lemma_next_array(r, 23, NAL_VPS, vps, 3, two, e);
}

proof fn lemma_arrays(r: Seq<u8>, head: Seq<u8>, vps: Seq<u8>, sps: Seq<u8>, pps: Seq<u8>)
    requires
        vps.len() < 0x1_0000,
        sps.len() < 0x1_0000,
        pps.len() < 0x1_0000,
        head.len() == 23,
        r == head + nal_array(NAL_VPS, vps) + nal_array(NAL_SPS, sps) + nal_array(NAL_PPS, pps),
    ensures
        arrays_at(r, 23, 3) == Some(
            (
                seq![(32int, seq![vps]), (33int, seq![sps]), (34int, seq![pps])],
                r.len() as int,
            ),
        ),
{
    let a = nal_array(NAL_VPS, vps);
    let b = nal_array(NAL_SPS, sps);
    let c = nal_array(NAL_PPS, pps);
    lemma_three_parts(head, a, b, c);
    lemma_arrays_at(
        r,
        vps,
        sps,
        pps,
        28 + vps.len() as int,
        33 + vps.len() as int + sps.len() as int,
    );
    assert(seq![(32int, seq![vps])] + (seq![(33int, seq![sps])] + (seq![(34int, seq![pps])]
        + Seq::<(int, Seq<Seq<u8>>)>::empty())) =~= seq![
        (32int, seq![vps]),
        (33int, seq![sps]),
        (34int, seq![pps]),
    ]);
}

/// What a record says of the profile: the profile byte, the compatibility flags and the level.
spec fn told_profile(vps: Seq<u8>, sps: Seq<u8>) -> (u8, u32, u8) {
    match sps_profile(sps) {
        Some(p) => p,
        None => match vps_profile(vps) {
            Some(p) => p,
            None => (0x04u8, 0x0800_0000u32, 0x5au8),
        },
    }
}

proof fn lemma_record(vps: Seq<u8>, sps: Seq<u8>, pps: Seq<u8>, chroma: u8)
    requires
        vps.len() < 0x1_0000,
        sps.len() < 0x1_0000,
        pps.len() < 0x1_0000,
    ensures
        ({
            let r = hvcc_record(vps, sps, pps, chroma);
            let (profile, flags, level) = told_profile(vps, sps);
            &&& configures(r, vps, sps, pps)
            &&& r[16] % 4 == chroma % 4
            &&& r[1] == profile
            &&& r[12] == level
            &&& be32(r, 2) == (if chroma == 3 {
                0x0800_0000
            } else {
                flags as int
            })
        }),
{
    let r = hvcc_record(vps, sps, pps, chroma);
    let (profile, flags, level) = told_profile(vps, sps);
    let compat: int = if chroma == 3 {
        0x0800_0000
    } else {
        flags as int
    };
    let head = seq![1u8, profile] + enc32(compat) + zeros(6) + seq![
        level,
        0xf0u8,
        0x00u8,
        0xfcu8,
        (0xfc + chroma % 4) as u8,
        0xf8u8,
        0xf8u8,
        0u8,
        0u8,
        0x0fu8,
        3u8,
    ];
    lemma_arrays(r, head, vps, sps, pps);
    let w = enc32(compat);
    assert forall|i: int| 0 <= i < 23 implies #[trigger] r[i] == head[i] by {}
    assert(r[2] == w[0] && r[3] == w[1] && r[4] == w[2] && r[5] == w[3]) by {
        assert(head[2] == w[0] && head[3] == w[1] && head[4] == w[2] && head[5] == w[3]);
    }
    assert(w.subrange(0, 4) =~= w);
    integers_of_32_bits_read_back(w, 0, compat);
}

// ---------------------------------------------------------------------------
// Parameter sets of a stream
// ---------------------------------------------------------------------------

/// Where the start codes of units that follow each other from `p` on stand.
spec fn unit_places(units: Seq<UnitView>, p: int) -> Seq<int>
    decreases units.len(),
{
    if units.len() == 0 {
        Seq::empty()
    } else {
        seq![p] + unit_places(
            units.drop_first(),
            p + code_of(units[0]).len() + units[0].nal.len(),
        )
    }
}

proof fn lemma_no_codes(s: Seq<u8>, p: int, end: int)
    requires
        0 <= p <= end <= s.len(),
        forall|i: int| p <= i < end ==> #[trigger] code_len(s, i) == 0,
    ensures
        code_positions(s, p) == code_positions(s, end),
    decreases end - p,
{
    if p < end {
        assert(code_len(s, p) == 0);
        lemma_no_codes(s, p + 1, end);
    }
}

proof fn lemma_places(s: Seq<u8>, p: int, units: Seq<UnitView>)
    requires
        all_clean(units),
        occurs_at(s, stream_of(units), p),
        p + stream_of(units).len() == s.len(),
    ensures
        code_positions(s, p) == unit_places(units, p),
        unit_places(units, p).len() == units.len(),
        forall|k: int|
            #![trigger unit_places(units, p)[k]]
            0 <= k < units.len() ==> {
                let at = unit_places(units, p)[k];
                let end = if k + 1 < units.len() {
                    unit_places(units, p)[k + 1]
                } else {
                    s.len() as int
                };
                let start = at + code_len(s, at);
                &&& 0 <= start <= end <= s.len()
                &&& s.subrange(start, end) == units[k].nal
            },
    decreases units.len(),
{
    if units.len() == 0 {
        assert(stream_of(units).len() == 0);
    } else {
        let rest = units.drop_first();
        let start = p + code_of(units[0]).len();
        let end = start + units[0].nal.len();
        lemma_next_unit(s, p, units);
        lemma_places(s, end, rest);
        lemma_no_codes(s, start, end);
        let all = unit_places(units, p);
        let later = unit_places(rest, end);
        assert(all =~= seq![p] + later);
        assert forall|k: int| #![trigger all[k]] 0 <= k < units.len() implies {
            let at = all[k];
            let e = if k + 1 < units.len() {
                all[k + 1]
            } else {
                s.len() as int
            };
            let b = at + code_len(s, at);
            &&& 0 <= b <= e <= s.len()
            &&& s.subrange(b, e) == units[k].nal
        } by {
            if k > 0 {
                assert(all[k] == later[k - 1]);
                assert(units[k] == rest[k - 1]);
                if k + 1 < units.len() {
                    assert(all[k + 1] == later[k]);
                }
            } else if units.len() > 1 {
                assert(all[1] == later[0]);
                assert(later[0] == end);
            } else {
                assert(stream_of(rest).len() == 0);
            }
        }
    }
}

/// The type that the header of a NAL unit says, in six bits behind the first.
pub open spec fn said_type(nal: Seq<u8>) -> int {
    (nal[0] as int % 128) / 2
}

/// Whether the `k`-th unit is the last one of its type.
pub open spec fn is_last_of(units: Seq<UnitView>, k: int, t: int) -> bool {
    &&& 0 <= k < units.len()
    &&& said_type(units[k].nal) == t
    &&& forall|j: int| k < j < units.len() ==> said_type((#[trigger] units[j]).nal) != t
}

/// Whether no unit is of a type.
pub open spec fn has_no_unit(units: Seq<UnitView>, t: int) -> bool {
    forall|j: int| 0 <= j < units.len() ==> said_type((#[trigger] units[j]).nal) != t
}

/// What stands behind the `k`-th start code of a stream is its `k`-th unit.
#[verifier::rlimit(60)]
proof fn lemma_between(units: Seq<UnitView>, k: int)
    requires
        all_clean(units),
        0 <= k < units.len(),
    ensures
        ({
            let s = stream_of(units);
            &&& code_positions(s, 0).len() == units.len()
            &&& nal_between(s, code_positions(s, 0), k) == units[k].nal
            &&& units[k].nal.len() > 0
            &&& nal_type(units[k].nal[0]) == said_type(units[k].nal)
        }),
{
    let s = stream_of(units);
    assert(s.subrange(0, s.len() as int) =~= s);
    lemma_places(s, 0, units);
    assert(is_clean(units[k].nal));
    let at = unit_places(units, 0)[k];
}

proof fn lemma_none_of(units: Seq<UnitView>, t: u8, n: nat)
    requires
        all_clean(units),
        has_no_unit(units, t as int),
        n <= units.len(),
    ensures
        last_nal(stream_of(units), code_positions(stream_of(units), 0), t, n) is None,
    decreases n,
{
    if n > 0 {
        lemma_between(units, n - 1);
        lemma_none_of(units, t, (n - 1) as nat);
        assert(said_type(units[n - 1].nal) != t);
    }
}

proof fn lemma_last_of(units: Seq<UnitView>, t: u8, n: nat, k: int)
    requires
        all_clean(units),
        is_last_of(units, k, t as int),
        k < n <= units.len(),
    ensures
        last_nal(stream_of(units), code_positions(stream_of(units), 0), t, n) == Some(units[k].nal),
    decreases n,
{
    lemma_between(units, n - 1);
    if k < n - 1 {
        lemma_last_of(units, t, (n - 1) as nat, k);
        assert(said_type(units[n - 1].nal) != t);
    }
}

proof fn lemma_no_parameter_set(units: Seq<UnitView>, t: u8)
    requires
        all_clean(units),
        has_no_unit(units, t as int),
    ensures
        parameter_set(stream_of(units), t) is None,
{
    let s = stream_of(units);
    assert(s.subrange(0, s.len() as int) =~= s);
    lemma_places(s, 0, units);
    lemma_none_of(units, t, units.len());
}

proof fn lemma_parameter_set(units: Seq<UnitView>, t: u8, k: int)
    requires
        all_clean(units),
        is_last_of(units, k, t as int),
    ensures
        parameter_set(stream_of(units), t) == Some(units[k].nal),
{
    lemma_between(units, k);
    lemma_last_of(units, t, units.len(), k);
}

/// The record of a stream configures a decoder with the stream's last video, sequence and
/// picture parameter set, and says the chroma format that was asked for.
pub proof fn records_configure_the_parameter_sets(
    units: Seq<UnitView>,
    chroma: u8,
    v: int,
    s: int,
    p: int,
)
    requires
        all_clean(units),
        is_last_of(units, v, 32),
        is_last_of(units, s, 33),
        is_last_of(units, p, 34),
        units[v].nal.len() < 0x1_0000,
        units[s].nal.len() < 0x1_0000,
        units[p].nal.len() < 0x1_0000,
    ensures
        hvcc_of(stream_of(units), chroma) matches Some(r) && configures(
            r,
            units[v].nal,
            units[s].nal,
            units[p].nal,
        ) && r[16] % 4 == chroma % 4,
{
    lemma_parameter_set(units, 32, v);
    lemma_parameter_set(units, 33, s);
    lemma_parameter_set(units, 34, p);
    lemma_record(units[v].nal, units[s].nal, units[p].nal, chroma);
}

/// A stream that lacks one of the three parameter sets has no record.
pub proof fn incomplete_streams_have_no_record(units: Seq<UnitView>, chroma: u8)
    requires
        all_clean(units),
        has_no_unit(units, 32) || has_no_unit(units, 33) || has_no_unit(units, 34),
    ensures
        hvcc_of(stream_of(units), chroma) is None,
{
    if has_no_unit(units, 32) {
        lemma_no_parameter_set(units, 32);
    } else if has_no_unit(units, 33) {
        lemma_no_parameter_set(units, 33);
    } else {
        lemma_no_parameter_set(units, 34);
    }
}

// ---------------------------------------------------------------------------
// The profile
// ---------------------------------------------------------------------------

/// The bytes from `i` on as a NAL unit holds them, behind `z` zeros: a byte of three stands
/// between two zeros and a byte of no more than three.
pub open spec fn escaped(x: Seq<u8>, i: int, z: int) -> Seq<u8>
    decreases x.len() - i,
{
    if i < 0 || i >= x.len() {
        Seq::empty()
    } else {
        let after = if x[i] != 0 {
            0int
        } else if z >= 2 {
            1
        } else {
            z + 1
        };
        if z >= 2 && x[i] <= 3 {
            seq![3u8, x[i]] + escaped(x, i + 1, after)
        } else {
            seq![x[i]] + escaped(x, i + 1, after)
        }
    }
}

proof fn lemma_plain_byte(s: Seq<u8>, p: int, b: u8, rest: Seq<u8>)
    requires
        0 <= p,
        s.skip(p) == seq![b] + rest,
        p <= s.len(),
        b != 0 || rest.len() < 2 || rest[0] != 0 || rest[1] != 3,
    ensures
        unescaped(s, p) == seq![b] + unescaped(s, p + 1),
        s.skip(p + 1) == rest,
        p + 1 <= s.len(),
{
    let u = seq![b] + rest;
    assert(s.skip(p).len() == u.len());
    assert(s[p] == s.skip(p)[0]);
    assert(s.skip(p + 1) =~= s.skip(p).drop_first());
    assert(u.drop_first() =~= rest);
    if p + 2 < s.len() {
        assert(s[p + 1] == s.skip(p)[1] && s[p + 2] == s.skip(p)[2]);
        assert(u[1] == rest[0] && u[2] == rest[1]);
    }
}

proof fn lemma_unescaped(s: Seq<u8>, p: int, x: Seq<u8>, i: int)
    requires
        0 <= p <= s.len(),
        0 <= i <= x.len(),
        s.skip(p) == escaped(x, i, 0),
    ensures
        unescaped(s, p) == x.skip(i),
    decreases x.len() - i,
{
    reveal_with_fuel(escaped, 4);
    if i == x.len() {
        assert(s.skip(p).len() == 0);
        assert(x.skip(i) =~= Seq::empty());
    } else if x[i] != 0 {
        lemma_plain_byte(s, p, x[i], escaped(x, i + 1, 0));
        lemma_unescaped(s, p + 1, x, i + 1);
        assert(x.skip(i) =~= seq![x[i]] + x.skip(i + 1));
    } else if i + 1 == x.len() {
        let rest = escaped(x, i + 1, 1);
        assert(rest =~= Seq::empty());
        lemma_plain_byte(s, p, x[i], rest);
        assert(s.skip(p + 1).len() == 0);
        assert(unescaped(s, p + 1) =~= Seq::empty());
        assert(x.skip(i) =~= seq![x[i]]);
        assert(seq![x[i]] + Seq::<u8>::empty() =~= seq![x[i]]);
    } else if x[i + 1] != 0 {
        let rest = seq![x[i + 1]] + escaped(x, i + 2, 0);
        assert(escaped(x, i + 1, 1) == rest);
        lemma_plain_byte(s, p, x[i], rest);
        lemma_plain_byte(s, p + 1, x[i + 1], escaped(x, i + 2, 0));
        lemma_unescaped(s, p + 2, x, i + 2);
        assert(x.skip(i) =~= seq![x[i]] + (seq![x[i + 1]] + x.skip(i + 2)));
    } else {
        lemma_two_zeros(s, p, x, i);
    }
}

proof fn lemma_two_zeros(s: Seq<u8>, p: int, x: Seq<u8>, i: int)
    requires
        0 <= p <= s.len(),
        0 <= i,
        i + 1 < x.len(),
        x[i] == 0,
        x[i + 1] == 0,
        s.skip(p) == escaped(x, i, 0),
    ensures
        unescaped(s, p) == x.skip(i),
    decreases x.len() - i, 0int,
{
    reveal_with_fuel(escaped, 4);
    let tail = escaped(x, i + 2, 2);
    let rest = seq![0u8] + tail;
    assert(escaped(x, i + 1, 1) == rest);
    assert(x.skip(i) =~= seq![0u8] + (seq![0u8] + x.skip(i + 2)));
    if i + 2 < x.len() && x[i + 2] <= 3 {
        let b = x[i + 2];
        let after = escaped(x, i + 2, 0);
        assert(tail =~= seq![3u8] + after);
        let u = s.skip(p);
        assert(u =~= seq![0u8, 0u8, 3u8] + after);
        assert(s[p] == u[0] && s[p + 1] == u[1] && s[p + 2] == u[2]);
        assert(s.skip(p + 3) =~= u.skip(3));
        assert(u.skip(3) =~= after);
        lemma_unescaped(s, p + 3, x, i + 2);
        assert(seq![0u8, 0u8] + x.skip(i + 2) =~= x.skip(i));
    } else {
        lemma_plain_byte(s, p, 0, rest);
        lemma_plain_byte(s, p + 1, 0, tail);
        if i + 2 == x.len() {
            assert(tail =~= Seq::empty());
            assert(s.skip(p + 2).len() == 0);
            assert(unescaped(s, p + 2) =~= Seq::empty());
            assert(x.skip(i + 2) =~= Seq::empty());
        } else {
            let last = escaped(x, i + 3, 0);
            lemma_plain_byte(s, p + 2, x[i + 2], last);
            lemma_unescaped(s, p + 3, x, i + 3);
            assert(x.skip(i + 2) =~= seq![x[i + 2]] + x.skip(i + 3));
        }
    }
}

/// The bytes that keep a start code out of a NAL unit are gone once it is read.
pub proof fn escaped_units_are_read_back(x: Seq<u8>)
    ensures
        unescaped(escaped(x, 0, 0), 0) == x,
{
    let s = escaped(x, 0, 0);
    assert(s.skip(0) =~= s);
    lemma_unescaped(s, 0, x, 0);
    assert(x.skip(0) =~= x);
}

/// The record of a stream says the profile, the compatibility flags and the level of the
/// sequence parameter set, which stand behind the header of two bytes and one byte of
/// identifiers; with a chroma format of 4:4:4 it claims the profile for that alone.
#[verifier::rlimit(60)]
pub proof fn records_say_the_profile(
    units: Seq<UnitView>,
    chroma: u8,
    v: int,
    s: int,
    p: int,
    raw: Seq<u8>,
)
    requires
        all_clean(units),
        is_last_of(units, v, 32),
        is_last_of(units, s, 33),
        is_last_of(units, p, 34),
        units[v].nal.len() < 0x1_0000,
        units[s].nal.len() < 0x1_0000,
        units[p].nal.len() < 0x1_0000,
        units[s].nal == escaped(raw, 0, 0),
        16 <= raw.len(),
    ensures
        hvcc_of(stream_of(units), chroma) matches Some(r) && {
            &&& r[1] == raw[3]
            &&& chroma != 3 ==> r[2] == raw[4] && r[3] == raw[5] && r[4] == raw[6] && r[5] == raw[7]
            &&& chroma == 3 ==> r[2] == 8 && r[3] == 0 && r[4] == 0 && r[5] == 0
            &&& raw[14] != 0 ==> r[12] == raw[14]
            &&& raw[14] == 0 ==> r[12] == 0x5a
        },
{
    records_configure_the_parameter_sets(units, chroma, v, s, p);
    lemma_parameter_set(units, 32, v);
    lemma_parameter_set(units, 33, s);
    lemma_parameter_set(units, 34, p);
    lemma_record(units[v].nal, units[s].nal, units[p].nal, chroma);
    escaped_units_are_read_back(raw);
    let r = hvcc_record(units[v].nal, units[s].nal, units[p].nal, chroma);
    assert(be32(raw, 4) <= 0xffff_ffff);
}

// ---------------------------------------------------------------------------
// Packages
// ---------------------------------------------------------------------------

/// The record that tiles are stored with is that of the first stream that has one.
pub proof fn the_first_record_is_taken(streams: Seq<Seq<u8>>, chroma: u8, k: int)
    requires
        0 <= k < streams.len(),
        hvcc_of(streams[k], chroma) is Some,
        forall|j: int| 0 <= j < k ==> hvcc_of(#[trigger] streams[j], chroma) is None,
    ensures
        first_hvcc(streams, chroma, streams.len()) == hvcc_of(streams[k], chroma)->0,
{
    lemma_first_record(streams, chroma, k, streams.len());
}

proof fn lemma_first_record(streams: Seq<Seq<u8>>, chroma: u8, k: int, n: nat)
    requires
        0 <= k < streams.len(),
        hvcc_of(streams[k], chroma) is Some,
        forall|j: int| 0 <= j < k ==> hvcc_of(#[trigger] streams[j], chroma) is None,
        n <= streams.len(),
    ensures
        n <= k ==> first_hvcc(streams, chroma, n).len() == 0,
        k < n ==> first_hvcc(streams, chroma, n) == hvcc_of(streams[k], chroma)->0,
    decreases n,
{
    if n > 0 {
        lemma_first_record(streams, chroma, k, (n - 1) as nat);
        assert(n - 1 < k ==> hvcc_of(streams[n - 1], chroma) is None);
    }
}

/// Where no stream has a record, the tiles are stored without one.
pub proof fn without_parameter_sets_there_is_no_record(streams: Seq<Seq<u8>>, chroma: u8, n: nat)
    requires
        forall|j: int| 0 <= j < streams.len() ==> hvcc_of(#[trigger] streams[j], chroma) is None,
        n <= streams.len(),
    ensures
        first_hvcc(streams, chroma, n).len() == 0,
    decreases n,
{
    if n > 0 {
        without_parameter_sets_there_is_no_record(streams, chroma, (n - 1) as nat);
        assert(hvcc_of(streams[n - 1], chroma) is None);
    }
}

/// Whether a unit is stored in a tile: no parameter set, and no supplemental information
/// before the slices.
pub open spec fn is_stored() -> spec_fn(UnitView) -> bool {
    |u: UnitView|
        {
            let t = said_type(u.nal);
            t != 32 && t != 33 && t != 34 && t != 39
        }
}

/// A unit behind its length of 32 bits.
pub open spec fn behind_length() -> spec_fn(UnitView) -> Seq<u8> {
    |u: UnitView|
        {
            let n = u.nal.len() as int;
            seq![
                ((n / 0x100_0000) % 256) as u8,
                ((n / 0x1_0000) % 256) as u8,
                ((n / 0x100) % 256) as u8,
                (n % 256) as u8,
            ] + u.nal
        }
}

proof fn lemma_stored(units: Seq<UnitView>)
    ensures
        without_parameters(units) == units.filter(is_stored()),
    decreases units.len(),
{
    reveal(Seq::filter);
    let p = is_stored();
    if units.len() > 0 {
        let one = seq![units[0]];
        let rest = units.drop_first();
        lemma_stored(rest);
        assert(units =~= one + rest);
        Seq::filter_distributes_over_add(one, rest, p);
        assert(one.drop_last() =~= Seq::empty());
        assert(one.drop_last().filter(p) =~= Seq::empty());
        assert(nal_type(units[0].nal[0]) == said_type(units[0].nal));
        assert(one.filter(p) =~= if p(units[0]) {
            one
        } else {
            Seq::empty()
        });
        assert(without_parameters(units) =~= one.filter(p) + rest.filter(p));
    } else {
        assert(units.filter(p) =~= units);
    }
}

/// A tile is stored as the slices of its stream, in order, each behind its length.
pub proof fn tiles_are_stored_as_slices(units: Seq<UnitView>)
    requires
        all_clean(units),
    ensures
        tile_payload(stream_of(units)) == Some(flat(units.filter(is_stored()), behind_length())),
{
    stored_tiles_hold_their_slices(units);
    lemma_stored(units);
    let kept = units.filter(is_stored());
    lemma_flat_same(kept, measured(), kept, behind_length());
}

} // verus!
