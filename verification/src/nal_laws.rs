//! What becomes of streams of NAL units that are packaged.

use crate::bytes::{contains_bytes, enc32, find_from, lemma_find_from_some, occurs_at};
use crate::encoder::kept_stream;
use crate::hevc::{
    START_CODE_3, START_CODE_4, code_len, is_parameter_type, nal_end, nal_type, prefixed_from,
    slices_from, tile_payload,
};
use crate::round_trip::{lemma_byte, lemma_flat_first, lemma_parts};
use crate::seqs::flat;
use vstd::prelude::*;

verus! {

/// A NAL unit, and whether it stands behind a long start code or a short one.
#[verifier::ext_equal]
pub struct UnitView {
    pub long: bool,
    pub nal: Seq<u8>,
}

/// Whether a NAL unit can stand in a stream: it has bytes, and no start code among them.
pub open spec fn is_clean(nal: Seq<u8>) -> bool {
    nal.len() > 0 && !contains_bytes(nal, START_CODE_3@)
}

/// Whether NAL units can stand in a stream one after the other: a zero byte at the end of
/// one would make a short start code behind it a long one.
pub open spec fn all_clean(units: Seq<UnitView>) -> bool {
    &&& forall|i: int| 0 <= i < units.len() ==> is_clean((#[trigger] units[i]).nal)
    &&& forall|i: int, j: int|
        0 <= i < j < units.len() && !(#[trigger] units[j]).long ==> (
        #[trigger] units[i]).nal.last() != 0
}

/// The start code of a NAL unit.
pub open spec fn code_of(u: UnitView) -> Seq<u8> {
    if u.long {
        START_CODE_4@
    } else {
        START_CODE_3@
    }
}

/// A NAL unit behind its start code.
pub open spec fn coded() -> spec_fn(UnitView) -> Seq<u8> {
    |u: UnitView| code_of(u) + u.nal
}

/// A NAL unit behind its length.
pub open spec fn measured() -> spec_fn(UnitView) -> Seq<u8> {
    |u: UnitView| enc32(u.nal.len() as int) + u.nal
}

/// A stream of NAL units, each behind its start code.
pub open spec fn stream_of(units: Seq<UnitView>) -> Seq<u8> {
    flat(units, coded())
}

/// The NAL units that are not parameter sets or prefix supplemental information.
pub open spec fn without_parameters(units: Seq<UnitView>) -> Seq<UnitView>
    decreases units.len(),
{
    if units.len() == 0 {
        units
    } else if is_parameter_type(nal_type(units[0].nal[0])) {
        without_parameters(units.drop_first())
    } else {
        seq![units[0]] + without_parameters(units.drop_first())
    }
}

/// What is left holds no parameter sets, and leaving them out again changes nothing.
pub proof fn nothing_left_is_a_parameter_set(units: Seq<UnitView>)
    ensures
        forall|i: int|
            #![trigger without_parameters(units)[i]]
            0 <= i < without_parameters(units).len() ==> !is_parameter_type(
                nal_type(without_parameters(units)[i].nal[0]),
            ),
        without_parameters(without_parameters(units)) == without_parameters(units),
    decreases units.len(),
{
    if units.len() > 0 {
        let rest = without_parameters(units.drop_first());
        nothing_left_is_a_parameter_set(units.drop_first());
        if !is_parameter_type(nal_type(units[0].nal[0])) {
            let all = seq![units[0]] + rest;
            assert(all.drop_first() =~= rest);
            assert forall|i: int| #![trigger all[i]] 0 <= i < all.len() implies !is_parameter_type(
                nal_type(all[i].nal[0]),
            ) by {
                if i > 0 {
                    assert(all[i] == rest[i - 1]);
                }
            }
        }
    }
}

/// Whether the unit that ends at `end` is closed there: by the end of the stream, by a long
/// start code, or by a short one that its last byte does not lengthen.
spec fn is_closed(s: Seq<u8>, nal: Seq<u8>, end: int) -> bool {
    ||| end == s.len()
    ||| occurs_at(s, START_CODE_4@, end)
    ||| occurs_at(s, START_CODE_3@, end) && nal.last() != 0
}

/// No short start code begins within a NAL unit that is closed.
proof fn lemma_no_short_within(s: Seq<u8>, from: int, nal: Seq<u8>, i: int)
    requires
        is_clean(nal),
        occurs_at(s, nal, from),
        from <= i < from + nal.len(),
        is_closed(s, nal, from + nal.len()),
    ensures
        !occurs_at(s, START_CODE_3@, i),
{
    let end = from + nal.len();
    if occurs_at(s, START_CODE_3@, i) {
        if i + 3 <= end {
            let k = i - from;
            assert(nal.subrange(k, k + 3) =~= s.subrange(from, end).subrange(k, k + 3));
            assert(s.subrange(i, i + 3) =~= s.subrange(from, end).subrange(k, k + 3));
            assert(occurs_at(nal, START_CODE_3@, k));
        } else {
            lemma_byte(s, START_CODE_3@, i, 2);
            if occurs_at(s, START_CODE_4@, end) {
                lemma_byte(s, START_CODE_4@, end, i + 2 - end);
            } else {
                lemma_byte(s, START_CODE_3@, end, i + 2 - end);
            }
        }
    }
}

/// No long start code begins within a NAL unit that is closed.
proof fn lemma_no_long_within(s: Seq<u8>, from: int, nal: Seq<u8>, i: int)
    requires
        is_clean(nal),
        occurs_at(s, nal, from),
        from <= i < from + nal.len(),
        is_closed(s, nal, from + nal.len()),
    ensures
        !occurs_at(s, START_CODE_4@, i),
{
    let end = from + nal.len();
    if occurs_at(s, START_CODE_4@, i) {
        lemma_byte(s, START_CODE_4@, i, 0);
        lemma_byte(s, START_CODE_4@, i, 1);
        lemma_byte(s, START_CODE_4@, i, 2);
        lemma_byte(s, START_CODE_4@, i, 3);
        assert(s.subrange(i + 1, i + 4) =~= START_CODE_3@);
        assert(occurs_at(s, START_CODE_3@, i + 1));
        if i + 1 < end {
            lemma_no_short_within(s, from, nal, i + 1);
        } else {
            lemma_byte(s, nal, from, nal.len() - 1);
            if occurs_at(s, START_CODE_4@, end) {
                lemma_byte(s, START_CODE_4@, end, 2);
            }
        }
    }
}

proof fn lemma_find_at(s: Seq<u8>, needle: Seq<u8>, from: int, at: int)
    requires
        0 <= from <= at,
        occurs_at(s, needle, at),
        forall|i: int| from <= i < at ==> !#[trigger] occurs_at(s, needle, i),
    ensures
        find_from(s, needle, from) == Some(at),
{
    lemma_find_from_some(s, needle, from);
    match find_from(s, needle, from) {
        Some(i) => {
            if i < at {
                assert(!occurs_at(s, needle, i));
            } else if i > at {
                assert(!occurs_at(s, needle, at));
            }
        },
        None => {},
    }
}

/// Where nothing is found before `at`, what is found lies at `at` or beyond.
proof fn lemma_found_beyond(s: Seq<u8>, needle: Seq<u8>, from: int, at: int)
    requires
        0 <= from <= at,
        forall|i: int| from <= i < at ==> !#[trigger] occurs_at(s, needle, i),
    ensures
        find_from(s, needle, from) matches Some(i) ==> at <= i && i + needle.len() <= s.len(),
{
    lemma_find_from_some(s, needle, from);
}

/// A NAL unit of a stream ends where the next start code stands, or with the stream.
proof fn lemma_unit_ends(s: Seq<u8>, from: int, nal: Seq<u8>)
    requires
        is_clean(nal),
        occurs_at(s, nal, from),
        is_closed(s, nal, from + nal.len()),
    ensures
        nal_end(s, from) == from + nal.len(),
{
    let end = from + nal.len();
    assert forall|i: int| from <= i < end implies !#[trigger] occurs_at(s, START_CODE_4@, i) by {
        lemma_no_long_within(s, from, nal, i);
    }
    assert forall|i: int| from <= i < end implies !#[trigger] occurs_at(s, START_CODE_3@, i) by {
        lemma_no_short_within(s, from, nal, i);
    }
    lemma_found_beyond(s, START_CODE_4@, from, end);
    lemma_found_beyond(s, START_CODE_3@, from, end);
    if occurs_at(s, START_CODE_4@, end) {
        lemma_find_at(s, START_CODE_4@, from, end);
    } else if occurs_at(s, START_CODE_3@, end) {
        lemma_find_at(s, START_CODE_3@, from, end);
    }
}

/// What is left of clean units is clean.
proof fn lemma_rest_clean(units: Seq<UnitView>)
    requires
        units.len() > 0,
        all_clean(units),
    ensures
        all_clean(units.drop_first()),
{
    let rest = units.drop_first();
    assert forall|i: int| 0 <= i < rest.len() implies is_clean((#[trigger] rest[i]).nal) by {
        assert(rest[i] == units[i + 1]);
    }
    assert forall|i: int, j: int|
        0 <= i < j < rest.len() && !(#[trigger] rest[j]).long implies (
    #[trigger] rest[i]).nal.last() != 0 by {
        assert(rest[i] == units[i + 1] && rest[j] == units[j + 1]);
    }
}

/// Where the first NAL unit of the rest of a stream stands and ends.
pub proof fn lemma_next_unit(s: Seq<u8>, p: int, units: Seq<UnitView>)
    requires
        units.len() > 0,
        all_clean(units),
        occurs_at(s, stream_of(units), p),
        p + stream_of(units).len() == s.len(),
    ensures
        ({
            let start = p + code_of(units[0]).len();
            let end = start + units[0].nal.len();
            &&& code_len(s, p) == code_of(units[0]).len()
            &&& nal_end(s, start) == end
            &&& forall|i: int| start <= i < end ==> #[trigger] code_len(s, i) == 0
            &&& s[start] == units[0].nal[0]
            &&& start < s.len()
            &&& s.subrange(p, end) == code_of(units[0]) + units[0].nal
            &&& s.subrange(start, end) == units[0].nal
            &&& occurs_at(s, stream_of(units.drop_first()), end)
            &&& end + stream_of(units.drop_first()).len() == s.len()
            &&& all_clean(units.drop_first())
        }),
{
    let rest = units.drop_first();
    let nal = units[0].nal;
    let code = code_of(units[0]);
    let start = p + code.len();
    let end = start + nal.len();
    assert(is_clean(nal));
    lemma_flat_first(units, coded());
    lemma_parts(s, code + nal, stream_of(rest), p);
    lemma_parts(s, code, nal, p);
    lemma_byte(s, nal, start, 0);
    lemma_rest_clean(units);
    if !units[0].long && occurs_at(s, START_CODE_4@, p) {
        lemma_byte(s, START_CODE_3@, p, 2);
        lemma_byte(s, START_CODE_4@, p, 2);
    }
    if rest.len() > 0 {
        assert(rest[0] == units[1]);
        lemma_flat_first(rest, coded());
        lemma_parts(s, code_of(rest[0]) + rest[0].nal, stream_of(rest.drop_first()), end);
        lemma_parts(s, code_of(rest[0]), rest[0].nal, end);
        assert(!units[1].long ==> units[0].nal.last() != 0);
    } else {
        assert(stream_of(rest).len() == 0);
    }
    lemma_unit_ends(s, start, nal);
    assert forall|i: int| start <= i < end implies #[trigger] code_len(s, i) == 0 by {
        lemma_no_long_within(s, start, nal, i);
        lemma_no_short_within(s, start, nal, i);
    }
}

proof fn lemma_slices(s: Seq<u8>, p: int, units: Seq<UnitView>)
    requires
        all_clean(units),
        occurs_at(s, stream_of(units), p),
        p + stream_of(units).len() == s.len(),
    ensures
        slices_from(s, p) == Some(stream_of(without_parameters(units))),
    decreases units.len(),
{
    if units.len() == 0 {
        assert(stream_of(units).len() == 0);
        assert(stream_of(without_parameters(units)) =~= Seq::empty());
    } else {
        let rest = units.drop_first();
        let end = p + code_of(units[0]).len() + units[0].nal.len();
        lemma_next_unit(s, p, units);
        lemma_slices(s, end, rest);
        if !is_parameter_type(nal_type(units[0].nal[0])) {
            let kept = seq![units[0]] + without_parameters(rest);
            lemma_flat_first(kept, coded());
            assert(kept.drop_first() =~= without_parameters(rest));
        }
    }
}

/// Dropping parameter sets from a stream keeps every other NAL unit, byte for byte and in
/// order, and none of the parameter sets.
pub proof fn dropping_keeps_slices(units: Seq<UnitView>)
    requires
        all_clean(units),
    ensures
        slices_from(stream_of(units), 0) == Some(stream_of(without_parameters(units))),
{
    let s = stream_of(units);
    assert(s.subrange(0, s.len() as int) =~= s);
    lemma_slices(s, 0, units);
}

proof fn lemma_prefixed(s: Seq<u8>, p: int, units: Seq<UnitView>)
    requires
        all_clean(units),
        occurs_at(s, stream_of(units), p),
        p + stream_of(units).len() == s.len(),
    ensures
        prefixed_from(s, p) == flat(units, measured()),
    decreases units.len(),
{
    if units.len() == 0 {
        assert(stream_of(units).len() == 0);
        assert(prefixed_from(s, p) =~= flat(units, measured()));
    } else {
        let rest = units.drop_first();
        let end = p + code_of(units[0]).len() + units[0].nal.len();
        lemma_next_unit(s, p, units);
        lemma_prefixed(s, end, rest);
        lemma_flat_first(units, measured());
        assert(prefixed_from(s, p) =~= flat(units, measured()));
    }
}

/// Every NAL unit of a stream, behind a long start code or a short one, stands behind its
/// length once the start codes were replaced, byte for byte and in order.
pub proof fn lengths_replace_start_codes(units: Seq<UnitView>)
    requires
        all_clean(units),
    ensures
        prefixed_from(stream_of(units), 0) == flat(units, measured()),
{
    let s = stream_of(units);
    assert(s.subrange(0, s.len() as int) =~= s);
    lemma_prefixed(s, 0, units);
}

/// Every unit that is left was there, and in the same order.
proof fn lemma_left_of(units: Seq<UnitView>, k: int)
    requires
        0 <= k < without_parameters(units).len(),
    ensures
        exists|i: int|
            0 <= i < units.len() && #[trigger] units[i] == without_parameters(units)[k],
    decreases units.len(),
{
    let rest = units.drop_first();
    if is_parameter_type(nal_type(units[0].nal[0])) {
        lemma_left_of(rest, k);
        let i = choose|i: int| 0 <= i < rest.len() && #[trigger] rest[i] == without_parameters(rest)[k];
        assert(units[i + 1] == rest[i]);
    } else if k > 0 {
        lemma_left_of(rest, k - 1);
        let i = choose|i: int|
            0 <= i < rest.len() && #[trigger] rest[i] == without_parameters(rest)[k - 1];
        assert(units[i + 1] == rest[i]);
    } else {
        assert(units[0] == without_parameters(units)[0]);
    }
}

proof fn lemma_kept_clean(units: Seq<UnitView>)
    requires
        all_clean(units),
    ensures
        all_clean(without_parameters(units)),
    decreases units.len(),
{
    if units.len() > 0 {
        let rest = units.drop_first();
        let left = without_parameters(rest);
        let all = without_parameters(units);
        lemma_rest_clean(units);
        lemma_kept_clean(rest);
        if !is_parameter_type(nal_type(units[0].nal[0])) {
            assert forall|i: int| 0 <= i < all.len() implies is_clean((#[trigger] all[i]).nal) by {
                if i > 0 {
                    assert(all[i] == left[i - 1]);
                } else {
                    assert(all[0] == units[0]);
                }
            }
            assert forall|i: int, j: int|
                0 <= i < j < all.len() && !(#[trigger] all[j]).long implies (
            #[trigger] all[i]).nal.last() != 0 by {
                assert(all[j] == left[j - 1]);
                if i > 0 {
                    assert(all[i] == left[i - 1]);
                } else {
                    lemma_left_of(rest, j - 1);
                    let k = choose|k: int|
                        0 <= k < rest.len() && #[trigger] rest[k] == left[j - 1];
                    assert(units[k + 1] == rest[k]);
                    assert(all[0] == units[0]);
                }
            }
        }
    }
}

/// The stored form of an encoded tile holds exactly its slices, each behind its length.
pub proof fn stored_tiles_hold_their_slices(units: Seq<UnitView>)
    requires
        all_clean(units),
    ensures
        tile_payload(stream_of(units)) == Some(flat(without_parameters(units), measured())),
{
    dropping_keeps_slices(units);
    lemma_kept_clean(units);
    lengths_replace_start_codes(without_parameters(units));
}

/// In a batch the first stream keeps its parameter sets and the others hold slices alone;
/// each is stored as the same payload as the stream that the encoder gave.
pub proof fn kept_streams_are_stored_alike(units: Seq<UnitView>, i: int)
    requires
        all_clean(units),
    ensures
        kept_stream(i, stream_of(units)) == Some(
            stream_of(
                if i == 0 {
                    units
                } else {
                    without_parameters(units)
                },
            ),
        ),
        tile_payload(kept_stream(i, stream_of(units))->0) == tile_payload(stream_of(units)),
{
    dropping_keeps_slices(units);
    lemma_kept_clean(units);
    stored_tiles_hold_their_slices(units);
    stored_tiles_hold_their_slices(without_parameters(units));
    nothing_left_is_a_parameter_set(units);
}

} // verus!
