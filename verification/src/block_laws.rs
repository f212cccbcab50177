use crate::bytes::{find_from, lemma_find_from_some, occurs_at};
use crate::container::{FLOAT_144, blocks_from, named_blocks, named_blocks_from};
use crate::lhdr::{
    best_block, best_blocks_score_highest, block_at, float_bits, from_0_to_2000, from_2_to_5,
    is_genuine, lhdr_block, lhdr_plausible, lhdr_score, near_10, near_144, near_6, near_minus_1,
};
use crate::manifest::{ManifestView, manifest_of};
use vstd::prelude::*;

verus! {

/// The bytes of the float 144 stand eight bytes behind the place, which has room for a block.
pub open spec fn may_hold_block(s: Seq<u8>, p: int) -> bool {
    &&& 0 <= p && p + 144 <= s.len()
    &&& s[p + 8] == 0 && s[p + 9] == 0 && s[p + 10] == 0x10 && s[p + 11] == 0x43
}

/// The places where a metadata block may start are those eight bytes before a float 144 that have
/// room for a block, in their order.
pub proof fn blocks_stand_before_the_float_144(s: Seq<u8>, blocks: Seq<usize>)
    requires
        s.len() <= usize::MAX,
        blocks_from(s, 0, Seq::empty()) == Some(blocks),
    ensures
        forall|i: int| 0 <= i < blocks.len() ==> may_hold_block(s, (#[trigger] blocks[i]) as int),
        forall|p: int| #[trigger] may_hold_block(s, p) ==> blocks.contains(p as usize),
        forall|i: int, j: int| 0 <= i < j < blocks.len() ==> blocks[i] < blocks[j],
{
    lemma_blocks(s, 0, Seq::empty(), blocks);
}

proof fn lemma_float_144(s: Seq<u8>, p: int)
    requires
        0 <= p,
    ensures
        occurs_at(s, FLOAT_144@, p) <==> p + 4 <= s.len() && s[p] == 0 && s[p + 1] == 0 && s[p + 2] == 0x10 && s[p
            + 3] == 0x43,
{
    if p + 4 <= s.len() {
        let t = s.subrange(p, p + 4);
        assert(t[0] == s[p] && t[1] == s[p + 1] && t[2] == s[p + 2] && t[3] == s[p + 3]);
        if s[p] == 0 && s[p + 1] == 0 && s[p + 2] == 0x10 && s[p + 3] == 0x43 {
            assert(t =~= FLOAT_144@);
        }
    }
}

proof fn lemma_blocks(s: Seq<u8>, from: int, acc: Seq<usize>, blocks: Seq<usize>)
    requires
        0 <= from,
        s.len() <= usize::MAX,
        blocks_from(s, from, acc) == Some(blocks),
        forall|i: int| 0 <= i < acc.len() ==> may_hold_block(s, (#[trigger] acc[i]) as int) && acc[i] + 8 < from,
        forall|p: int| #[trigger] may_hold_block(s, p) && p + 8 < from ==> acc.contains(p as usize),
        forall|i: int, j: int| 0 <= i < j < acc.len() ==> acc[i] < acc[j],
    ensures
        forall|i: int| 0 <= i < blocks.len() ==> may_hold_block(s, (#[trigger] blocks[i]) as int),
        forall|p: int| #[trigger] may_hold_block(s, p) ==> blocks.contains(p as usize),
        forall|i: int, j: int| 0 <= i < j < blocks.len() ==> blocks[i] < blocks[j],
    decreases s.len() - from,
{
    lemma_find_from_some(s, FLOAT_144@, from);
    match find_from(s, FLOAT_144@, from) {
        None => {
            assert forall|p: int| #[trigger] may_hold_block(s, p) implies blocks.contains(p as usize) by {
                lemma_float_144(s, p + 8);
            }
        },
        Some(q) => {
            lemma_float_144(s, q);
            let next = if q - 8 + 144 <= s.len() {
                acc.push((q - 8) as usize)
            } else {
                acc
            };
            assert forall|p: int| #[trigger] may_hold_block(s, p) && p + 8 < q + 1 implies next.contains(
                p as usize,
            ) by {
                lemma_float_144(s, p + 8);
                if p + 8 < from {
                    assert(acc.contains(p as usize));
                    let i = choose|i: int| 0 <= i < acc.len() && acc[i] == p as usize;
                    assert(next[i] == p as usize);
                } else {
                    assert(p + 8 == q);
                    assert(next[acc.len() as int] == p as usize);
                }
            }
            lemma_blocks(s, q + 1, next, blocks);
        },
    }
}

/// A block that has the usual value in each of the fields that count: 144 in the third, -1 in the
/// sixth, 10 and 6 in the next ones that count, from 2 to 5 in the first and from 0 to 2000 in the
/// thirtieth.
pub open spec fn is_usual(f: Seq<u32>) -> bool {
    &&& f.len() == 36
    &&& f[2] == 0x4310_0000
    &&& f[5] == 0xbf80_0000
    &&& f[18] == 0x4120_0000
    &&& f[19] == 0x40c0_0000
    &&& 0x4000_0000 <= f[0] <= 0x40a0_0000
    &&& f[29] <= 0x44fa_0000
}

/// The fields that count: the third for five points, the sixth for three, the nineteenth, the
/// twentieth and the first for two, the thirtieth for one. A usual block has all fifteen.
pub proof fn usual_blocks_score_fifteen(f: Seq<u32>, i: int, x: u32)
    requires
        is_usual(f),
        0 <= i < 36,
        !near_144(x) && !near_minus_1(x) && !near_10(x) && !near_6(x) && !from_2_to_5(x) && !from_0_to_2000(x),
    ensures
        lhdr_score(f) == 15,
        lhdr_plausible(f),
        lhdr_plausible(f.update(i, x)) <==> i != 5,
        15 - lhdr_score(f.update(i, x)) == if i == 2 {
            5int
        } else if i == 5 {
            3
        } else if i == 18 || i == 19 || i == 0 {
            2
        } else if i == 29 {
            1
        } else {
            0
        },
{
}

/// The gain-map metadata of an extension is the usual block, where it holds just one block of all
/// those that may be one that counts.
pub proof fn usual_blocks_are_found(ext: Seq<u8>, blocks: Seq<usize>, p: int)
    requires
        ext.len() <= usize::MAX,
        blocks_from(ext, 0, Seq::empty()) == Some(blocks),
        may_hold_block(ext, p),
        is_usual(float_bits(ext.subrange(p, p + 144))),
        forall|q: int| #[trigger]
            may_hold_block(ext, q) && q < p ==> !is_genuine(ext, q) || lhdr_score(
                float_bits(ext.subrange(q, q + 144)),
            ) < 15,
    ensures
        lhdr_block(ext, blocks) == Some(ext.subrange(p, p + 144)),
{
    blocks_stand_before_the_float_144(ext, blocks);
    best_blocks_score_highest(ext, blocks);
    assert(blocks.contains(p as usize));
    let k = choose|k: int| 0 <= k < blocks.len() && blocks[k] == p as usize;
    assert(block_at(ext, p) == float_bits(ext.subrange(p, p + 144)));
    lemma_most_points(block_at(ext, p));
    assert(is_genuine(ext, blocks[k] as int));
    assert forall|i: int| 0 <= i < k implies !is_genuine(ext, (#[trigger] blocks[i]) as int) || lhdr_score(
        block_at(ext, blocks[i] as int),
    ) < 15 by {
        assert(may_hold_block(ext, blocks[i] as int));
        assert(blocks[i] < blocks[k]);
    }
    lemma_first_of_the_best(ext, blocks, k);
}

proof fn lemma_most_points(f: Seq<u32>)
    ensures
        lhdr_score(f) <= 15,
        is_usual(f) ==> lhdr_score(f) == 15 && lhdr_plausible(f),
{
}

proof fn lemma_first_of_the_best(ext: Seq<u8>, blocks: Seq<usize>, k: int)
    requires
        0 <= k < blocks.len(),
        is_genuine(ext, blocks[k] as int),
        lhdr_score(block_at(ext, blocks[k] as int)) == 15,
        forall|i: int|
            0 <= i < k ==> !is_genuine(ext, (#[trigger] blocks[i]) as int) || lhdr_score(
                block_at(ext, blocks[i] as int),
            ) < 15,
    ensures
        best_block(ext, blocks) == Some(blocks[k]),
    decreases blocks.len(),
{
    let rest = blocks.drop_last();
    if k < rest.len() {
        lemma_first_of_the_best(ext, rest, k);
        lemma_most_points(block_at(ext, blocks.last() as int));
    } else {
        best_blocks_score_highest(ext, rest);
        if best_block(ext, rest) is Some {
            let q = best_block(ext, rest)->0;
            let i = choose|i: int| 0 <= i < rest.len() && rest[i] == q;
            assert(blocks[i] == q);
        }
    }
}

/// The number that four bytes of a block stand for, the least one first, is the bit pattern of the
/// field there.
pub proof fn fields_are_stored_least_byte_first(b: Seq<u8>, i: int)
    requires
        0 <= i,
        4 * i + 4 <= b.len(),
    ensures
        float_bits(b).len() == b.len() / 4,
        float_bits(b)[i] == b[4 * i] + 0x100 * b[4 * i + 1] + 0x1_0000 * b[4 * i + 2] + 0x100_0000 * b[4 * i + 3],
{
}

/// The entry of a manifest names the block at the place.
pub open spec fn names_block(e: ManifestView, len: int, start: int, p: int) -> bool {
    &&& e.name == "local.hdr.meta.data"@
    &&& e.length >= 144
    &&& p == start - e.offset
    &&& 0 <= p && p + 144 <= len
}

/// The blocks that a manifest names are those of its entries of that name that are long enough, as
/// far before the manifest as they say. Where no offset lies before the data, none is left out.
pub proof fn named_blocks_are_those_of_the_manifest(s: Seq<u8>, entries: Seq<ManifestView>, start: int, end: int)
    requires
        s.len() <= usize::MAX,
        manifest_of(s) == Some((entries, start, end)),
    ensures
        forall|p: usize| #[trigger]
            named_blocks(s).contains(p) ==> exists|i: int|
                0 <= i < entries.len() && names_block(#[trigger] entries[i], s.len() as int, start, p as int),
        (forall|i: int| 0 <= i < entries.len() ==> (#[trigger] entries[i]).offset <= start) ==> forall|
            i: int,
            p: int,
        |
            0 <= i < entries.len() && #[trigger] names_block(entries[i], s.len() as int, start, p)
                ==> named_blocks(s).contains(p as usize),
{
    lemma_named(s.len() as int, entries, start, 0, Seq::empty());
}

proof fn lemma_named(len: int, entries: Seq<ManifestView>, start: int, k: int, acc: Seq<usize>)
    requires
        0 <= k,
        0 <= len <= usize::MAX,
    ensures
        forall|p: usize| #[trigger]
            named_blocks_from(len, entries, start, k, acc).contains(p) ==> acc.contains(p) || exists|i: int|
                k <= i < entries.len() && names_block(#[trigger] entries[i], len, start, p as int),
        forall|p: usize| #[trigger]
            acc.contains(p) ==> named_blocks_from(len, entries, start, k, acc).contains(p),
        (forall|i: int| 0 <= i < entries.len() ==> (#[trigger] entries[i]).offset <= start) ==> forall|
            i: int,
            p: int,
        |
            k <= i < entries.len() && #[trigger] names_block(entries[i], len, start, p)
                ==> named_blocks_from(len, entries, start, k, acc).contains(p as usize),
    decreases entries.len() - k,
{
    if k < entries.len() {
        let at = start - entries[k].offset;
        if entries[k].name == "local.hdr.meta.data"@ && entries[k].length >= 144 && at >= 0 && at + 144 <= len {
            let next = acc.push(at as usize);
            lemma_named(len, entries, start, k + 1, next);
            assert forall|p: usize| #[trigger] acc.contains(p) implies next.contains(p) by {
                let i = choose|i: int| 0 <= i < acc.len() && acc[i] == p;
                assert(next[i] == p);
            }
            assert(next[acc.len() as int] == at as usize);
            assert(next.contains(at as usize));
            assert(names_block(entries[k], len, start, at));
            assert forall|p: usize| #[trigger] next.contains(p) implies acc.contains(p) || p == at by {
                let i = choose|i: int| 0 <= i < next.len() && next[i] == p;
                if i < acc.len() {
                    assert(acc[i] == p);
                }
            }
            assert forall|p: usize| #[trigger]
                named_blocks_from(len, entries, start, k, acc).contains(p) implies acc.contains(p) || exists|i: int|
                k <= i < entries.len() && names_block(#[trigger] entries[i], len, start, p as int) by {
                if next.contains(p) {
                    if !acc.contains(p) {
                        assert(names_block(entries[k], len, start, p as int));
                    }
                } else {
                    let i = choose|i: int|
                        k + 1 <= i < entries.len() && names_block(#[trigger] entries[i], len, start, p as int);
                    assert(names_block(entries[i], len, start, p as int));
                }
            }
        } else if entries[k].name == "local.hdr.meta.data"@ && entries[k].length >= 144 && at < 0 {
        } else {
            lemma_named(len, entries, start, k + 1, acc);
            assert(named_blocks_from(len, entries, start, k, acc) == named_blocks_from(
                len,
                entries,
                start,
                k + 1,
                acc,
            ));
            assert forall|p: usize| #[trigger]
                named_blocks_from(len, entries, start, k, acc).contains(p) implies acc.contains(p) || exists|i: int|
                k <= i < entries.len() && names_block(#[trigger] entries[i], len, start, p as int) by {
                if !acc.contains(p) {
                    let i = choose|i: int|
                        k + 1 <= i < entries.len() && names_block(#[trigger] entries[i], len, start, p as int);
                    assert(names_block(entries[i], len, start, p as int));
                }
            }
        }
    }
}

} // verus!
