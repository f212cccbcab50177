use crate::bytes::{find_from, lemma_find_from_some, occurs_at, rfind, rfind_from};
use crate::container::{FOOTER_JXRS, FOOTER_JXRSQ, footer_at, has_footed_manifest, jpeg_from};
use crate::inspect_laws::{jpeg_begins, jpeg_ends, jpeg_spans};
use crate::tail_laws::lemma_rfind;
use vstd::prelude::*;

verus! {

/// A JPEG of any length is the first one. Where a length is wanted, it is the first whose length
/// misses it by less than 64, each next one sought behind the end of the last.
pub proof fn jpegs_are_found_by_their_length(s: Seq<u8>, from: int, a: int, b: int, wanted: int)
    requires
        0 <= from,
    ensures
        jpeg_spans(s, from, a, b) ==> jpeg_from(s, from, None) == Some((a, b + 2)),
        jpeg_spans(s, from, a, b) && -64 < b + 2 - a - wanted < 64 ==> jpeg_from(s, from, Some(wanted)) == Some(
            (a, b + 2),
        ),
        jpeg_spans(s, from, a, b) && !(-64 < b + 2 - a - wanted < 64) ==> jpeg_from(s, from, Some(wanted))
            == jpeg_from(s, b + 2, Some(wanted)),
        (forall|i: int| from <= i ==> !#[trigger] jpeg_begins(s, i)) ==> jpeg_from(s, from, None) is None
            && jpeg_from(s, from, Some(wanted)) is None,
{
    lemma_find_from_some(s, crate::container::JPEG_START@, from);
    if find_from(s, crate::container::JPEG_START@, from) is Some {
        lemma_blob_marks(s, find_from(s, crate::container::JPEG_START@, from)->0);
    }
    if jpeg_spans(s, from, a, b) {
        lemma_blob_marks(s, a);
        let start = find_from(s, crate::container::JPEG_START@, from)->0;
        assert(start == a);
        lemma_find_from_some(s, crate::container::JPEG_END@, a + 3);
        lemma_blob_marks(s, b);
        let end = find_from(s, crate::container::JPEG_END@, a + 3)->0;
        lemma_blob_marks(s, end);
        assert(end == b);
    }
}

proof fn lemma_blob_marks(s: Seq<u8>, i: int)
    ensures
        occurs_at(s, crate::container::JPEG_START@, i) <==> jpeg_begins(s, i),
        occurs_at(s, crate::container::JPEG_END@, i) <==> jpeg_ends(s, i),
{
    if 0 <= i && i + 3 <= s.len() {
        let t = s.subrange(i, i + 3);
        assert(t[0] == s[i] && t[1] == s[i + 1] && t[2] == s[i + 2]);
        if jpeg_begins(s, i) {
            assert(t =~= crate::container::JPEG_START@);
        }
    }
    if 0 <= i && i + 2 <= s.len() {
        let t = s.subrange(i, i + 2);
        assert(t[0] == s[i] && t[1] == s[i + 1]);
        if jpeg_ends(s, i) {
            assert(t =~= crate::container::JPEG_END@);
        }
    }
}

/// The short footer of a tail stands at `i`.
pub open spec fn short_footer_at(s: Seq<u8>, i: int) -> bool {
    &&& 0 <= i && i + 5 <= s.len()
    &&& s[i] == 0 && s[i + 1] == 0x6a && s[i + 2] == 0x78 && s[i + 3] == 0x72 && s[i + 4] == 0x73
}

/// The long footer of a tail stands at `i`.
pub open spec fn long_footer_at(s: Seq<u8>, i: int) -> bool {
    short_footer_at(s, i) && i + 6 <= s.len() && s[i + 5] == 0x71
}

/// The last long footer, or the last short one where there is no long one, stands at `p`.
pub open spec fn foot_at(s: Seq<u8>, p: int) -> bool {
    ||| long_footer_at(s, p) && forall|i: int| p < i ==> !#[trigger] long_footer_at(s, i)
    ||| (forall|i: int| 0 <= i ==> !#[trigger] long_footer_at(s, i)) && short_footer_at(s, p) && forall|i: int|
        p < i ==> !#[trigger] short_footer_at(s, i)
}

proof fn lemma_footers(s: Seq<u8>, i: int)
    ensures
        occurs_at(s, FOOTER_JXRS@, i) <==> short_footer_at(s, i),
        occurs_at(s, FOOTER_JXRSQ@, i) <==> long_footer_at(s, i),
{
    if 0 <= i && i + 5 <= s.len() {
        let t = s.subrange(i, i + 5);
        assert(t[0] == s[i] && t[1] == s[i + 1] && t[2] == s[i + 2] && t[3] == s[i + 3] && t[4] == s[i + 4]);
        if short_footer_at(s, i) {
            assert(t =~= FOOTER_JXRS@);
        }
    }
    if 0 <= i && i + 6 <= s.len() {
        let t = s.subrange(i, i + 6);
        assert(t[0] == s[i] && t[1] == s[i + 1] && t[2] == s[i + 2] && t[3] == s[i + 3] && t[4] == s[i + 4] && t[5]
            == s[i + 5]);
        if long_footer_at(s, i) {
            assert(t =~= FOOTER_JXRSQ@);
        }
    }
}

proof fn lemma_rfind_none(s: Seq<u8>, needle: Seq<u8>, at: int)
    requires
        forall|j: int| 0 <= j <= at ==> !#[trigger] occurs_at(s, needle, j),
    ensures
        rfind_from(s, needle, at) is None,
    decreases at + 1,
{
    if at >= 0 {
        lemma_rfind_none(s, needle, at - 1);
    }
}

proof fn lemma_foot(s: Seq<u8>, p: int)
    requires
        foot_at(s, p),
    ensures
        footer_at(s) == Some(p),
{
    assert(FOOTER_JXRS@.len() == 5 && FOOTER_JXRSQ@.len() == 6);
    lemma_footers(s, p);
    if long_footer_at(s, p) {
        assert forall|j: int| p < j <= s.len() - 6 implies !#[trigger] occurs_at(s, FOOTER_JXRSQ@, j) by {
            lemma_footers(s, j);
            assert(!long_footer_at(s, j));
        }
        lemma_rfind(s, FOOTER_JXRSQ@, s.len() - 6, p);
    } else {
        assert forall|j: int| 0 <= j <= s.len() - 6 implies !#[trigger] occurs_at(s, FOOTER_JXRSQ@, j) by {
            lemma_footers(s, j);
            assert(!long_footer_at(s, j));
        }
        lemma_rfind_none(s, FOOTER_JXRSQ@, s.len() - 6);
        assert forall|j: int| p < j <= s.len() - 5 implies !#[trigger] occurs_at(s, FOOTER_JXRS@, j) by {
            lemma_footers(s, j);
            assert(!short_footer_at(s, j));
        }
        lemma_rfind(s, FOOTER_JXRS@, s.len() - 5, p);
    }
}

proof fn lemma_last_byte(s: Seq<u8>, n: int, b: u8, p: int)
    requires
        0 <= p < n <= s.len(),
        s[p] == b,
        forall|i: int| p < i < n ==> #[trigger] s[i] != b,
    ensures
        rfind(s.take(n), seq![b]) == Some(p),
{
    let t = s.take(n);
    let needle = seq![b];
    assert(t.subrange(p, p + 1) =~= needle);
    assert forall|j: int| p < j <= n - 1 implies !#[trigger] occurs_at(t, needle, j) by {
        if occurs_at(t, needle, j) {
            assert(t.subrange(j, j + 1)[0] == t[j]);
            assert(s[j] != b);
        }
    }
    lemma_rfind(t, needle, n - 1, p);
}

/// A manifest is seen before the footer of a tail: between the last bracket that closes before the
/// footer and the last that opens before it, if both stand within 8192 bytes of the footer and a brace
/// follows.
pub proof fn footed_manifests_are_seen(s: Seq<u8>, open: int, close: int, foot: int)
    requires
        foot_at(s, foot),
        0 <= open < close < foot,
        s[open] == 0x5b,
        s[close] == 0x5d,
        forall|i: int| close < i < foot ==> #[trigger] s[i] != 0x5d,
        forall|i: int| open < i < close ==> #[trigger] s[i] != 0x5b,
    ensures
        has_footed_manifest(s) <==> foot - open <= 8192 && open + 1 < close && s[open + 1] == 0x7b,
{
    lemma_foot(s, foot);
    lemma_last_byte(s, foot, 0x5d, close);
    lemma_last_byte(s, close, 0x5b, open);
}

/// Without a footer no manifest is seen.
pub proof fn without_footers_no_manifest_is_seen(s: Seq<u8>)
    requires
        forall|i: int| 0 <= i ==> !#[trigger] short_footer_at(s, i),
    ensures
        !has_footed_manifest(s),
{
    assert(FOOTER_JXRS@.len() == 5 && FOOTER_JXRSQ@.len() == 6);
    assert forall|j: int| 0 <= j <= s.len() - 6 implies !#[trigger] occurs_at(s, FOOTER_JXRSQ@, j) by {
        lemma_footers(s, j);
        assert(!short_footer_at(s, j));
    }
    lemma_rfind_none(s, FOOTER_JXRSQ@, s.len() - 6);
    assert forall|j: int| 0 <= j <= s.len() - 5 implies !#[trigger] occurs_at(s, FOOTER_JXRS@, j) by {
        lemma_footers(s, j);
        assert(!short_footer_at(s, j));
    }
    lemma_rfind_none(s, FOOTER_JXRS@, s.len() - 5);
}

} // verus!
