use crate::bytes::{
    find_from, is_space, lemma_find_from_some, not_space, occurs_at, overwritten, until,
};
use crate::container::{
    DISABLED_ENTRY, DISABLED_KEY, FILTER_ENTRY, FILTER_KEY, colon_follows, filters_disabled,
    keys_disabled, lemma_keys_disabled_raises, lemma_names_disabled_raises, lemma_overwrite_raises,
    lemma_raised_trans, names_disabled, raised,
};
use vstd::prelude::*;

verus! {

// ---------------------------------------------------------------------------
// Display filters
// ---------------------------------------------------------------------------

/// The key of a filter, in quotes, stands at `p`.
pub open spec fn filter_key_at(s: Seq<u8>, p: int) -> bool {
    &&& 0 <= p && p + 8 <= s.len()
    &&& s[p] == 0x22 && s[p + 1] == 0x66 && s[p + 2] == 0x69 && s[p + 3] == 0x6c && s[p + 4] == 0x74 && s[p + 5]
        == 0x65 && s[p + 6] == 0x72 && s[p + 7] == 0x22
}

/// A manifest names a filter at `p`.
pub open spec fn filter_name_at(s: Seq<u8>, p: int) -> bool {
    &&& 0 <= p && p + 20 <= s.len()
    &&& s[p] == 0x22 && s[p + 1] == 0x6e && s[p + 2] == 0x61 && s[p + 3] == 0x6d && s[p + 4] == 0x65 && s[p + 5]
        == 0x22 && s[p + 6] == 0x3a
    &&& s[p + 7] == 0x22 && s[p + 8] == 0x66 && s[p + 9] == 0x69 && s[p + 10] == 0x6c && s[p + 11] == 0x74 && s[p
        + 12] == 0x65 && s[p + 13] == 0x72
    &&& s[p + 14] == 0x2e && s[p + 15] == 0x69 && s[p + 16] == 0x6e && s[p + 17] == 0x66 && s[p + 18] == 0x6f && s[p
        + 19] == 0x22
}

/// A colon stands at or behind `q`, after nothing but white space.
pub open spec fn colon_behind(s: Seq<u8>, q: int) -> bool {
    exists|c: int|
        q <= c < s.len() && #[trigger] s[c] == 0x3a && forall|i: int| q <= i < c ==> is_space(#[trigger] s[i])
}

/// How many of the first `n` bytes of two sequences differ.
pub open spec fn changes(s: Seq<u8>, t: Seq<u8>, n: int) -> int
    decreases n,
{
    if n <= 0 {
        0
    } else {
        changes(s, t, n - 1) + if s[n - 1] != t[n - 1] {
            1int
        } else {
            0
        }
    }
}

proof fn lemma_changes_add(a: Seq<u8>, b: Seq<u8>, c: Seq<u8>, n: int)
    requires
        raised(a, b),
        raised(b, c),
        n <= a.len(),
    ensures
        changes(a, c, n) == changes(a, b, n) + changes(b, c, n),
    decreases n,
{
    if n > 0 {
        lemma_changes_add(a, b, c, n - 1);
        assert(b[n - 1] == a[n - 1] || (a[n - 1] == 0x65 && b[n - 1] == 0x45));
        assert(c[n - 1] == b[n - 1] || (b[n - 1] == 0x65 && c[n - 1] == 0x45));
    }
}

proof fn lemma_one_change(s: Seq<u8>, t: Seq<u8>, k: int, n: int)
    requires
        s.len() == t.len(),
        0 <= k < s.len(),
        s[k] != t[k],
        forall|i: int| 0 <= i < s.len() && i != k ==> #[trigger] s[i] == t[i],
        n <= s.len(),
    ensures
        changes(s, t, n) == if k < n {
            1int
        } else {
            0
        },
    decreases n,
{
    if n > 0 {
        lemma_one_change(s, t, k, n - 1);
        if n - 1 != k {
            assert(s[n - 1] == t[n - 1]);
        }
    }
}

proof fn lemma_no_change(s: Seq<u8>, n: int)
    ensures
        changes(s, s, n) == 0,
    decreases n,
{
    if n > 0 {
        lemma_no_change(s, n - 1);
    }
}

proof fn lemma_filter_marks(s: Seq<u8>, p: int)
    ensures
        occurs_at(s, FILTER_KEY@, p) <==> filter_key_at(s, p),
        occurs_at(s, FILTER_ENTRY@, p) <==> filter_name_at(s, p),
{
    if 0 <= p && p + 8 <= s.len() {
        let t = s.subrange(p, p + 8);
        assert(t[0] == s[p] && t[1] == s[p + 1] && t[2] == s[p + 2] && t[3] == s[p + 3] && t[4] == s[p + 4] && t[5]
            == s[p + 5] && t[6] == s[p + 6] && t[7] == s[p + 7]);
        if filter_key_at(s, p) {
            assert(t =~= FILTER_KEY@);
        }
    }
    if 0 <= p && p + 20 <= s.len() {
        let t = s.subrange(p, p + 20);
        assert(t[0] == s[p] && t[1] == s[p + 1] && t[2] == s[p + 2] && t[3] == s[p + 3] && t[4] == s[p + 4] && t[5]
            == s[p + 5] && t[6] == s[p + 6] && t[7] == s[p + 7] && t[8] == s[p + 8] && t[9] == s[p + 9]);
        assert(t[10] == s[p + 10] && t[11] == s[p + 11] && t[12] == s[p + 12] && t[13] == s[p + 13] && t[14] == s[p
            + 14] && t[15] == s[p + 15] && t[16] == s[p + 16] && t[17] == s[p + 17] && t[18] == s[p + 18] && t[19]
            == s[p + 19]);
        if filter_name_at(s, p) {
            assert(t =~= FILTER_ENTRY@);
        }
    }
}

proof fn lemma_colon_behind(s: Seq<u8>, q: int)
    requires
        0 <= q,
    ensures
        colon_follows(s, q) <==> colon_behind(s, q),
    decreases s.len() - q,
{
    if q < s.len() && is_space(s[q]) {
        lemma_colon_behind(s, q + 1);
        assert(colon_follows(s, q) == colon_follows(s, q + 1));
        if colon_behind(s, q + 1) {
            let c = choose|c: int|
                q + 1 <= c < s.len() && #[trigger] s[c] == 0x3a && forall|i: int|
                    q + 1 <= i < c ==> is_space(#[trigger] s[i]);
            assert(q <= c < s.len() && s[c] == 0x3a && forall|i: int| q <= i < c ==> is_space(#[trigger] s[i]));
        }
        if colon_behind(s, q) {
            let c = choose|c: int|
                q <= c < s.len() && #[trigger] s[c] == 0x3a && forall|i: int|
                    q <= i < c ==> is_space(#[trigger] s[i]);
            assert(q + 1 <= c);
            assert(s[c] == 0x3a);
        }
    } else {
        assert(until(s, q, not_space()) == q);
        if colon_behind(s, q) {
            let c = choose|c: int|
                q <= c < s.len() && #[trigger] s[c] == 0x3a && forall|i: int|
                    q <= i < c ==> is_space(#[trigger] s[i]);
            if q < c {
                assert(is_space(s[q]));
            }
        }
        if colon_follows(s, q) {
            assert(s[q] == 0x3a);
        }
    }
}

proof fn lemma_colon_same(s: Seq<u8>, t: Seq<u8>, q: int)
    requires
        s.len() == t.len(),
        0 <= q,
        forall|i: int| q <= i < s.len() ==> #[trigger] s[i] == t[i],
    ensures
        colon_follows(s, q) == colon_follows(t, q),
    decreases s.len() - q,
{
    if q < s.len() {
        assert(s[q] == t[q]);
        if is_space(s[q]) {
            lemma_colon_same(s, t, q + 1);
        }
    }
}

#[verifier::rlimit(60)]
proof fn lemma_keys(s: Seq<u8>, from: int, count: int)
    requires
        0 <= from,
    ensures
        ({
            let r = keys_disabled(s, from, count);
            &&& raised(s, r.0)
            &&& r.1 == count + changes(s, r.0, s.len() as int)
            &&& forall|i: int|
                0 <= i < s.len() && #[trigger] r.0[i] != s[i] ==> from <= i - 5 && filter_key_at(s, i - 5)
                    && colon_follows(s, i + 3)
            &&& forall|p: int| #[trigger]
                filter_key_at(s, p) && from <= p && colon_follows(s, p + 8) && (forall|q: int|
                    from <= q && p - 8 < q < p ==> !#[trigger] filter_key_at(s, q)) ==> r.0[p + 5] == 0x45
        }),
    decreases s.len() - from,
{
    lemma_keys_disabled_raises(s, from, count);
    lemma_find_from_some(s, FILTER_KEY@, from);
    assert(FILTER_KEY@.len() == 8);
    match find_from(s, FILTER_KEY@, from) {
        None => {
            lemma_no_change(s, s.len() as int);
            assert forall|p: int| #[trigger] filter_key_at(s, p) && from <= p implies false by {
                lemma_filter_marks(s, p);
            }
        },
        Some(p0) => {
            lemma_filter_marks(s, p0);
            let colon = colon_follows(s, p0 + 8);
            let t = if colon {
                overwritten(s, p0, DISABLED_KEY@)
            } else {
                s
            };
            let more = if colon {
                count + 1
            } else {
                count
            };
            let r = keys_disabled(t, p0 + 8, more);
            lemma_keys(t, p0 + 8, more);
            if colon {
                assert(FILTER_KEY@ =~= seq![0x22u8, 0x66, 0x69, 0x6c, 0x74, 0x65, 0x72, 0x22]);
                assert(DISABLED_KEY@ =~= seq![0x22u8, 0x66, 0x69, 0x6c, 0x74, 0x45, 0x72, 0x22]);
                lemma_overwrite_raises(s, p0, FILTER_KEY@, DISABLED_KEY@);
                assert forall|i: int| 0 <= i < s.len() && i != p0 + 5 implies #[trigger] s[i] == t[i] by {
                    if p0 <= i < p0 + 8 {
                        assert(t[i] == DISABLED_KEY@[i - p0]);
                    }
                }
                assert(t[p0 + 5] == DISABLED_KEY@[5]);
                lemma_one_change(s, t, p0 + 5, s.len() as int);
                lemma_changes_add(s, t, r.0, s.len() as int);
            }
            assert(forall|i: int| p0 + 8 <= i < s.len() ==> #[trigger] t[i] == s[i]);
            assert forall|p: int| p0 + 8 <= p implies #[trigger] filter_key_at(t, p) == filter_key_at(s, p) by {
                if p + 8 <= s.len() {
                    assert(t[p] == s[p] && t[p + 1] == s[p + 1] && t[p + 2] == s[p + 2] && t[p + 3] == s[p + 3] && t[p
                        + 4] == s[p + 4] && t[p + 5] == s[p + 5] && t[p + 6] == s[p + 6] && t[p + 7] == s[p + 7]);
                }
            }
            assert forall|i: int| 0 <= i < s.len() && #[trigger] r.0[i] != s[i] implies from <= i - 5
                && filter_key_at(s, i - 5) && colon_follows(s, i + 3) by {
                if r.0[i] != t[i] {
                    assert(filter_key_at(t, i - 5));
                    lemma_colon_same(s, t, i + 3);
                } else {
                    assert(t[i] != s[i]);
                    assert(i == p0 + 5);
                }
            }
            assert forall|p: int| #[trigger]
                filter_key_at(s, p) && from <= p && colon_follows(s, p + 8) && (forall|q: int|
                    from <= q && p - 8 < q < p ==> !#[trigger] filter_key_at(s, q)) implies r.0[p + 5] == 0x45 by {
                lemma_filter_marks(s, p);
                assert(p >= p0);
                if p == p0 {
                    assert(colon);
                    assert(r.0[p0 + 5] == t[p0 + 5]);
                } else {
                    assert(filter_key_at(s, p0));
                    assert(p0 + 8 <= p);
                    assert(filter_key_at(t, p));
                    lemma_colon_same(s, t, p + 8);
                    assert forall|q: int| p0 + 8 <= q && p - 8 < q < p implies !#[trigger] filter_key_at(t, q) by {
                        assert(!filter_key_at(s, q));
                    }
                }
            }
        },
    }
}

#[verifier::rlimit(60)]
proof fn lemma_names(s: Seq<u8>, from: int, count: int)
    requires
        0 <= from,
    ensures
        ({
            let r = names_disabled(s, from, count);
            &&& raised(s, r.0)
            &&& r.1 == count + changes(s, r.0, s.len() as int)
            &&& forall|i: int|
                0 <= i < s.len() && #[trigger] r.0[i] != s[i] ==> from <= i - 12 && filter_name_at(s, i - 12)
            &&& forall|p: int| #[trigger]
                filter_name_at(s, p) && from <= p && (forall|q: int|
                    from <= q && p - 20 < q < p ==> !#[trigger] filter_name_at(s, q)) ==> r.0[p + 12] == 0x45
        }),
    decreases s.len() - from,
{
    lemma_names_disabled_raises(s, from, count);
    lemma_find_from_some(s, FILTER_ENTRY@, from);
    assert(FILTER_ENTRY@.len() == 20);
    match find_from(s, FILTER_ENTRY@, from) {
        None => {
            lemma_no_change(s, s.len() as int);
            assert forall|p: int| #[trigger] filter_name_at(s, p) && from <= p implies false by {
                lemma_filter_marks(s, p);
            }
        },
        Some(p0) => {
            lemma_filter_marks(s, p0);
            let t = overwritten(s, p0, DISABLED_ENTRY@);
            let r = names_disabled(t, p0 + 20, count + 1);
            lemma_names(t, p0 + 20, count + 1);
            assert(DISABLED_ENTRY@ =~= FILTER_ENTRY@.update(12, 0x45u8));
            assert(FILTER_ENTRY@[12] == 0x65);
            lemma_overwrite_raises(s, p0, FILTER_ENTRY@, DISABLED_ENTRY@);
            assert forall|i: int| 0 <= i < s.len() && i != p0 + 12 implies #[trigger] s[i] == t[i] by {
                if p0 <= i < p0 + 20 {
                    assert(t[i] == DISABLED_ENTRY@[i - p0]);
                    assert(s.subrange(p0, p0 + 20)[i - p0] == s[i]);
                }
            }
            assert(t[p0 + 12] == DISABLED_ENTRY@[12]);
            lemma_one_change(s, t, p0 + 12, s.len() as int);
            lemma_changes_add(s, t, r.0, s.len() as int);
            assert forall|p: int| p0 + 20 <= p implies #[trigger] filter_name_at(t, p) == filter_name_at(s, p) by {
                if p + 20 <= s.len() {
                    assert(forall|j: int| 0 <= j < 20 ==> #[trigger] t[p + j] == s[p + j]);
                    assert(t[p + 0] == s[p + 0]);
                }
            }
            assert forall|i: int| 0 <= i < s.len() && #[trigger] r.0[i] != s[i] implies from <= i - 12
                && filter_name_at(s, i - 12) by {
                if r.0[i] != t[i] {
                    assert(filter_name_at(t, i - 12));
                } else {
                    assert(i == p0 + 12);
                }
            }
            assert forall|p: int| #[trigger]
                filter_name_at(s, p) && from <= p && (forall|q: int|
                    from <= q && p - 20 < q < p ==> !#[trigger] filter_name_at(s, q)) implies r.0[p + 12] == 0x45 by {
                lemma_filter_marks(s, p);
                assert(p >= p0);
                if p == p0 {
                    assert(r.0[p0 + 12] == t[p0 + 12]);
                } else {
                    assert(filter_name_at(s, p0));
                    assert(p0 + 20 <= p);
                    assert(filter_name_at(t, p));
                    assert forall|q: int| p0 + 20 <= q && p - 20 < q < p implies !#[trigger] filter_name_at(t, q) by {
                        assert(!filter_name_at(s, q));
                    }
                }
            }
        },
    }
}

/// Disabling raises one letter of each filter key that a colon follows and of each name of a filter in
/// a manifest, unless it begins in the last one, and changes nothing else. It counts what it changes.
#[verifier::rlimit(60)]
pub proof fn filters_are_disabled_by_one_letter(s: Seq<u8>)
    ensures
        ({
            let (t, n) = filters_disabled(s);
            &&& t.len() == s.len()
            &&& n == changes(s, t, s.len() as int)
            &&& forall|p: int| #[trigger]
                filter_key_at(s, p) && colon_behind(s, p + 8) && (forall|q: int|
                    p - 8 < q < p ==> !#[trigger] filter_key_at(s, q)) ==> t[p + 5] == 0x45
            &&& forall|p: int| #[trigger]
                filter_name_at(s, p) && (forall|q: int| p - 20 < q < p ==> !#[trigger] filter_name_at(s, q)) ==> t[p
                    + 12] == 0x45
            &&& forall|i: int|
                0 <= i < s.len() && #[trigger] t[i] != s[i] ==> t[i] == 0x45 && s[i] == 0x65 && (filter_key_at(
                    s,
                    i - 5,
                ) && colon_behind(s, i + 3) || filter_name_at(s, i - 12))
        }),
{
    let k = keys_disabled(s, 0, 0);
    let r = names_disabled(k.0, 0, k.1);
    lemma_keys(s, 0, 0);
    lemma_names(k.0, 0, k.1);
    lemma_changes_add(s, k.0, r.0, s.len() as int);
    lemma_raised_trans(s, k.0, r.0);
    assert forall|p: int| #[trigger] filter_name_at(s, p) == filter_name_at(k.0, p) by {
        lemma_name_stays(s, k.0, p);
    }
    assert forall|p: int| #[trigger]
        filter_key_at(s, p) && colon_behind(s, p + 8) && (forall|q: int|
            p - 8 < q < p ==> !#[trigger] filter_key_at(s, q)) implies r.0[p + 5] == 0x45 by {
        lemma_colon_behind(s, p + 8);
        assert(k.0[p + 5] == 0x45);
        assert(r.0[p + 5] == k.0[p + 5] || (k.0[p + 5] == 0x65 && r.0[p + 5] == 0x45));
    }
    assert forall|p: int| #[trigger]
        filter_name_at(s, p) && (forall|q: int| p - 20 < q < p ==> !#[trigger] filter_name_at(s, q)) implies r.0[p
        + 12] == 0x45 by {
        assert(filter_name_at(k.0, p));
        assert forall|q: int| 0 <= q && p - 20 < q < p implies !#[trigger] filter_name_at(k.0, q) by {
            assert(filter_name_at(s, q) == filter_name_at(k.0, q));
        }
    }
    assert forall|i: int| 0 <= i < s.len() && #[trigger] r.0[i] != s[i] implies r.0[i] == 0x45 && s[i] == 0x65 && (
    filter_key_at(s, i - 5) && colon_behind(s, i + 3) || filter_name_at(s, i - 12)) by {
        assert(r.0[i] == s[i] || (s[i] == 0x65 && r.0[i] == 0x45));
        if k.0[i] != s[i] {
            lemma_colon_behind(s, i + 3);
        } else {
            assert(r.0[i] != k.0[i]);
            assert(filter_name_at(k.0, i - 12));
            assert(filter_name_at(s, i - 12) == filter_name_at(k.0, i - 12));
        }
    }
}

proof fn lemma_name_stays(s: Seq<u8>, k: Seq<u8>, p: int)
    requires
        raised(s, k),
        forall|i: int| 0 <= i < s.len() && #[trigger] k[i] != s[i] ==> 0 <= i - 5 && filter_key_at(s, i - 5),
    ensures
        filter_name_at(s, p) == filter_name_at(k, p),
{
    if 0 <= p && p + 20 <= s.len() {
        if filter_name_at(s, p) || filter_name_at(k, p) {
            assert forall|j: int| 0 <= j < 20 implies k[p + j] == #[trigger] s[p + j] by {
                let i = p + j;
                assert(k[i] == s[i] || (s[i] == 0x65 && k[i] == 0x45));
                if k[i] != s[i] {
                    assert(filter_key_at(s, i - 5));
                    assert(k[p] == s[p] || (s[p] == 0x65 && k[p] == 0x45));
                    assert(k[p + 14] == s[p + 14] || (s[p + 14] == 0x65 && k[p + 14] == 0x45));
                    if filter_name_at(s, p) {
                        assert(j == 4 || j == 12);
                    } else {
                        assert(k[i] == 0x45);
                    }
                }
            }
            assert(k[p + 0] == s[p + 0]);
        }
    }
}

} // verus!
