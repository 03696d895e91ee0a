//! The mathematical model of the index: posting lists over a corpus, the
//! ascending intersection of two sorted lists, and the facts about strictly
//! sorted sequences that the engine's proofs rest on.

use vstd::prelude::*;
use crate::hashing::hashes_of;

verus! {

/// Strict ascending order, with no duplicates as a consequence.
pub open spec fn strictly_sorted(s: Seq<u32>) -> bool {
    forall|i: int, j: int| 0 <= i < j < s.len() ==> s[i] < s[j]
}

/// The intersection of two posting lists: the elements of `a` that also
/// occur in `b`, in `a`'s order.
pub open spec fn sorted_intersection(a: Seq<u32>, b: Seq<u32>) -> Seq<u32> {
    a.filter(|k: u32| b.contains(k))
}

/// The canonical identifiers that a sequence of local ids names.
pub open spec fn names_of(ids: Seq<Seq<char>>, locals: Seq<u32>) -> Seq<Seq<char>> {
    locals.map_values(|k: u32| ids[k as int])
}

/// The posting list of fingerprint `h` over a corpus: the local ids
/// (starting at 1, in arrival order) of the documents whose token sets
/// contain `h`, ascending by construction.
pub open spec fn posting_of(docs: Seq<(Seq<char>, Seq<char>)>, h: u64) -> Seq<u32>
    decreases docs.len(),
{
    if docs.len() == 0 {
        Seq::empty()
    } else {
        let p = posting_of(docs.drop_last(), h);
        if hashes_of(docs.last().1).contains(h) {
            p.push(docs.len() as u32)
        } else {
            p
        }
    }
}

/// The local ids of the documents whose token sets contain both `h1` and
/// `h2`, ascending: what a two-term AND query should find.
pub open spec fn matching_locals(docs: Seq<(Seq<char>, Seq<char>)>, h1: u64, h2: u64) -> Seq<u32>
    decreases docs.len(),
{
    if docs.len() == 0 {
        Seq::empty()
    } else {
        let p = matching_locals(docs.drop_last(), h1, h2);
        if hashes_of(docs.last().1).contains(h1) && hashes_of(docs.last().1).contains(h2) {
            p.push(docs.len() as u32)
        } else {
            p
        }
    }
}

/// A posting list is strictly ascending, and its entries are local ids of
/// documents of the corpus: at least 1, at most the corpus size.
pub proof fn lemma_posting_sorted(docs: Seq<(Seq<char>, Seq<char>)>, h: u64)
    requires
        docs.len() <= u32::MAX,
    ensures
        strictly_sorted(posting_of(docs, h)),
        forall|i: int|
            0 <= i < posting_of(docs, h).len() ==> 1 <= #[trigger] posting_of(docs, h)[i]
                <= docs.len(),
    decreases docs.len(),
{
    if docs.len() == 0 {
    } else {
        lemma_posting_sorted(docs.drop_last(), h);
    }
}

/// A local id stands in the posting list of `h` exactly when the document
/// it names carries a token with fingerprint `h`.
pub proof fn lemma_posting_membership(docs: Seq<(Seq<char>, Seq<char>)>, h: u64, k: u32)
    requires
        docs.len() <= u32::MAX,
    ensures
        posting_of(docs, h).contains(k) <==> (1 <= k <= docs.len() && hashes_of(
            docs[k - 1].1,
        ).contains(h)),
    decreases docs.len(),
{
    if docs.len() == 0 {
    } else {
        let dl = docs.drop_last();
        lemma_posting_membership(dl, h, k);
        lemma_posting_sorted(dl, h);
        if hashes_of(docs.last().1).contains(h) {
            lemma_push_contains(posting_of(dl, h), docs.len() as u32, k);
        }
        if 1 <= k <= dl.len() {
            assert(docs[k - 1] == dl[k - 1]);
        }
        if k == docs.len() {
            assert(docs[k - 1] == docs.last());
        }
    }
}

/// The matched local ids are strictly ascending and in range, like the
/// posting lists they come from.
pub proof fn lemma_matching_locals_sorted(docs: Seq<(Seq<char>, Seq<char>)>, h1: u64, h2: u64)
    requires
        docs.len() <= u32::MAX,
    ensures
        strictly_sorted(matching_locals(docs, h1, h2)),
        forall|i: int|
            0 <= i < matching_locals(docs, h1, h2).len() ==> 1 <= #[trigger] matching_locals(
                docs,
                h1,
                h2,
            )[i] <= docs.len(),
    decreases docs.len(),
{
    if docs.len() == 0 {
    } else {
        lemma_matching_locals_sorted(docs.drop_last(), h1, h2);
    }
}

/// Intersecting the posting lists of `h1` and `h2` finds exactly the
/// documents whose token sets contain both fingerprints.
pub proof fn lemma_intersection_is_matching(docs: Seq<(Seq<char>, Seq<char>)>, h1: u64, h2: u64)
    requires
        docs.len() <= u32::MAX,
    ensures
        sorted_intersection(posting_of(docs, h1), posting_of(docs, h2)) == matching_locals(
            docs,
            h1,
            h2,
        ),
    decreases docs.len(),
{
    reveal(Seq::filter);
    if docs.len() == 0 {
    } else {
        let dl = docs.drop_last();
        lemma_intersection_is_matching(dl, h1, h2);
        lemma_posting_sorted(dl, h1);
        lemma_posting_sorted(dl, h2);
        let p1 = posting_of(dl, h1);
        let p2 = posting_of(dl, h2);
        let n = docs.len() as u32;
        let in_p2 = |k: u32| p2.contains(k);
        let in_p2n = |k: u32| p2.push(n).contains(k);
        assert(forall|i: int| 0 <= i < p1.len() ==> in_p2(p1[i]) == in_p2n(p1[i])) by {
            assert forall|i: int| 0 <= i < p1.len() implies in_p2(p1[i]) == in_p2n(p1[i]) by {
                lemma_push_contains(p2, n, p1[i]);
            }
        }
        lemma_filter_congruent(p1, in_p2, in_p2n);
        if hashes_of(docs.last().1).contains(h2) {
            assert(posting_of(docs, h2) == p2.push(n));
        } else {
            assert(posting_of(docs, h2) == p2);
        }
        if hashes_of(docs.last().1).contains(h1) {
            assert(posting_of(docs, h1) == p1.push(n));
            assert(p1.push(n).drop_last() =~= p1);
            assert(p1.push(n).last() == n);
            if hashes_of(docs.last().1).contains(h2) {
                lemma_push_contains(p2, n, n);
                assert(in_p2n(n));
                assert(sorted_intersection(p1.push(n), p2.push(n)) == p1.filter(in_p2n).push(n));
                assert(p1.filter(in_p2n) == matching_locals(dl, h1, h2));
            } else {
                assert(!in_p2(n)) by {
                    if p2.contains(n) {
                        let i = choose|i: int| 0 <= i < p2.len() && p2[i] == n;
                    }
                }
                assert(sorted_intersection(p1.push(n), p2) == p1.filter(in_p2));
            }
        } else {
            assert(posting_of(docs, h1) == p1);
        }
    }
}

/// Membership in a pushed sequence.
pub proof fn lemma_push_contains<T>(s: Seq<T>, y: T, x: T)
    ensures
        s.push(y).contains(x) <==> s.contains(x) || x == y,
{
    if s.push(y).contains(x) {
        let i = choose|i: int| 0 <= i < s.push(y).len() && s.push(y)[i] == x;
        if i < s.len() {
            assert(s[i] == x);
        }
    }
    if s.contains(x) {
        let i = choose|i: int| 0 <= i < s.len() && s[i] == x;
        assert(s.push(y)[i] == x);
    }
    if x == y {
        assert(s.push(y)[s.len() as int] == x);
    }
}

/// What `filter` keeps: exactly the elements that satisfy the predicate.
pub proof fn lemma_filter_membership(s: Seq<u32>, pred: spec_fn(u32) -> bool)
    ensures
        forall|x: u32| #[trigger] s.filter(pred).contains(x) <==> s.contains(x) && pred(x),
    decreases s.len(),
{
    reveal(Seq::filter);
    if s.len() == 0 {
    } else {
        let dl = s.drop_last();
        lemma_filter_membership(dl, pred);
        assert forall|x: u32| #[trigger] s.filter(pred).contains(x) implies s.contains(x) && pred(
            x,
        ) by {
            if pred(s.last()) {
                lemma_push_contains(dl.filter(pred), s.last(), x);
            }
            if dl.filter(pred).contains(x) {
                assert(dl.contains(x));
                let i = choose|i: int| 0 <= i < dl.len() && dl[i] == x;
                assert(s[i] == x);
            } else {
                assert(s[s.len() - 1] == s.last());
            }
        }
        assert forall|x: u32| s.contains(x) && pred(x) implies #[trigger] s.filter(pred).contains(
            x,
        ) by {
            let i = choose|i: int| 0 <= i < s.len() && s[i] == x;
            if i < s.len() - 1 {
                assert(dl[i] == x);
                assert(dl.filter(pred).contains(x));
                if pred(s.last()) {
                    lemma_push_contains(dl.filter(pred), s.last(), x);
                }
            } else {
                assert(x == s.last());
                lemma_push_contains(dl.filter(pred), s.last(), x);
            }
        }
    }
}

/// `filter` keeps a strictly sorted sequence strictly sorted.
pub proof fn lemma_filter_sorted(s: Seq<u32>, pred: spec_fn(u32) -> bool)
    requires
        strictly_sorted(s),
    ensures
        strictly_sorted(s.filter(pred)),
    decreases s.len(),
{
    reveal(Seq::filter);
    if s.len() == 0 {
    } else {
        let dl = s.drop_last();
        assert(strictly_sorted(dl)) by {
            assert forall|i: int, j: int| 0 <= i < j < dl.len() implies dl[i] < dl[j] by {
                assert(s[i] == dl[i] && s[j] == dl[j]);
            }
        }
        lemma_filter_sorted(dl, pred);
        lemma_filter_membership(dl, pred);
        if pred(s.last()) {
            let f = dl.filter(pred).push(s.last());
            assert forall|i: int, j: int| 0 <= i < j < f.len() implies f[i] < f[j] by {
                if j == f.len() - 1 {
                    assert(dl.filter(pred).contains(f[i]));
                    let m = choose|m: int| 0 <= m < dl.len() && dl[m] == f[i];
                    assert(s[m] == f[i]);
                    assert(s[m] < s.last());
                }
            }
        }
    }
}

/// Two strictly sorted sequences with the same members are the same
/// sequence.
pub proof fn lemma_strictly_sorted_same_elems(a: Seq<u32>, b: Seq<u32>)
    requires
        strictly_sorted(a),
        strictly_sorted(b),
        forall|x: u32| a.contains(x) <==> b.contains(x),
    ensures
        a == b,
    decreases a.len(),
{
    if a.len() == 0 {
        if b.len() > 0 {
            assert(b.contains(b[0]));
        }
        assert(a =~= b);
    } else {
        assert(a.contains(a[0]));
        assert(b.contains(b[0]));
        let i = choose|i: int| 0 <= i < b.len() && b[i] == a[0];
        let j = choose|j: int| 0 <= j < a.len() && a[j] == b[0];
        assert(a[0] == b[0]) by {
            if i > 0 {
                assert(b[0] < b[i]);
            }
            if j > 0 {
                assert(a[0] < a[j]);
            }
        }
        let at = a.skip(1);
        let bt = b.skip(1);
        assert(strictly_sorted(at)) by {
            assert forall|p: int, q: int| 0 <= p < q < at.len() implies at[p] < at[q] by {
                assert(a[p + 1] == at[p] && a[q + 1] == at[q]);
            }
        }
        assert(strictly_sorted(bt)) by {
            assert forall|p: int, q: int| 0 <= p < q < bt.len() implies bt[p] < bt[q] by {
                assert(b[p + 1] == bt[p] && b[q + 1] == bt[q]);
            }
        }
        assert forall|x: u32| at.contains(x) implies bt.contains(x) by {
            let p = choose|p: int| 0 <= p < at.len() && at[p] == x;
            assert(a[p + 1] == x);
            assert(a.contains(x));
            assert(a[0] < a[p + 1]);
            let q = choose|q: int| 0 <= q < b.len() && b[q] == x;
            assert(q > 0);
            assert(bt[q - 1] == x);
        }
        assert forall|x: u32| bt.contains(x) implies at.contains(x) by {
            let q = choose|q: int| 0 <= q < bt.len() && bt[q] == x;
            assert(b[q + 1] == x);
            assert(b.contains(x));
            assert(b[0] < b[q + 1]);
            let p = choose|p: int| 0 <= p < a.len() && a[p] == x;
            assert(p > 0);
            assert(at[p - 1] == x);
        }
        lemma_strictly_sorted_same_elems(at, bt);
        assert(a =~= b) by {
            assert forall|p: int| 0 <= p < a.len() implies a[p] == b[p] by {
                if p > 0 {
                    assert(at[p - 1] == bt[p - 1]);
                }
            }
        }
    }
}

/// The intersection of two strictly sorted lists does not depend on the
/// order of its arguments.
pub proof fn lemma_sorted_intersection_symmetric(a: Seq<u32>, b: Seq<u32>)
    requires
        strictly_sorted(a),
        strictly_sorted(b),
    ensures
        sorted_intersection(a, b) == sorted_intersection(b, a),
{
    lemma_filter_membership(a, |k: u32| b.contains(k));
    lemma_filter_membership(b, |k: u32| a.contains(k));
    lemma_filter_sorted(a, |k: u32| b.contains(k));
    lemma_filter_sorted(b, |k: u32| a.contains(k));
    lemma_strictly_sorted_same_elems(sorted_intersection(a, b), sorted_intersection(b, a));
}

/// Filtering with predicates that agree on the sequence's elements yields
/// the same result.
pub proof fn lemma_filter_congruent(s: Seq<u32>, p: spec_fn(u32) -> bool, q: spec_fn(u32) -> bool)
    requires
        forall|i: int| 0 <= i < s.len() ==> p(s[i]) == q(s[i]),
    ensures
        s.filter(p) == s.filter(q),
    decreases s.len(),
{
    reveal(Seq::filter);
    if s.len() == 0 {
    } else {
        let dl = s.drop_last();
        assert(forall|i: int| 0 <= i < dl.len() ==> p(dl[i]) == q(dl[i])) by {
            assert(forall|i: int| 0 <= i < dl.len() ==> dl[i] == s[i]);
        }
        lemma_filter_congruent(dl, p, q);
        assert(s[s.len() - 1] == s.last());
    }
}

} // verus!
