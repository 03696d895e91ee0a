//! The inverted index: built once from a stream of record lines, frozen, and
//! then queried with two-term AND searches.

use vstd::prelude::*;
use std::collections::HashMap;
use crate::hashing::{hash_set_of, hash_term, hashes_of, term_hash};
use crate::model::{
    lemma_posting_sorted, lemma_push_contains, lemma_sorted_intersection_symmetric, names_of,
    posting_of, sorted_intersection, strictly_sorted,
};
use crate::records::{docs_of, lemma_docs_of_len, parse_record};
use crate::tokens::{tokenize, tokens_of};

verus! {

/// The frozen index: per-fingerprint posting lists of local document ids,
/// and the table mapping each local id back to its canonical identifier.
/// Slot 0 of the table is a reserved sentinel and names no document.
pub struct SearchIndex {
    index: HashMap<u64, Vec<u32>>,
    src_ids: Vec<String>,
}

impl SearchIndex {
    /// The posting lists, as a map from fingerprint to ascending local ids.
    pub closed spec fn postings(self) -> Map<u64, Seq<u32>> {
        self.index@.map_values(|v: Vec<u32>| v@)
    }

    /// The local-id table: slot 0 holds the empty sentinel, slot `k` the
    /// canonical identifier of the document with local id `k`.
    pub closed spec fn ids(self) -> Seq<Seq<char>> {
        self.src_ids@.map_values(|s: String| s@)
    }

    /// The posting list of `h`, empty when `h` is not in the index.
    pub open spec fn plist(self, h: u64) -> Seq<u32> {
        if self.postings().contains_key(h) {
            self.postings()[h]
        } else {
            Seq::empty()
        }
    }

    /// Well-formedness: the sentinel slot exists and is empty, every posting
    /// list is non-empty and strictly ascending, and every entry is the
    /// local id of a document of the table.
    pub open spec fn wf(self) -> bool {
        &&& self.ids().len() >= 1
        &&& self.ids()[0] == Seq::<char>::empty()
        &&& forall|h: u64|
            #[trigger] self.postings().contains_key(h) ==> {
                &&& self.postings()[h].len() > 0
                &&& strictly_sorted(self.postings()[h])
                &&& forall|i: int|
                    0 <= i < self.postings()[h].len() ==> 1 <= #[trigger] self.postings()[h][i]
                        < self.ids().len()
            }
    }

    /// The index is exactly the one the corpus `docs` builds: the table
    /// holds the canonical identifiers in arrival order after the sentinel,
    /// and a fingerprint has an entry exactly when its posting list over
    /// `docs` is non-empty, in which case they agree.
    pub open spec fn built_from(self, docs: Seq<(Seq<char>, Seq<char>)>) -> bool {
        &&& self.ids() == seq![Seq::<char>::empty()] + docs.map_values(
            |d: (Seq<char>, Seq<char>)| d.0,
        )
        &&& forall|h: u64| #[trigger]
            self.postings().contains_key(h) <==> posting_of(docs, h).len() > 0
        &&& forall|h: u64|
            self.postings().contains_key(h) ==> #[trigger] self.postings()[h] == posting_of(
                docs,
                h,
            )
    }

    /// What a query returns: the canonical identifiers of the local ids
    /// common to the two terms' posting lists, in ascending local-id order.
    pub open spec fn query_spec(self, w1: Seq<char>, w2: Seq<char>) -> Seq<Seq<char>> {
        names_of(
            self.ids(),
            sorted_intersection(self.plist(term_hash(w1)), self.plist(term_hash(w2))),
        )
    }

    /// Builds the index from a sequence of record lines, in one pass: each
    /// line that parses is assigned the next local id (starting at 1), its
    /// text is tokenized, each token is fingerprinted, and the local id is
    /// appended once to the posting list of each distinct fingerprint.
    /// Malformed lines are skipped and consume no local id.
    pub fn new(lines: &Vec<String>) -> (r: SearchIndex)
        requires
            lines@.len() < u32::MAX,
        ensures
            r.wf(),
            r.built_from(docs_of(lines@.map_values(|l: String| l@))),
    {
        let ghost lv = lines@.map_values(|l: String| l@);
        let mut index: HashMap<u64, Vec<u32>> = HashMap::new();
        let mut src_ids: Vec<String> = Vec::new();
        src_ids.push(String::new());
        let mut t: usize = 0;
        proof {
            assert(lv.take(0) =~= Seq::<Seq<char>>::empty());
            assert(src_ids@.map_values(|s: String| s@) =~~= seq![Seq::<char>::empty()] + docs_of(
                lv.take(0),
            ).map_values(|d: (Seq<char>, Seq<char>)| d.0));
        }
        while t < lines.len()
            invariant
                lines@.len() < u32::MAX,
                t <= lines@.len(),
                lv == lines@.map_values(|l: String| l@),
                src_ids@.len() == 1 + docs_of(lv.take(t as int)).len(),
                src_ids@.map_values(|s: String| s@) == seq![Seq::<char>::empty()] + docs_of(
                    lv.take(t as int),
                ).map_values(|d: (Seq<char>, Seq<char>)| d.0),
                forall|h: u64| #[trigger]
                    index@.contains_key(h) <==> posting_of(docs_of(lv.take(t as int)), h).len()
                        > 0,
                forall|h: u64|
                    index@.contains_key(h) ==> #[trigger] index@[h]@ == posting_of(
                        docs_of(lv.take(t as int)),
                        h,
                    ),
            decreases lines@.len() - t,
        {
            let ghost docs0 = docs_of(lv.take(t as int));
            proof {
                assert(lv.take(t + 1).drop_last() =~= lv.take(t as int));
                assert(lv.take(t + 1).last() == lv[t as int]);
                assert(lv[t as int] == lines@[t as int]@);
                lemma_docs_of_len(lv.take(t as int));
            }
            match parse_record(lines[t].as_str()) {
                None => {
                    proof {
                        assert(docs_of(lv.take(t + 1)) == docs0);
                    }
                },
                Some(p) => {
                    let (id, text) = p;
                    let ghost d = (id@, text@);
                    let ghost docs1 = docs0.push(d);
                    proof {
                        assert(docs_of(lv.take(t + 1)) == docs1);
                        assert(docs1.drop_last() =~= docs0);
                    }
                    let toks = tokenize(text.as_str());
                    let ghost tv = toks@.map_values(|x: String| x@);
                    let mut seen: Vec<u64> = Vec::new();
                    let mut j: usize = 0;
                    proof {
                        assert(tv.take(0) =~= Seq::<Seq<char>>::empty());
                    }
                    while j < toks.len()
                        invariant
                            j <= toks@.len(),
                            tv == toks@.map_values(|x: String| x@),
                            seen@.no_duplicates(),
                            forall|h: u64| #[trigger]
                                seen@.contains(h) <==> hash_set_of(tv.take(j as int)).contains(h),
                        decreases toks@.len() - j,
                    {
                        let h = hash_term(toks[j].as_str());
                        proof {
                            assert(tv.take(j + 1).drop_last() =~= tv.take(j as int));
                            assert(tv.take(j + 1).last() == tv[j as int]);
                            assert(tv[j as int] == toks@[j as int]@);
                            assert(hash_set_of(tv.take(j + 1)) == hash_set_of(
                                tv.take(j as int),
                            ).insert(h));
                        }
                        let ghost seen0 = seen@;
                        if !contains_u64(&seen, h) {
                            seen.push(h);
                            proof {
                                assert(seen@.no_duplicates()) by {
                                    assert(forall|i: int|
                                        0 <= i < seen0.len() ==> seen0[i] != h);
                                    assert(forall|i: int|
                                        0 <= i < seen0.len() ==> seen@[i] == seen0[i]);
                                    assert(seen@[seen0.len() as int] == h);
                                }
                                assert forall|h2: u64| #[trigger] seen@.contains(h2) implies
                                    hash_set_of(tv.take(j + 1)).contains(h2) by {
                                    lemma_push_contains(seen0, h, h2);
                                }
                                assert forall|h2: u64|
                                    hash_set_of(tv.take(j + 1)).contains(h2) implies #[trigger]
                                    seen@.contains(h2) by {
                                    lemma_push_contains(seen0, h, h2);
                                }
                            }
                        } else {
                            proof {
                                assert forall|h2: u64| #[trigger] seen@.contains(h2) implies
                                    hash_set_of(tv.take(j + 1)).contains(h2) by {}
                                assert forall|h2: u64|
                                    hash_set_of(tv.take(j + 1)).contains(h2) implies #[trigger]
                                    seen@.contains(h2) by {
                                    if h2 != h {
                                        assert(hash_set_of(tv.take(j as int)).contains(h2));
                                    }
                                }
                            }
                        }
                        j += 1;
                    }
                    proof {
                        assert(tv.take(toks@.len() as int) =~= tv);
                        assert(tv == tokens_of(d.1));
                        assert(forall|h: u64| #[trigger]
                            seen@.contains(h) <==> hashes_of(d.1).contains(h));
                        assert(docs0.len() <= t);
                    }
                    let local: u32 = src_ids.len() as u32;
                    proof {
                        assert(local == docs1.len());
                        assert(docs1.len() <= u32::MAX);
                        assert forall|h: u64| hashes_of(d.1).contains(h) implies #[trigger]
                            posting_of(docs1, h) == posting_of(docs0, h).push(local) by {}
                        assert forall|h: u64| !hashes_of(d.1).contains(h) implies #[trigger]
                            posting_of(docs1, h) == posting_of(docs0, h) by {}
                    }
                    let ghost idx0 = index@;
                    let mut k: usize = 0;
                    while k < seen.len()
                        invariant
                            k <= seen@.len(),
                            seen@.no_duplicates(),
                            forall|h: u64| #[trigger]
                                seen@.contains(h) <==> hashes_of(d.1).contains(h),
                            forall|h: u64| hashes_of(d.1).contains(h) ==> #[trigger] posting_of(
                                docs1,
                                h,
                            ) == posting_of(docs0, h).push(local),
                            forall|h: u64| !hashes_of(d.1).contains(h) ==> #[trigger] posting_of(
                                docs1,
                                h,
                            ) == posting_of(docs0, h),
                            forall|h: u64| #[trigger]
                                idx0.contains_key(h) <==> posting_of(docs0, h).len() > 0,
                            forall|h: u64|
                                idx0.contains_key(h) ==> #[trigger] idx0[h]@ == posting_of(
                                    docs0,
                                    h,
                                ),
                            forall|h: u64| #[trigger]
                                seen@.take(k as int).contains(h) ==> index@.contains_key(h)
                                    && index@[h]@ == posting_of(docs1, h),
                            forall|h: u64|
                                !seen@.take(k as int).contains(h) ==> ((#[trigger]
                                index@.contains_key(h) <==> idx0.contains_key(h)) && (
                                index@.contains_key(h) ==> index@[h] == idx0[h])),
                        decreases seen@.len() - k,
                    {
                        let h = seen[k];
                        proof {
                            assert(seen@.contains(h));
                            assert(!seen@.take(k as int).contains(h)) by {
                                if seen@.take(k as int).contains(h) {
                                    let i = choose|i: int|
                                        0 <= i < k && seen@.take(k as int)[i] == h;
                                    assert(seen@[i] == seen@[k as int]);
                                }
                            }
                            assert(hashes_of(d.1).contains(h));
                            assert(posting_of(docs1, h) == posting_of(docs0, h).push(local));
                        }
                        let ghost idx_pre = index@;
                        match index.remove(&h) {
                            Some(mut v) => {
                                proof {
                                    assert(v@ == posting_of(docs0, h));
                                }
                                v.push(local);
                                index.insert(h, v);
                            },
                            None => {
                                proof {
                                    assert(posting_of(docs0, h).len() == 0);
                                    assert(posting_of(docs0, h) =~= Seq::<u32>::empty());
                                }
                                let mut v: Vec<u32> = Vec::new();
                                v.push(local);
                                index.insert(h, v);
                            },
                        }
                        proof {
                            assert(seen@.take(k + 1).drop_last() =~= seen@.take(k as int));
                            assert(seen@.take(k + 1).last() == h);
                            assert(index@[h]@ == posting_of(docs1, h));
                            assert forall|h2: u64| #[trigger] seen@.take(k + 1).contains(h2)
                                implies index@.contains_key(h2) && index@[h2]@ == posting_of(
                                docs1,
                                h2,
                            ) by {
                                lemma_push_contains(seen@.take(k as int), h, h2);
                                if h2 != h {
                                    assert(seen@.take(k as int).contains(h2));
                                    assert(idx_pre.contains_key(h2) && idx_pre[h2]@ == posting_of(
                                        docs1,
                                        h2,
                                    ));
                                }
                            }
                            assert forall|h2: u64| !seen@.take(k + 1).contains(h2) implies ((
                            #[trigger] index@.contains_key(h2) <==> idx0.contains_key(h2)) && (
                            index@.contains_key(h2) ==> index@[h2] == idx0[h2])) by {
                                lemma_push_contains(seen@.take(k as int), h, h2);
                            }
                        }
                        k += 1;
                    }
                    let ghost ids0 = src_ids@;
                    src_ids.push(id);
                    proof {
                        assert(seen@.take(seen@.len() as int) =~= seen@);
                        let f = |s: String| s@;
                        let g = |dd: (Seq<char>, Seq<char>)| dd.0;
                        assert(src_ids@.map_values(f).len() == (seq![Seq::<char>::empty()]
                            + docs1.map_values(g)).len());
                        assert forall|i: int| 0 <= i < src_ids@.len() implies src_ids@.map_values(
                            f,
                        )[i] == (seq![Seq::<char>::empty()] + docs1.map_values(g))[i] by {
                            if i < ids0.len() {
                                assert(src_ids@[i] == ids0[i]);
                                assert(ids0.map_values(f)[i] == (seq![Seq::<char>::empty()]
                                    + docs0.map_values(g))[i]);
                                if i >= 1 {
                                    assert(docs1[i - 1] == docs0[i - 1]);
                                }
                            } else {
                                assert(src_ids@[i] == id);
                                assert(docs1[i - 1] == d);
                            }
                        }
                        assert(src_ids@.map_values(f) =~~= seq![Seq::<char>::empty()]
                            + docs1.map_values(g));
                        assert forall|h: u64| #[trigger] index@.contains_key(h) <==> posting_of(
                            docs1,
                            h,
                        ).len() > 0 by {
                            if seen@.contains(h) {
                                assert(index@.contains_key(h) && index@[h]@ == posting_of(
                                    docs1,
                                    h,
                                ));
                            } else {
                                assert(posting_of(docs1, h) == posting_of(docs0, h));
                            }
                        }
                        assert forall|h: u64| index@.contains_key(h) implies #[trigger]
                            index@[h]@ == posting_of(docs1, h) by {
                            if !seen@.contains(h) {
                                assert(index@[h] == idx0[h]);
                                assert(posting_of(docs1, h) == posting_of(docs0, h));
                            }
                        }
                    }
                },
            }
            t += 1;
        }
        let r = SearchIndex { index, src_ids };
        proof {
            assert(lv.take(lines@.len() as int) =~= lv);
            let docs = docs_of(lv);
            lemma_docs_of_len(lv);
            assert forall|h: u64| #[trigger] r.postings().contains_key(h) <==> posting_of(
                docs,
                h,
            ).len() > 0 by {
                assert(r.postings().contains_key(h) == r.index@.contains_key(h));
            }
            assert forall|h: u64| r.postings().contains_key(h) implies #[trigger] r.postings()[h]
                == posting_of(docs, h) by {
                assert(r.postings()[h] == r.index@[h]@);
            }
            assert(r.built_from(docs));
            assert forall|h: u64| #[trigger] r.postings().contains_key(h) implies {
                &&& r.postings()[h].len() > 0
                &&& strictly_sorted(r.postings()[h])
                &&& forall|i: int|
                    0 <= i < r.postings()[h].len() ==> 1 <= #[trigger] r.postings()[h][i]
                        < r.ids().len()
            } by {
                lemma_posting_sorted(docs, h);
                assert(r.ids().len() == 1 + docs.len());
            }
            assert(r.ids()[0] == Seq::<char>::empty());
        }
        r
    }

    /// Runs a two-term AND query: hashes both terms, intersects their
    /// posting lists with a two-pointer merge, and maps the matched local
    /// ids to canonical identifiers. An unknown term yields no matches.
    pub fn search(&self, word1: &str, word2: &str) -> (r: Vec<String>)
        requires
            self.wf(),
        ensures
            r@.map_values(|s: String| s@) == self.query_spec(word1@, word2@),
    {
        let h1 = hash_term(word1);
        let h2 = hash_term(word2);
        let l1 = match self.index.get(&h1) {
            Some(v) => v,
            None => {
                let r: Vec<String> = Vec::new();
                proof {
                    lemma_empty_intersection(self.plist(h2));
                    assert(r@.map_values(|s: String| s@) =~~= names_of(
                        self.ids(),
                        Seq::<u32>::empty(),
                    ));
                }
                return r;
            },
        };
        let l2 = match self.index.get(&h2) {
            Some(v) => v,
            None => {
                let r: Vec<String> = Vec::new();
                proof {
                    lemma_intersection_with_empty(self.plist(h1));
                    assert(r@.map_values(|s: String| s@) =~~= names_of(
                        self.ids(),
                        Seq::<u32>::empty(),
                    ));
                }
                return r;
            },
        };
        proof {
            assert(self.postings().contains_key(h1) && self.postings()[h1] == l1@);
            assert(self.postings().contains_key(h2) && self.postings()[h2] == l2@);
            assert(strictly_sorted(l1@));
            assert(strictly_sorted(l2@));
        }
        if l2.len() < l1.len() {
            let r = intersect(l2, l1, &self.src_ids);
            proof {
                lemma_sorted_intersection_symmetric(l1@, l2@);
            }
            r
        } else {
            intersect(l1, l2, &self.src_ids)
        }
    }
}

/// Linear membership test in a small per-document fingerprint list.
fn contains_u64(v: &Vec<u64>, x: u64) -> (r: bool)
    ensures
        r == v@.contains(x),
{
    let mut i: usize = 0;
    while i < v.len()
        invariant
            i <= v@.len(),
            forall|m: int| 0 <= m < i ==> v@[m] != x,
        decreases v@.len() - i,
    {
        if v[i] == x {
            return true;
        }
        i += 1;
    }
    false
}

/// The intersection of anything with an empty list is empty.
proof fn lemma_intersection_with_empty(a: Seq<u32>)
    ensures
        sorted_intersection(a, Seq::<u32>::empty()) == Seq::<u32>::empty(),
    decreases a.len(),
{
    reveal(Seq::filter);
    if a.len() == 0 {
    } else {
        lemma_intersection_with_empty(a.drop_last());
        assert(!Seq::<u32>::empty().contains(a.last()));
    }
}

/// The intersection of an empty list with anything is empty.
proof fn lemma_empty_intersection(b: Seq<u32>)
    ensures
        sorted_intersection(Seq::<u32>::empty(), b) == Seq::<u32>::empty(),
{
    reveal(Seq::filter);
}

/// The two-pointer merge over two strictly ascending lists, translating
/// each common local id into its canonical identifier. When the current
/// elements differ, the cursor at the smaller value advances; when they
/// are equal, the match is recorded and both advance.
fn intersect(a: &Vec<u32>, b: &Vec<u32>, ids: &Vec<String>) -> (r: Vec<String>)
    requires
        strictly_sorted(a@),
        strictly_sorted(b@),
        forall|i: int| 0 <= i < a@.len() ==> 0 <= #[trigger] a@[i] < ids@.len(),
    ensures
        r@.map_values(|s: String| s@) == names_of(
            ids@.map_values(|s: String| s@),
            sorted_intersection(a@, b@),
        ),
{
    let ghost idsv = ids@.map_values(|s: String| s@);
    let mut found: Vec<String> = Vec::new();
    let mut p1: usize = 0;
    let mut p2: usize = 0;
    proof {
        reveal(Seq::filter);
        assert(a@.take(0) =~= Seq::<u32>::empty());
        assert(found@.map_values(|s: String| s@) =~~= names_of(
            idsv,
            sorted_intersection(a@.take(0), b@),
        ));
    }
    while p1 < a.len() && p2 < b.len()
        invariant
            p1 <= a@.len(),
            p2 <= b@.len(),
            strictly_sorted(a@),
            strictly_sorted(b@),
            forall|i: int| 0 <= i < a@.len() ==> 0 <= #[trigger] a@[i] < ids@.len(),
            idsv == ids@.map_values(|s: String| s@),
            found@.map_values(|s: String| s@) == names_of(
                idsv,
                sorted_intersection(a@.take(p1 as int), b@),
            ),
            forall|i: int, j: int|
                p1 <= i < a@.len() && 0 <= j < p2 ==> #[trigger] a@[i] != #[trigger] b@[j],
        decreases a@.len() - p1 + b@.len() - p2,
    {
        let x = a[p1];
        let y = b[p2];
        let ghost pre = a@.take(p1 as int);
        proof {
            reveal(Seq::filter);
            assert(a@.take(p1 + 1).drop_last() =~= pre);
            assert(a@.take(p1 + 1).last() == x);
        }
        if x == y {
            let ghost found0 = found@;
            let ghost si0 = sorted_intersection(pre, b@);
            let ghost si1 = sorted_intersection(a@.take(p1 + 1), b@);
            found.push(ids[x as usize].clone());
            proof {
                let f = |s: String| s@;
                let pred = |k: u32| b@.contains(k);
                assert(b@[p2 as int] == y);
                assert(pred(x));
                assert(si1 == si0.push(x));
                assert(found0.map_values(f).len() == si0.len());
                assert(found@.map_values(f).len() == names_of(idsv, si1).len());
                assert forall|i: int| 0 <= i < found@.len() implies found@.map_values(f)[i]
                    == names_of(idsv, si1)[i] by {
                    if i < found0.len() {
                        assert(found@[i] == found0[i]);
                        assert(found0.map_values(f)[i] == names_of(idsv, si0)[i]);
                        assert(si1[i] == si0[i]);
                    } else {
                        assert(found@[i]@ == idsv[x as int]);
                        assert(si1[i] == x);
                    }
                }
                assert(found@.map_values(f) =~~= names_of(idsv, si1));
            }
            p1 += 1;
            p2 += 1;
            proof {
                assert forall|i: int, j: int|
                    p1 <= i < a@.len() && 0 <= j < p2 implies #[trigger] a@[i] != #[trigger] b@[j] by {
                    if j == p2 - 1 {
                        assert(a@[p1 - 1] < a@[i]);
                    }
                }
            }
        } else if x < y {
            proof {
                let pred = |k: u32| b@.contains(k);
                assert(!pred(x)) by {
                    if b@.contains(x) {
                        let j = choose|j: int| 0 <= j < b@.len() && b@[j] == x;
                        if j >= p2 {
                            assert(b@[p2 as int] <= b@[j]);
                        }
                    }
                }
                assert(sorted_intersection(a@.take(p1 + 1), b@) == sorted_intersection(pre, b@));
            }
            p1 += 1;
        } else {
            p2 += 1;
            proof {
                assert forall|i: int, j: int|
                    p1 <= i < a@.len() && 0 <= j < p2 implies #[trigger] a@[i] != #[trigger] b@[j] by {
                    if j == p2 - 1 {
                        assert(a@[p1 as int] <= a@[i]);
                    }
                }
            }
        }
    }
    proof {
        if p1 == a@.len() {
            assert(a@.take(p1 as int) =~= a@);
        } else {
            let pred = |k: u32| b@.contains(k);
            let tail = a@.skip(p1 as int);
            assert(a@.take(p1 as int) + tail =~= a@);
            Seq::<u32>::filter_distributes_over_add(a@.take(p1 as int), tail, pred);
            assert(tail.all(|k: u32| !pred(k))) by {
                assert forall|i: int| 0 <= i < tail.len() implies !pred(tail[i]) by {
                    if b@.contains(tail[i]) {
                        let j = choose|j: int| 0 <= j < b@.len() && b@[j] == tail[i];
                        assert(a@[p1 + i] == tail[i]);
                    }
                }
                assert(forall|i: int| 0 <= i < tail.len() ==> !pred(tail[i]));
            }
            tail.lemma_all_neg_filter_empty(pred);
            assert(sorted_intersection(a@, b@) =~= sorted_intersection(a@.take(p1 as int), b@));
        }
    }
    found
}

} // verus!
