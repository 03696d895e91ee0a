//! The laws of the index, each proved over the specs that the build and
//! query contracts are stated in.

use vstd::prelude::*;
use crate::hashing::{hashes_of, term_hash};
use crate::index::SearchIndex;
use crate::model::{
    lemma_intersection_is_matching, lemma_matching_locals_sorted, lemma_posting_membership,
    lemma_posting_sorted, lemma_sorted_intersection_symmetric, matching_locals, names_of,
    posting_of, sorted_intersection, strictly_sorted,
};
use crate::records::{docs_of, record_of};

verus! {

/// A document's local id stands in the posting list of a fingerprint
/// exactly when the document's token set contains it, and it stands there
/// exactly once, however often the token repeats in the text.
pub proof fn lemma_one_entry_per_document(docs: Seq<(Seq<char>, Seq<char>)>, h: u64, k: u32)
    requires
        docs.len() <= u32::MAX,
    ensures
        posting_of(docs, h).contains(k) <==> (1 <= k <= docs.len() && hashes_of(
            docs[k - 1].1,
        ).contains(h)),
        forall|i: int, j: int|
            0 <= i < j < posting_of(docs, h).len() ==> #[trigger] posting_of(docs, h)[i]
                != #[trigger] posting_of(docs, h)[j],
{
    lemma_posting_membership(docs, h, k);
    lemma_posting_sorted(docs, h);
}

/// Every token obtained by whitespace-splitting a document's text puts
/// that document's local id into the token's posting list — once, by
/// [`lemma_one_entry_per_document`], however often the token repeats.
pub proof fn lemma_document_token_indexed(
    docs: Seq<(Seq<char>, Seq<char>)>,
    k: u32,
    tok: Seq<char>,
)
    requires
        docs.len() <= u32::MAX,
        1 <= k <= docs.len(),
        crate::tokens::tokens_of(docs[k - 1].1).contains(tok),
    ensures
        posting_of(docs, term_hash(tok)).contains(k),
{
    crate::hashing::lemma_hash_set_of_contains(
        crate::tokens::tokens_of(docs[k - 1].1),
        term_hash(tok),
    );
    lemma_posting_membership(docs, term_hash(tok), k);
}

/// Every posting list of a well-formed index is strictly ascending, with
/// no duplicate local ids and every entry naming a document of the table.
pub proof fn lemma_postings_strictly_ascending(idx: SearchIndex, h: u64)
    requires
        idx.wf(),
        idx.postings().contains_key(h),
    ensures
        strictly_sorted(idx.postings()[h]),
        forall|i: int, j: int|
            0 <= i < j < idx.postings()[h].len() ==> #[trigger] idx.postings()[h][i]
                != #[trigger] idx.postings()[h][j],
        forall|i: int|
            0 <= i < idx.postings()[h].len() ==> 1 <= #[trigger] idx.postings()[h][i]
                < idx.ids().len(),
{
}

/// A query returns exactly the canonical ids of the documents whose token
/// sets contain the fingerprints of both terms, in ascending local-id
/// order. Distinct terms sharing a fingerprint are an accepted
/// approximation: the match is on fingerprints.
pub proof fn lemma_search_exact(
    idx: SearchIndex,
    docs: Seq<(Seq<char>, Seq<char>)>,
    w1: Seq<char>,
    w2: Seq<char>,
)
    requires
        idx.wf(),
        idx.built_from(docs),
        docs.len() <= u32::MAX,
    ensures
        idx.query_spec(w1, w2) == matching_locals(docs, term_hash(w1), term_hash(w2)).map_values(
            |k: u32| docs[k - 1].0,
        ),
{
    let h1 = term_hash(w1);
    let h2 = term_hash(w2);
    assert(idx.plist(h1) == posting_of(docs, h1)) by {
        if !idx.postings().contains_key(h1) {
            assert(posting_of(docs, h1) =~= Seq::<u32>::empty());
        }
    }
    assert(idx.plist(h2) == posting_of(docs, h2)) by {
        if !idx.postings().contains_key(h2) {
            assert(posting_of(docs, h2) =~= Seq::<u32>::empty());
        }
    }
    lemma_intersection_is_matching(docs, h1, h2);
    lemma_matching_locals_sorted(docs, h1, h2);
    let m = matching_locals(docs, h1, h2);
    assert(names_of(idx.ids(), m) =~~= m.map_values(|k: u32| docs[k - 1].0)) by {
        assert forall|i: int| 0 <= i < m.len() implies names_of(idx.ids(), m)[i]
            == m.map_values(|k: u32| docs[k - 1].0)[i] by {
            assert(1 <= m[i] <= docs.len());
            assert(idx.ids()[m[i] as int] == (seq![Seq::<char>::empty()] + docs.map_values(
                |d: (Seq<char>, Seq<char>)| d.0,
            ))[m[i] as int]);
        }
    }
}

/// A local id is among the matches exactly when its document's token set
/// contains both fingerprints.
pub proof fn lemma_matching_membership(
    docs: Seq<(Seq<char>, Seq<char>)>,
    h1: u64,
    h2: u64,
    k: u32,
)
    requires
        docs.len() <= u32::MAX,
    ensures
        matching_locals(docs, h1, h2).contains(k) <==> (1 <= k <= docs.len() && hashes_of(
            docs[k - 1].1,
        ).contains(h1) && hashes_of(docs[k - 1].1).contains(h2)),
    decreases docs.len(),
{
    if docs.len() == 0 {
    } else {
        let dl = docs.drop_last();
        lemma_matching_membership(dl, h1, h2, k);
        lemma_matching_locals_sorted(dl, h1, h2);
        if hashes_of(docs.last().1).contains(h1) && hashes_of(docs.last().1).contains(h2) {
            crate::model::lemma_push_contains(matching_locals(dl, h1, h2), docs.len() as u32, k);
        }
        if 1 <= k <= dl.len() {
            assert(docs[k - 1] == dl[k - 1]);
        }
        if k == docs.len() {
            assert(docs[k - 1] == docs.last());
        }
    }
}

/// Swapping the two query terms changes nothing: the same canonical ids
/// come back, in the same order.
pub proof fn lemma_search_symmetric(idx: SearchIndex, w1: Seq<char>, w2: Seq<char>)
    requires
        idx.wf(),
    ensures
        idx.query_spec(w1, w2) == idx.query_spec(w2, w1),
{
    let a = idx.plist(term_hash(w1));
    let b = idx.plist(term_hash(w2));
    assert(strictly_sorted(a));
    assert(strictly_sorted(b));
    lemma_sorted_intersection_symmetric(a, b);
}

/// An index built over an empty corpus answers every query with the empty
/// result.
pub proof fn lemma_empty_corpus(idx: SearchIndex, w1: Seq<char>, w2: Seq<char>)
    requires
        idx.wf(),
        idx.built_from(Seq::empty()),
    ensures
        idx.query_spec(w1, w2) == Seq::<Seq<char>>::empty(),
{
    reveal(Seq::filter);
    let h1 = term_hash(w1);
    assert(idx.plist(h1) =~= Seq::<u32>::empty());
    assert(sorted_intersection(idx.plist(h1), idx.plist(term_hash(w2)))
        =~= Seq::<u32>::empty());
    assert(names_of(idx.ids(), Seq::<u32>::empty()) =~~= Seq::<Seq<char>>::empty());
}

/// The corpus of a concatenation of line streams is the concatenation of
/// their corpora: records before a given line never move because of what
/// follows it.
pub proof fn lemma_docs_of_concat(a: Seq<Seq<char>>, b: Seq<Seq<char>>)
    ensures
        docs_of(a + b) == docs_of(a) + docs_of(b),
    decreases b.len(),
{
    if b.len() == 0 {
        assert(a + b =~= a);
        assert(docs_of(a) + docs_of(b) =~= docs_of(a));
    } else {
        lemma_docs_of_concat(a, b.drop_last());
        assert((a + b).drop_last() =~= a + b.drop_last());
        assert((a + b).last() == b.last());
        match record_of(b.last()) {
            None => {
                assert(docs_of(a) + docs_of(b.drop_last()) =~= docs_of(a) + docs_of(b));
            },
            Some(d) => {
                assert((docs_of(a) + docs_of(b.drop_last())).push(d) =~= docs_of(a) + docs_of(
                    b.drop_last(),
                ).push(d));
            },
        }
    }
}

/// A malformed record between two valid ones neither shifts nor corrupts
/// the local ids of the records around it: the corpus is the same as if
/// the malformed line were not there at all.
pub proof fn lemma_malformed_record_skipped(
    pre: Seq<Seq<char>>,
    bad: Seq<char>,
    post: Seq<Seq<char>>,
)
    requires
        record_of(bad) is None,
    ensures
        docs_of(pre + seq![bad] + post) == docs_of(pre + post),
{
    lemma_docs_of_concat(pre + seq![bad], post);
    lemma_docs_of_concat(pre, seq![bad]);
    lemma_docs_of_concat(pre, post);
    assert(seq![bad].len() == 1);
    assert(seq![bad].drop_last() =~= Seq::<Seq<char>>::empty());
    assert(seq![bad].last() == bad);
    assert(docs_of(Seq::<Seq<char>>::empty()) == Seq::<(Seq<char>, Seq<char>)>::empty());
    assert(docs_of(seq![bad]) == docs_of(seq![bad].drop_last()));
    assert(docs_of(seq![bad]) =~= Seq::<(Seq<char>, Seq<char>)>::empty());
    assert(docs_of(pre) + docs_of(seq![bad]) =~= docs_of(pre));
}

} // verus!
