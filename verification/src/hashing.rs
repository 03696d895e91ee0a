//! Term fingerprinting: a token maps to a fixed-width 64-bit hash, with no
//! collision detection (an accepted approximation of the design).

use vstd::prelude::*;
use crate::tokens::tokens_of;

verus! {

/// The 64-bit fingerprint of a token. The fingerprint is a pure function of
/// the token's characters; nothing further is assumed about its value, so
/// two distinct tokens may share a fingerprint.
pub uninterp spec fn term_hash(t: Seq<char>) -> u64;

/// Relies on xxhash_rust::xxh3::xxh3_64: a pure digest of the input bytes,
/// so the same characters always yield the same fingerprint.
#[verifier::external_body]
pub(crate) fn hash_term(t: &str) -> (r: u64)
    ensures
        r == term_hash(t@),
{
    xxhash_rust::xxh3::xxh3_64(t.as_bytes())
}

/// The set of fingerprints of a sequence of tokens.
pub open spec fn hash_set_of(toks: Seq<Seq<char>>) -> Set<u64>
    decreases toks.len(),
{
    if toks.len() == 0 {
        Set::empty()
    } else {
        hash_set_of(toks.drop_last()).insert(term_hash(toks.last()))
    }
}

/// The deduplicated set of term fingerprints occurring in a text body: the
/// token set of a document, as the index sees it.
pub open spec fn hashes_of(text: Seq<char>) -> Set<u64> {
    hash_set_of(tokens_of(text))
}

/// A fingerprint is in a token sequence's hash set exactly when some token
/// of the sequence carries it.
pub proof fn lemma_hash_set_of_contains(toks: Seq<Seq<char>>, h: u64)
    ensures
        hash_set_of(toks).contains(h) <==> exists|i: int|
            0 <= i < toks.len() && term_hash(#[trigger] toks[i]) == h,
    decreases toks.len(),
{
    if toks.len() == 0 {
    } else {
        lemma_hash_set_of_contains(toks.drop_last(), h);
        if hash_set_of(toks).contains(h) {
            if term_hash(toks.last()) == h {
                assert(term_hash(toks[toks.len() - 1]) == h);
            } else {
                let i = choose|i: int|
                    0 <= i < toks.drop_last().len() && term_hash(
                        #[trigger] toks.drop_last()[i],
                    ) == h;
                assert(term_hash(toks[i]) == h);
            }
        }
        if exists|i: int| 0 <= i < toks.len() && term_hash(#[trigger] toks[i]) == h {
            let i = choose|i: int| 0 <= i < toks.len() && term_hash(#[trigger] toks[i]) == h;
            if i < toks.len() - 1 {
                assert(term_hash(toks.drop_last()[i]) == h);
            }
        }
    }
}

} // verus!
