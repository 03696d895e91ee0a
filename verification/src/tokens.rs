//! Whitespace tokenization of a document's text body.

use vstd::prelude::*;

verus! {

/// Whether `c` is a Unicode white-space character, i.e. one of the code
/// points carrying the `White_Space` property.
pub open spec fn is_ws(c: char) -> bool {
    let u = c as u32;
    u == 0x20 || (0x09 <= u && u <= 0x0d) || u == 0x85 || u == 0xa0 || u == 0x1680 || (0x2000 <= u
        && u <= 0x200a) || u == 0x2028 || u == 0x2029 || u == 0x202f || u == 0x205f || u == 0x3000
}

/// Executable check for [`is_ws`].
pub fn is_whitespace_char(c: char) -> (r: bool)
    ensures
        r == is_ws(c),
{
    let u = c as u32;
    u == 0x20 || (0x09 <= u && u <= 0x0d) || u == 0x85 || u == 0xa0 || u == 0x1680 || (0x2000 <= u
        && u <= 0x200a) || u == 0x2028 || u == 0x2029 || u == 0x202f || u == 0x205f || u == 0x3000
}

/// Length of the maximal non-white-space prefix of `s`: the first token's
/// length when `s` starts inside a token.
pub open spec fn token_len(s: Seq<char>) -> nat
    decreases s.len(),
{
    if s.len() == 0 || is_ws(s[0]) {
        0
    } else {
        1 + token_len(s.skip(1))
    }
}

pub proof fn lemma_token_len_le(s: Seq<char>)
    ensures
        token_len(s) <= s.len(),
    decreases s.len(),
{
    if s.len() == 0 || is_ws(s[0]) {
    } else {
        lemma_token_len_le(s.skip(1));
    }
}

/// The tokens of `s`, in order: the maximal runs of non-white-space
/// characters, exactly as splitting on white-space boundaries yields them.
pub open spec fn tokens_of(s: Seq<char>) -> Seq<Seq<char>>
    decreases s.len(),
    via tokens_of_decreases
{
    if s.len() == 0 {
        Seq::empty()
    } else if is_ws(s[0]) {
        tokens_of(s.skip(1))
    } else {
        seq![s.take(token_len(s) as int)] + tokens_of(s.skip(token_len(s) as int))
    }
}

#[via_fn]
proof fn tokens_of_decreases(s: Seq<char>) {
    lemma_token_len_le(s);
}

/// If the first `k` characters of `s` are not white space and position `k`
/// is the end of `s` or white space, the first token is exactly `k` long.
proof fn lemma_token_len_at(s: Seq<char>, k: nat)
    requires
        k <= s.len(),
        forall|m: int| 0 <= m < k ==> !is_ws(s[m]),
        k == s.len() || is_ws(s[k as int]),
    ensures
        token_len(s) == k,
    decreases k,
{
    if k == 0 {
    } else {
        lemma_token_len_at(s.skip(1), (k - 1) as nat);
    }
}

/// Splits `text` on white-space boundaries, handing the tokens back in order.
pub fn tokenize(text: &str) -> (r: Vec<String>)
    ensures
        r@.map_values(|t: String| t@) == tokens_of(text@),
{
    let n = text.unicode_len();
    let mut out: Vec<String> = Vec::new();
    let mut i: usize = 0;
    proof {
        assert(text@.skip(0) =~= text@);
        assert(out@.map_values(|t: String| t@) + tokens_of(text@) =~= tokens_of(text@));
    }
    while i < n
        invariant
            n == text@.len(),
            i <= n,
            out@.map_values(|t: String| t@) + tokens_of(text@.skip(i as int)) == tokens_of(text@),
        decreases n - i,
    {
        let c = text.get_char(i);
        if is_whitespace_char(c) {
            proof {
                assert(text@.skip(i as int).skip(1) =~= text@.skip(i + 1));
            }
            i += 1;
        } else {
            let start = i;
            i += 1;
            while i < n && !is_whitespace_char(text.get_char(i))
                invariant
                    n == text@.len(),
                    start < i <= n,
                    forall|m: int| start <= m < i ==> !is_ws(text@[m]),
                decreases n - i,
            {
                i += 1;
            }
            let tok = text.substring_char(start, i).to_owned();
            proof {
                let rest = text@.skip(start as int);
                lemma_token_len_at(rest, (i - start) as nat);
                assert(rest.take((i - start) as int) =~= text@.subrange(start as int, i as int));
                assert(rest.skip((i - start) as int) =~= text@.skip(i as int));
                assert(tokens_of(rest) == seq![tok@] + tokens_of(text@.skip(i as int)));
                assert((out@ + seq![tok]).map_values(|t: String| t@) =~= out@.map_values(
                    |t: String| t@,
                ) + seq![tok@]);
                assert(out@.push(tok) =~= out@ + seq![tok]);
            }
            out.push(tok);
            proof {
                assert(out@.map_values(|t: String| t@) + tokens_of(text@.skip(i as int))
                    =~= tokens_of(text@));
            }
        }
    }
    proof {
        assert(text@.skip(n as int) =~= Seq::<char>::empty());
        assert(out@.map_values(|t: String| t@) =~= out@.map_values(|t: String| t@) + tokens_of(
            Seq::<char>::empty(),
        ));
    }
    out
}

} // verus!
