//! Whitespace-separated tokenization of input lines, over raw bytes.

use vstd::prelude::*;

verus! {

/// A separator byte: ASCII space or horizontal tab.
pub open spec fn is_ws(b: u8) -> bool {
    b == 32u8 || b == 9u8
}

/// The maximal run of non-separator bytes at the front of `s`.
pub open spec fn take_token(s: Seq<u8>) -> Seq<u8>
    decreases s.len(),
{
    if s.len() == 0 || is_ws(s[0]) {
        Seq::empty()
    } else {
        seq![s[0]] + take_token(s.skip(1))
    }
}

/// The leading token is never longer than the whole input, and is non-empty
/// exactly when the input starts with a non-separator byte.
pub proof fn lemma_take_token_len(s: Seq<u8>)
    ensures
        take_token(s).len() <= s.len(),
        s.len() > 0 && !is_ws(s[0]) ==> take_token(s).len() >= 1,
    decreases s.len(),
{
    if s.len() > 0 && !is_ws(s[0]) {
        lemma_take_token_len(s.skip(1));
    }
}

/// The whitespace-separated tokens of `s`, in order.
pub open spec fn tokens_of(s: Seq<u8>) -> Seq<Seq<u8>>
    decreases s.len(),
    via tokens_of_decreases
{
    if s.len() == 0 {
        Seq::empty()
    } else if is_ws(s[0]) {
        tokens_of(s.skip(1))
    } else {
        seq![take_token(s)] + tokens_of(s.skip(take_token(s).len() as int))
    }
}

#[via_fn]
proof fn tokens_of_decreases(s: Seq<u8>) {
    lemma_take_token_len(s);
}

/// When the first `k` bytes of `s` are non-separators and byte `k` (if any)
/// is a separator, the leading token is exactly those `k` bytes.
pub proof fn lemma_take_token_prefix(s: Seq<u8>, k: int)
    requires
        0 <= k <= s.len(),
        forall|i: int| 0 <= i < k ==> !is_ws(s[i]),
        k == s.len() || is_ws(s[k]),
    ensures
        take_token(s) == s.take(k),
    decreases k,
{
    if k == 0 {
        assert(take_token(s) =~= s.take(0));
    } else {
        assert(!is_ws(s[0]));
        assert(forall|i: int| 0 <= i < k - 1 ==> s.skip(1)[i] == s[i + 1]);
        lemma_take_token_prefix(s.skip(1), k - 1);
        assert(take_token(s) =~= s.take(k)) by {
            assert(take_token(s) == seq![s[0]] + s.skip(1).take(k - 1));
        }
    }
}

/// Splitting off a full leading token: the token list of `s` is that token
/// followed by the token list of the remainder.
pub proof fn lemma_tokens_step(s: Seq<u8>, k: int)
    requires
        0 < k <= s.len(),
        forall|i: int| 0 <= i < k ==> !is_ws(s[i]),
        k == s.len() || is_ws(s[k]),
    ensures
        tokens_of(s) == seq![s.take(k)] + tokens_of(s.skip(k)),
{
    lemma_take_token_prefix(s, k);
    assert(s.take(k).len() == k);
}

/// Every token is non-empty.
pub proof fn lemma_tokens_nonempty(s: Seq<u8>)
    ensures
        forall|i: int| 0 <= i < tokens_of(s).len() ==> #[trigger] tokens_of(s)[i].len() > 0,
    decreases s.len(),
{
    if s.len() == 0 {
        assert(tokens_of(s).len() == 0);
    } else if is_ws(s[0]) {
        lemma_tokens_nonempty(s.skip(1));
        assert(tokens_of(s) == tokens_of(s.skip(1)));
        assert forall|i: int| 0 <= i < tokens_of(s).len() implies #[trigger] tokens_of(
            s,
        )[i].len() > 0 by {
            assert(tokens_of(s.skip(1))[i].len() > 0);
        }
    } else {
        lemma_take_token_len(s);
        let rest = s.skip(take_token(s).len() as int);
        lemma_tokens_nonempty(rest);
        assert(take_token(s).len() > 0);
        assert(tokens_of(s) == seq![take_token(s)] + tokens_of(rest));
        assert forall|i: int| 0 <= i < tokens_of(s).len() implies #[trigger] tokens_of(
            s,
        )[i].len() > 0 by {
            if i == 0 {
                assert(tokens_of(s)[0] == take_token(s));
            } else {
                assert(tokens_of(s)[i] == tokens_of(rest)[i - 1]);
            }
        }
    }
}

/// Copies a byte vector.
pub(crate) fn copy_bytes(src: &Vec<u8>) -> (r: Vec<u8>)
    ensures
        r@ == src@,
{
    let mut r: Vec<u8> = Vec::new();
    let mut i: usize = 0;
    while i < src.len()
        invariant
            i <= src.len(),
            r@ =~= src@.take(i as int),
        decreases src.len() - i,
    {
        r.push(src[i]);
        i += 1;
    }
    proof {
        assert(src@.take(src@.len() as int) =~= src@);
    }
    r
}

/// Copies the byte range `[start, end)` of a vector.
pub(crate) fn copy_range(src: &Vec<u8>, start: usize, end: usize) -> (r: Vec<u8>)
    requires
        start <= end <= src@.len(),
    ensures
        r@ == src@.subrange(start as int, end as int),
{
    let mut r: Vec<u8> = Vec::new();
    let mut i: usize = start;
    while i < end
        invariant
            start <= i <= end <= src@.len(),
            r@ =~= src@.subrange(start as int, i as int),
        decreases end - i,
    {
        r.push(src[i]);
        i += 1;
    }
    r
}

/// Whether `b` is a separator byte.
fn ws(b: u8) -> (r: bool)
    ensures
        r == is_ws(b),
{
    b == 32 || b == 9
}

/// Splits a line into its whitespace-separated tokens, in order.
pub fn split_tokens(line: &Vec<u8>) -> (r: Vec<Vec<u8>>)
    ensures
        r@.len() == tokens_of(line@).len(),
        forall|i: int| 0 <= i < r@.len() ==> #[trigger] r@[i]@ == tokens_of(line@)[i],
{
    let n = line.len();
    let mut toks: Vec<Vec<u8>> = Vec::new();
    let mut i: usize = 0;
    proof {
        assert(line@.skip(0) =~= line@);
        assert(toks@.map_values(|t: Vec<u8>| t@) =~= Seq::<Seq<u8>>::empty());
        assert(Seq::<Seq<u8>>::empty() + tokens_of(line@) =~= tokens_of(line@));
    }
    while i < n
        invariant
            i <= n,
            n == line.len(),
            toks@.map_values(|t: Vec<u8>| t@) + tokens_of(line@.skip(i as int)) == tokens_of(
                line@,
            ),
        decreases n - i,
    {
        if ws(line[i]) {
            proof {
                assert(line@.skip(i as int).skip(1) =~= line@.skip(i as int + 1));
            }
            i += 1;
        } else {
            let start = i;
            let mut tok: Vec<u8> = Vec::new();
            while i < n && !ws(line[i])
                invariant
                    start <= i <= n,
                    n == line.len(),
                    tok@ =~= line@.subrange(start as int, i as int),
                    forall|j: int| start <= j < i ==> !is_ws(line@[j]),
                decreases n - i,
            {
                tok.push(line[i]);
                i += 1;
            }
            proof {
                let s = line@.skip(start as int);
                let k = i - start;
                assert(forall|j: int| 0 <= j < k ==> s[j] == line@[start + j]);
                assert(k < s.len() ==> is_ws(s[k as int]));
                lemma_tokens_step(s, k as int);
                assert(s.take(k as int) =~= line@.subrange(start as int, i as int));
                assert(s.skip(k as int) =~= line@.skip(i as int));
                let mapped = toks@.map_values(|t: Vec<u8>| t@);
                assert(mapped + (seq![tok@] + tokens_of(line@.skip(i as int))) =~= (mapped
                    + seq![tok@]) + tokens_of(line@.skip(i as int)));
                assert(toks@.push(tok).map_values(|t: Vec<u8>| t@) =~= mapped + seq![tok@]);
            }
            toks.push(tok);
        }
    }
    proof {
        assert(line@.skip(n as int) =~= Seq::<u8>::empty());
        let mapped = toks@.map_values(|t: Vec<u8>| t@);
        assert(mapped + tokens_of(Seq::<u8>::empty()) =~= mapped);
    }
    toks
}

} // verus!
