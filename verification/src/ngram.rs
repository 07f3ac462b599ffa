//! N-grams: the windows of a token sequence, each split into a context and
//! the token that follows it.

use vstd::prelude::*;

verus! {

/// The n-grams of `tokens` for the window size `n`: for every place `i` at
/// which a window of `n` tokens starts, the first `n - 1` tokens of the window
/// as the context, and its last token.
pub open spec fn windows(tokens: Seq<Seq<char>>, n: int) -> Seq<(Seq<Seq<char>>, Seq<char>)>
    recommends
        1 <= n <= tokens.len(),
{
    Seq::new(
        (tokens.len() - n + 1) as nat,
        |i: int| (tokens.subrange(i, i + n - 1), tokens[i + n - 1]),
    )
}

/// The most recent `limit` tokens of `tokens`; all of them where there are no
/// more than that.
pub open spec fn recent(tokens: Seq<Seq<char>>, limit: int) -> Seq<Seq<char>>
    recommends
        0 <= limit,
{
    if tokens.len() <= limit {
        tokens
    } else {
        tokens.skip(tokens.len() - limit)
    }
}

/// Cutting twice to the same limit is cutting once.
pub proof fn lemma_recent_twice(tokens: Seq<Seq<char>>, limit: int)
    requires
        0 <= limit,
    ensures
        recent(recent(tokens, limit), limit) == recent(tokens, limit),
{
}

/// Lists the n-grams of `tokens` in order. The window size `n` is one more
/// than the length of the contexts.
pub fn n_grams(tokens: Vec<String>, n: usize) -> (r: Vec<(Vec<String>, String)>)
    requires
        1 <= n <= tokens.len(),
    ensures
        r.deep_view() == windows(tokens.deep_view(), n as int),
{
    let ghost all = tokens.deep_view();
    let mut out: Vec<(Vec<String>, String)> = Vec::new();
    let last: usize = tokens.len() - n;
    let mut i: usize = 0;
    while i <= last
        invariant
            1 <= n <= tokens.len(),
            last == tokens.len() - n,
            i <= last + 1,
            all == tokens.deep_view(),
            out.len() == i,
            forall|k: int|
                0 <= k < i ==> (#[trigger] out[k]).0.deep_view() == all.subrange(k, k + n - 1)
                    && out[k].1@ == all[k + n - 1],
        decreases last + 1 - i,
    {
        let mut context: Vec<String> = Vec::new();
        let mut k: usize = 0;
        while k < n - 1
            invariant
                1 <= n <= tokens.len(),
                i <= tokens.len() - n,
                k <= n - 1,
                context.len() == k,
                forall|m: int| 0 <= m < k ==> (#[trigger] context[m])@ == tokens[i + m]@,
            decreases n - 1 - k,
        {
            context.push(tokens[i + k].clone());
            k += 1;
        }
        out.push((context, tokens[i + n - 1].clone()));
        i += 1;
    }
    out
}

/// Keeps the most recent `context` tokens of `tokens` and drops the older
/// ones.
pub fn cut(tokens: Vec<String>, context: usize) -> (r: Vec<String>)
    ensures
        r.deep_view() == recent(tokens.deep_view(), context as int),
{
    if tokens.len() <= context {
        tokens
    } else {
        let mut tokens = tokens;
        let at: usize = tokens.len() - context;
        tokens.split_off(at)
    }
}

} // verus!
