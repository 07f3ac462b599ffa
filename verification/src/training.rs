//! What training does to a frequency table: every n-gram of every sequence of
//! the corpus is observed once, in order.

use crate::ngram::windows;
use crate::table::{
    bump, context_index, contexts_hold_tokens, count_of, fits, has_context, has_token,
    lemma_observe_count, lemma_observe_wf, lemma_put_row_contexts, observe, row_at, table_wf,
    tallies_after, tally_at, token_index, RowView,
};
use vstd::prelude::*;

verus! {

/// `t` after the n-grams of `grams` were observed, first to last.
pub open spec fn observe_all(t: Seq<RowView>, grams: Seq<(Seq<Seq<char>>, Seq<char>)>) -> Seq<
    RowView,
>
    decreases grams.len(),
{
    if grams.len() == 0 {
        t
    } else {
        let g = grams.last();
        observe(observe_all(t, grams.drop_last()), g.0, g.1)
    }
}

/// `t` after training on the sequences of `corpus`, first to last, with the
/// window size `window`.
pub open spec fn train_corpus(t: Seq<RowView>, corpus: Seq<Seq<Seq<char>>>, window: int) -> Seq<
    RowView,
>
    decreases corpus.len(),
{
    if corpus.len() == 0 {
        t
    } else {
        observe_all(train_corpus(t, corpus.drop_last(), window), windows(corpus.last(), window))
    }
}

/// Every sequence of `corpus` holds at least one window.
pub open spec fn long_enough(corpus: Seq<Seq<Seq<char>>>, window: int) -> bool {
    forall|i: int| 0 <= i < corpus.len() ==> (#[trigger] corpus[i]).len() >= window
}

/// How many of `grams` are the pair of `context` and `token`.
pub open spec fn sightings(
    grams: Seq<(Seq<Seq<char>>, Seq<char>)>,
    context: Seq<Seq<char>>,
    token: Seq<char>,
) -> nat
    decreases grams.len(),
{
    if grams.len() == 0 {
        0
    } else {
        sightings(grams.drop_last(), context, token) + if grams.last() == (context, token) {
            1nat
        } else {
            0nat
        }
    }
}

/// How often `token` follows `context` in the sequences of `corpus`, read in
/// windows of `window` tokens.
pub open spec fn corpus_sightings(
    corpus: Seq<Seq<Seq<char>>>,
    window: int,
    context: Seq<Seq<char>>,
    token: Seq<char>,
) -> nat
    decreases corpus.len(),
{
    if corpus.len() == 0 {
        0
    } else {
        corpus_sightings(corpus.drop_last(), window, context, token) + sightings(
            windows(corpus.last(), window),
            context,
            token,
        )
    }
}

/// Observing n-grams keeps a table well formed.
pub proof fn lemma_observe_all_wf(t: Seq<RowView>, grams: Seq<(Seq<Seq<char>>, Seq<char>)>)
    requires
        table_wf(t),
    ensures
        table_wf(observe_all(t, grams)),
    decreases grams.len(),
{
    if grams.len() > 0 {
        lemma_observe_all_wf(t, grams.drop_last());
        lemma_observe_wf(observe_all(t, grams.drop_last()), grams.last().0, grams.last().1);
    }
}

/// Training keeps a table well formed.
pub proof fn lemma_train_corpus_wf(t: Seq<RowView>, corpus: Seq<Seq<Seq<char>>>, window: int)
    requires
        table_wf(t),
    ensures
        table_wf(train_corpus(t, corpus, window)),
    decreases corpus.len(),
{
    if corpus.len() > 0 {
        lemma_train_corpus_wf(t, corpus.drop_last(), window);
        lemma_observe_all_wf(
            train_corpus(t, corpus.drop_last(), window),
            windows(corpus.last(), window),
        );
    }
}

/// After n-grams were observed, each count is what it was plus the number of
/// sightings of its pair.
pub proof fn lemma_observe_all_count(
    t: Seq<RowView>,
    grams: Seq<(Seq<Seq<char>>, Seq<char>)>,
    context: Seq<Seq<char>>,
    token: Seq<char>,
)
    ensures
        count_of(observe_all(t, grams), context, token) == count_of(t, context, token) + sightings(
            grams,
            context,
            token,
        ),
    decreases grams.len(),
{
    if grams.len() > 0 {
        let g = grams.last();
        lemma_observe_all_count(t, grams.drop_last(), context, token);
        lemma_observe_count(observe_all(t, grams.drop_last()), g.0, g.1, context, token);
    }
}

/// After training, each count is what it was plus the number of times its
/// token follows its context in the corpus.
pub proof fn lemma_train_corpus_count(
    t: Seq<RowView>,
    corpus: Seq<Seq<Seq<char>>>,
    window: int,
    context: Seq<Seq<char>>,
    token: Seq<char>,
)
    ensures
        count_of(train_corpus(t, corpus, window), context, token) == count_of(t, context, token)
            + corpus_sightings(corpus, window, context, token),
    decreases corpus.len(),
{
    if corpus.len() > 0 {
        lemma_train_corpus_count(t, corpus.drop_last(), window, context, token);
        lemma_observe_all_count(
            train_corpus(t, corpus.drop_last(), window),
            windows(corpus.last(), window),
            context,
            token,
        );
    }
}

/// A part of the n-grams holds no more sightings than all of them.
pub proof fn lemma_sightings_prefix(
    grams: Seq<(Seq<Seq<char>>, Seq<char>)>,
    j: int,
    context: Seq<Seq<char>>,
    token: Seq<char>,
)
    requires
        0 <= j <= grams.len(),
    ensures
        sightings(grams.take(j), context, token) <= sightings(grams, context, token),
    decreases grams.len(),
{
    if j == grams.len() {
        assert(grams.take(j) == grams);
    } else {
        assert(grams.take(j) == grams.drop_last().take(j));
        lemma_sightings_prefix(grams.drop_last(), j, context, token);
    }
}

/// A part of the corpus holds no more sightings than all of it.
pub proof fn lemma_corpus_sightings_prefix(
    corpus: Seq<Seq<Seq<char>>>,
    i: int,
    window: int,
    context: Seq<Seq<char>>,
    token: Seq<char>,
)
    requires
        0 <= i <= corpus.len(),
    ensures
        corpus_sightings(corpus.take(i), window, context, token) <= corpus_sightings(
            corpus,
            window,
            context,
            token,
        ),
    decreases corpus.len(),
{
    if i == corpus.len() {
        assert(corpus.take(i) == corpus);
    } else {
        assert(corpus.take(i) == corpus.drop_last().take(i));
        lemma_corpus_sightings_prefix(corpus.drop_last(), i, window, context, token);
    }
}

/// In a table whose counts fit 32 bits, no count of a pair is larger.
pub proof fn lemma_fits_bounds(t: Seq<RowView>, context: Seq<Seq<char>>, token: Seq<char>)
    requires
        fits(t),
    ensures
        count_of(t, context, token) <= u32::MAX,
{
    if has_context(t, context) {
        let i = context_index(t, context);
        assert(row_at(t, context, i));
        if has_token(t[i].tallies, token) {
            let j = token_index(t[i].tallies, token);
            assert(tally_at(t[i].tallies, token, j));
            assert(t[i].tallies[j].count <= u32::MAX);
        }
    }
}

/// Every context of `t` holds `n` tokens.
pub open spec fn contexts_have_len(t: Seq<RowView>, n: int) -> bool {
    forall|i: int| 0 <= i < t.len() ==> (#[trigger] t[i]).context.len() == n
}

/// Observing n-grams whose contexts hold `n` tokens keeps a table whose
/// contexts all do.
pub proof fn lemma_observe_all_len(
    t: Seq<RowView>,
    grams: Seq<(Seq<Seq<char>>, Seq<char>)>,
    n: int,
)
    requires
        contexts_have_len(t, n),
        forall|g: int| 0 <= g < grams.len() ==> (#[trigger] grams[g]).0.len() == n,
    ensures
        contexts_have_len(observe_all(t, grams), n),
    decreases grams.len(),
{
    if grams.len() > 0 {
        let front = grams.drop_last();
        assert forall|g: int| 0 <= g < front.len() implies (#[trigger] front[g]).0.len() == n by {
            assert(front[g] == grams[g]);
        }
        lemma_observe_all_len(t, front, n);
        let before = observe_all(t, front);
        let last = grams[grams.len() - 1];
        let after = observe(before, last.0, last.1);
        lemma_put_row_contexts(before, last.0, bump(tallies_after(before, last.0), last.1));
        assert forall|i: int| 0 <= i < after.len() implies (#[trigger] after[i]).context.len()
            == n by {
            if i < before.len() {
                assert(before[i].context.len() == n);
            }
        }
    }
}

/// Observing n-grams whose contexts hold a token keeps a table whose contexts
/// all do.
pub proof fn lemma_observe_all_tokens(t: Seq<RowView>, grams: Seq<(Seq<Seq<char>>, Seq<char>)>)
    requires
        contexts_hold_tokens(t),
        forall|g: int| 0 <= g < grams.len() ==> (#[trigger] grams[g]).0.len() >= 1,
    ensures
        contexts_hold_tokens(observe_all(t, grams)),
    decreases grams.len(),
{
    if grams.len() > 0 {
        let front = grams.drop_last();
        assert forall|g: int| 0 <= g < front.len() implies (#[trigger] front[g]).0.len() >= 1 by {
            assert(front[g] == grams[g]);
        }
        lemma_observe_all_tokens(t, front);
        let before = observe_all(t, front);
        let last = grams[grams.len() - 1];
        let after = observe(before, last.0, last.1);
        lemma_put_row_contexts(before, last.0, bump(tallies_after(before, last.0), last.1));
        assert forall|i: int| 0 <= i < after.len() implies (#[trigger] after[i]).context.len()
            >= 1 by {
            if i < before.len() {
                assert(before[i].context.len() >= 1);
            }
        }
    }
}

/// Training with windows of at least two tokens keeps a table whose contexts
/// all hold a token.
pub proof fn lemma_train_corpus_tokens(t: Seq<RowView>, corpus: Seq<Seq<Seq<char>>>, window: int)
    requires
        window >= 2,
        contexts_hold_tokens(t),
        long_enough(corpus, window),
    ensures
        contexts_hold_tokens(train_corpus(t, corpus, window)),
    decreases corpus.len(),
{
    if corpus.len() > 0 {
        let front = corpus.drop_last();
        assert forall|i: int| 0 <= i < front.len() implies (#[trigger] front[i]).len()
            >= window by {
            assert(front[i] == corpus[i]);
        }
        lemma_train_corpus_tokens(t, front, window);
        assert(corpus[corpus.len() - 1].len() >= window);
        lemma_observe_all_tokens(train_corpus(t, front, window), windows(corpus.last(), window));
    }
}

/// Training with windows of `window` tokens keeps a table whose contexts all
/// hold one token less than a window.
pub proof fn lemma_train_corpus_len(t: Seq<RowView>, corpus: Seq<Seq<Seq<char>>>, window: int)
    requires
        window >= 1,
        contexts_have_len(t, window - 1),
        long_enough(corpus, window),
    ensures
        contexts_have_len(train_corpus(t, corpus, window), window - 1),
    decreases corpus.len(),
{
    if corpus.len() > 0 {
        let front = corpus.drop_last();
        assert forall|i: int| 0 <= i < front.len() implies (#[trigger] front[i]).len()
            >= window by {
            assert(front[i] == corpus[i]);
        }
        lemma_train_corpus_len(t, front, window);
        assert(corpus[corpus.len() - 1].len() >= window);
        lemma_observe_all_len(
            train_corpus(t, front, window),
            windows(corpus.last(), window),
            window - 1,
        );
    }
}

} // verus!
