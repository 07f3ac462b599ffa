//! Laws of the model, stated over the tables and sequences that the
//! contracts of the library speak of.

use crate::backoff::{lemma_resolve_empty, lemma_resolve_suffix, resolve};
use crate::codec::{split, SPLIT_TOKEN};
use crate::config::Config;
use crate::model::Model;
use crate::ngram::{recent, windows};
use crate::persist::{
    delimiter_free, document_count, has_zero, lemma_listed_once, lemma_recorded_once,
    lemma_records_round_trip, lemma_table_of_count, records_of, table_of,
};
use crate::prediction::{eligible, is_generation, is_prediction};
use crate::rank::{
    candidates, is_ranking, lemma_candidates, lemma_ranking, lemma_ranking_unique, ranking,
};
use crate::table::{
    context_index, contexts_hold_tokens, count_of, fits, has_token, lookup, row_at, table_wf,
    tallies_wf, tally_at, token_index, RowView, TallyView,
};
use crate::text::EOS;
use crate::training::{
    contexts_have_len, corpus_sightings, lemma_corpus_sightings_prefix, lemma_sightings_prefix,
    lemma_train_corpus_count, lemma_train_corpus_len, lemma_train_corpus_wf, long_enough,
    train_corpus,
};
use vstd::prelude::*;

verus! {

/// Training adds to every count the number of times its token follows its
/// context in the corpus, so no count goes down, however often the model is
/// trained.
pub proof fn training_adds_sightings(
    t: Seq<RowView>,
    corpus: Seq<Seq<Seq<char>>>,
    window: int,
    context: Seq<Seq<char>>,
    token: Seq<char>,
)
    ensures
        count_of(train_corpus(t, corpus, window), context, token) == count_of(t, context, token)
            + corpus_sightings(corpus, window, context, token),
        count_of(train_corpus(t, corpus, window), context, token) >= count_of(t, context, token),
{
    lemma_train_corpus_count(t, corpus, window, context, token);
}

/// Training on one corpus and then on another counts what training on both
/// in a row counts: the second training builds on the first.
pub proof fn training_accumulates(
    t: Seq<RowView>,
    first: Seq<Seq<Seq<char>>>,
    second: Seq<Seq<Seq<char>>>,
    window: int,
)
    ensures
        train_corpus(train_corpus(t, first, window), second, window) == train_corpus(
            t,
            first + second,
            window,
        ),
    decreases second.len(),
{
    if second.len() == 0 {
        assert(first + second == first);
    } else {
        training_accumulates(t, first, second.drop_last(), window);
        assert((first + second).drop_last() == first + second.drop_last());
        assert((first + second).last() == second.last());
    }
}

/// A count that a well-formed table stores is at least 1.
pub proof fn stored_counts_are_positive(t: Seq<RowView>, context: Seq<Seq<char>>, token: Seq<char>)
    requires
        table_wf(t),
        lookup(t, context) matches Some(ts) && has_token(ts, token),
    ensures
        count_of(t, context, token) >= 1,
{
    let i = context_index(t, context);
    assert(row_at(t, context, i));
    assert(tallies_wf(t[i].tallies));
    let j = token_index(t[i].tallies, token);
    assert(tally_at(t[i].tallies, token, j));
    assert(t[i].tallies[j].count >= 1);
}

/// After training, every pair of a context and the token behind it that
/// stands in the corpus has a count of at least 1.
pub proof fn trained_pairs_are_counted(
    t: Seq<RowView>,
    corpus: Seq<Seq<Seq<char>>>,
    window: int,
    i: int,
    p: int,
)
    requires
        0 <= i < corpus.len(),
        1 <= window <= corpus[i].len(),
        0 <= p <= corpus[i].len() - window,
    ensures
        count_of(
            train_corpus(t, corpus, window),
            corpus[i].subrange(p, p + window - 1),
            corpus[i][p + window - 1],
        ) >= 1,
{
    let context = corpus[i].subrange(p, p + window - 1);
    let token = corpus[i][p + window - 1];
    let grams = windows(corpus[i], window);
    lemma_train_corpus_count(t, corpus, window, context, token);
    lemma_corpus_sightings_prefix(corpus, i + 1, window, context, token);
    assert(corpus.take(i + 1).last() == corpus[i]);
    lemma_sightings_prefix(grams, p + 1, context, token);
    assert(grams.take(p + 1).last() == (context, token));
}

/// The records of a table without rows stand for a table without rows: an
/// emptied model is saved and loaded as an empty one.
pub proof fn empty_table_round_trips()
    ensures
        records_of(Seq::<RowView>::empty()) == Seq::<(Seq<char>, Seq<(Seq<char>, u32)>)>::empty(),
        !has_zero(records_of(Seq::<RowView>::empty())),
        table_of(records_of(Seq::<RowView>::empty())) == Seq::<RowView>::empty(),
{
    lemma_records_round_trip(Seq::<RowView>::empty());
}

/// Loading the records that a table was saved as gives the table back: the
/// same contexts with the same counts in the same order. This holds of
/// well-formed tables whose counts fit 32 bits, whose contexts are not empty
/// and whose tokens do not hold the delimiter.
pub proof fn records_round_trip(t: Seq<RowView>)
    requires
        table_wf(t),
        fits(t),
        contexts_hold_tokens(t),
        delimiter_free(t),
    ensures
        !has_zero(records_of(t)),
        table_of(records_of(t)) == t,
{
    lemma_records_round_trip(t);
}

/// The records of a well-formed model stand for its table, where the
/// delimiter stands in none of its tokens: restoring what `records` gave
/// brings back the same contexts with the same counts in the same order.
pub proof fn model_round_trips(model: Model)
    requires
        model.wf(),
        delimiter_free(model@),
    ensures
        !has_zero(records_of(model@)),
        table_of(records_of(model@)) == model@,
{
    lemma_records_round_trip(model@);
}

/// An untrained model predicts the end marker and nothing else, whatever the
/// tokens and the configuration.
pub proof fn untrained_model_predicts_end(
    config: Config,
    tokens: Seq<Seq<char>>,
    token: Seq<char>,
)
    ensures
        is_prediction(Seq::<RowView>::empty(), config, tokens, token) <==> token == EOS@,
{
    lemma_resolve_empty(config.smoothing, recent(tokens, config.context as int));
}

/// Without backoff, a context that has no row of its own predicts the end
/// marker and nothing else, whatever rows its shorter suffixes have.
pub proof fn unseen_context_predicts_end_without_backoff(
    t: Seq<RowView>,
    config: Config,
    tokens: Seq<Seq<char>>,
    token: Seq<char>,
)
    requires
        !config.smoothing,
        lookup(t, recent(tokens, config.context as int)) is None,
    ensures
        is_prediction(t, config, tokens, token) <==> token == EOS@,
{
}

/// With backoff, a context that has no row of its own predicts from the
/// tallies of its longest suffix that has one: the eligible tokens are the
/// candidates of those tallies, and every prediction is a token of them.
pub proof fn backoff_predicts_from_longest_seen_suffix(
    t: Seq<RowView>,
    config: Config,
    tokens: Seq<Seq<char>>,
    k: int,
    ts: Seq<TallyView>,
    token: Seq<char>,
)
    requires
        config.smoothing,
        0 < k <= recent(tokens, config.context as int).len(),
        forall|j: int|
            0 <= j < k ==> lookup(t, #[trigger] recent(tokens, config.context as int).skip(j))
                is None,
        lookup(t, recent(tokens, config.context as int).skip(k)) == Some(ts),
        ts.len() > 0,
        is_prediction(t, config, tokens, token),
    ensures
        eligible(t, config, tokens) == candidates(
            ts,
            config.sampling_num as nat,
            config.sampling_den as nat,
        ),
        exists|j: int| 0 <= j < ts.len() && (#[trigger] ts[j]).token == token,
{
    let context = recent(tokens, config.context as int);
    lemma_resolve_suffix(t, context, k);
    lemma_candidates(ts, config.sampling_num as nat, config.sampling_den as nat);
    let c = candidates(ts, config.sampling_num as nat, config.sampling_den as nat);
    assert(eligible(t, config, tokens) == c);
    let p = choose|p: int| 0 <= p < c.len() && c[p] == token;
    assert(0 <= p < c.len() && c[p] == token);
}

/// A generation appends at most as many tokens as it has steps, and stops
/// with the first end marker that it appends.
pub proof fn generation_stops_at_end_marker(
    t: Seq<RowView>,
    config: Config,
    before: Seq<Seq<char>>,
    after: Seq<Seq<char>>,
    max: nat,
)
    requires
        is_generation(t, config, before, after, max),
    ensures
        after.len() - before.len() <= max,
        forall|p: int| before.len() <= p < after.len() && after[p] == EOS@ ==> p == after.len() - 1,
        after.len() - before.len() < max ==> after.last() == EOS@,
{
}

/// Training keeps a well-formed table well formed: no context gets two rows,
/// no token two tallies, and no count falls below 1.
pub proof fn training_keeps_tables_well_formed(
    t: Seq<RowView>,
    corpus: Seq<Seq<Seq<char>>>,
    window: int,
)
    requires
        table_wf(t),
    ensures
        table_wf(train_corpus(t, corpus, window)),
{
    lemma_train_corpus_wf(t, corpus, window);
}

/// Training stores contexts of the configured size only: a table whose
/// contexts all hold one token less than a window keeps that under training
/// on sequences of at least one window each.
pub proof fn training_stores_full_contexts(
    t: Seq<RowView>,
    corpus: Seq<Seq<Seq<char>>>,
    window: int,
)
    requires
        window >= 1,
        contexts_have_len(t, window - 1),
        long_enough(corpus, window),
    ensures
        contexts_have_len(train_corpus(t, corpus, window), window - 1),
{
    lemma_train_corpus_len(t, corpus, window);
}

/// Where the tokens resolve to a single continuation, that continuation is
/// the prediction, whatever the random draw.
pub proof fn single_continuation_is_certain(
    t: Seq<RowView>,
    config: Config,
    tokens: Seq<Seq<char>>,
    ts: Seq<TallyView>,
    token: Seq<char>,
)
    requires
        config.wf(),
        resolve(t, config.smoothing, recent(tokens, config.context as int)) == Some(ts),
        ts.len() == 1,
        is_prediction(t, config, tokens, token),
    ensures
        token == ts[0].token,
{
    let num = config.sampling_num as nat;
    let den = config.sampling_den as nat;
    lemma_ranking(ts);
    let c = candidates(ts, num, den);
    assert(c.len() == 1);
    assert(ranking(ts)[0] == 0);
    assert(c[0] == ts[0].token);
    let p = choose|p: int| 0 <= p < c.len() && c[p] == token;
    assert(0 <= p < c.len() && c[p] == token);
}

/// Loading counts each pair as the document lists it: a table that records
/// stand for gives a token after a context the count of the last pair with
/// that token in the last record of that context, and 0 where there is none.
pub proof fn loaded_counts_are_listed_counts(
    records: Seq<(Seq<char>, Seq<(Seq<char>, u32)>)>,
    context: Seq<Seq<char>>,
    token: Seq<char>,
)
    ensures
        count_of(table_of(records), context, token) == document_count(records, context, token),
{
    lemma_table_of_count(records, context, token);
}

/// In a document that encodes no context twice and lists no token twice in a
/// record, every listed count is loaded, in whatever order the records and
/// their pairs stand.
pub proof fn listed_counts_are_loaded(
    records: Seq<(Seq<char>, Seq<(Seq<char>, u32)>)>,
    i: int,
    j: int,
)
    requires
        0 <= i < records.len(),
        0 <= j < records[i].1.len(),
        forall|k: int|
            0 <= k < records.len() && k != i ==> split((#[trigger] records[k]).0, SPLIT_TOKEN@)
                != split(records[i].0, SPLIT_TOKEN@),
        forall|k: int|
            0 <= k < records[i].1.len() && k != j ==> (#[trigger] records[i].1[k]).0
                != records[i].1[j].0,
    ensures
        count_of(table_of(records), split(records[i].0, SPLIT_TOKEN@), records[i].1[j].0)
            == records[i].1[j].1,
{
    let context = split(records[i].0, SPLIT_TOKEN@);
    let token = records[i].1[j].0;
    lemma_table_of_count(records, context, token);
    lemma_recorded_once(records, i, token);
    lemma_listed_once(records[i].1, j);
}

/// The ranking is the one order of the tallies by count, largest first, in
/// which tallies of equal counts stand as they were first seen: it is such an
/// order, and every such order is the ranking.
pub proof fn ranking_is_the_stable_order_by_count(ts: Seq<TallyView>, order: Seq<int>)
    ensures
        is_ranking(ts, ranking(ts)),
        is_ranking(ts, order) ==> order == ranking(ts),
{
    lemma_ranking(ts);
    if is_ranking(ts, order) {
        lemma_ranking_unique(ts, order);
    }
}

} // verus!
