//! The model: a configuration and the frequency table that training fills.

use crate::backoff::resolve;
use crate::config::Config;
use crate::error::{LoadError, SaveError, TrainError};
use crate::json::{distinct_tokens, from_json, json_records, json_text, to_json};
use crate::ngram::{cut, n_grams, recent, windows};
use crate::persist::{has_zero, pairs_of, records_of, table_of};
use crate::prediction::{eligible, is_generation, is_prediction, lemma_eligible_recent};
use crate::random::draw;
use crate::rank::top_candidates;
use crate::table::{
    contexts_hold_tokens, copy_from, count_of, fits, table_wf, tallies_wf, RowView, Table, Tally,
};
use crate::text::EOS;
use crate::training::{
    corpus_sightings, lemma_corpus_sightings_prefix, lemma_fits_bounds, lemma_observe_all_count,
    contexts_have_len, lemma_sightings_prefix, lemma_train_corpus_count, lemma_train_corpus_len,
    lemma_train_corpus_tokens, long_enough, observe_all, sightings, train_corpus,
};
use vstd::prelude::*;

verus! {

/// An n-gram language model.
#[derive(Debug, Clone)]
pub struct Model {
    config: Config,
    table: Table,
}

impl View for Model {
    type V = Seq<RowView>;

    /// The frequency table of the model.
    closed spec fn view(&self) -> Seq<RowView> {
        self.table@
    }
}

/// The counts of a table in memory fit 32 bits.
pub proof fn lemma_table_fits(table: &Table)
    ensures
        fits(table@),
{
    assert forall|i: int, j: int|
        0 <= i < table@.len() && 0 <= j < table@[i].tallies.len() implies (
    #[trigger] table@[i].tallies[j]).count <= u32::MAX by {
        assert(table@[i].tallies[j] == table.rows[i].tallies[j]@);
    }
}

/// The token that a prediction returns for what the random choice gave: the
/// chosen token, or the end marker where nothing was chosen.
pub fn chosen_or_end(choice: Option<String>) -> (r: String)
    ensures
        r@ == match choice {
            Some(token) => token@,
            None => EOS@,
        },
{
    match choice {
        Some(token) => token,
        None => EOS.to_owned(),
    }
}

impl Model {
    /// The configuration of the model.
    pub closed spec fn config(&self) -> Config {
        self.config
    }

    /// The configuration and the table are well formed, the counts fit 32
    /// bits, and every stored context holds a token.
    pub open spec fn wf(&self) -> bool {
        &&& self.config().wf()
        &&& table_wf(self@)
        &&& fits(self@)
        &&& contexts_hold_tokens(self@)
    }

    /// Every stored context holds as many tokens as the configuration says.
    /// Training keeps this; a loaded document may hold contexts of other
    /// lengths, which backoff can then resolve to.
    pub open spec fn uniform(&self) -> bool {
        contexts_have_len(self@, self.config().context as int)
    }

    /// A model with the configuration `config` and an empty table.
    pub fn new(config: Config) -> (r: Model)
        requires
            config.wf(),
        ensures
            r.wf(),
            r.uniform(),
            r.config() == config,
            r@ == Seq::<RowView>::empty(),
    {
        Model { config, table: Table::new() }
    }

    /// The configuration of the model.
    pub fn configuration(&self) -> (r: Config)
        ensures
            r == self.config(),
    {
        self.config
    }

    /// The frequency table of the model.
    pub fn table(&self) -> (r: &Table)
        ensures
            r@ == self@,
    {
        &self.table
    }

    /// How often `token` was seen after `context`.
    pub fn count(&self, context: &Vec<String>, token: &String) -> (r: u32)
        ensures
            r == count_of(self@, context.deep_view(), token@),
    {
        self.table.count(context, token)
    }

    /// The tallies that `tokens` resolves to as a context: those stored for
    /// it, or, with backoff, for the longest of its shorter suffixes that has
    /// any.
    pub fn get(&self, tokens: Vec<String>) -> (r: Option<&Vec<Tally>>)
        ensures
            match r {
                Some(tallies) => resolve(self@, self.config().smoothing, tokens.deep_view())
                    == Some(tallies.deep_view()),
                None => resolve(self@, self.config().smoothing, tokens.deep_view()) is None,
            },
    {
        assert(tokens.deep_view().skip(0) == tokens.deep_view());
        match self.table.resolve(&tokens, 0, self.config.smoothing) {
            Some(i) => Some(&self.table.rows[i].tallies),
            None => None,
        }
    }

    /// Trains the model on `corpus`: every n-gram of every sequence is
    /// observed once, in order, on top of what the table holds. The sequences
    /// carry their markers already.
    ///
    /// Fails, and leaves the table as it was, where a sequence is shorter than
    /// one window or a count would not fit 32 bits. No count ever goes down.
    pub fn train(&mut self, corpus: Vec<Vec<String>>) -> (r: Result<(), TrainError>)
        requires
            old(self).wf(),
        ensures
            final(self).wf(),
            final(self).config() == old(self).config(),
            match r {
                Ok(_) => {
                    &&& long_enough(corpus.deep_view(), old(self).config().window())
                    &&& final(self)@ == train_corpus(
                        old(self)@,
                        corpus.deep_view(),
                        old(self).config().window(),
                    )
                },
                Err(TrainError::SequenceTooShort) => {
                    &&& !long_enough(corpus.deep_view(), old(self).config().window())
                    &&& final(self)@ == old(self)@
                },
                Err(TrainError::CountOverflow) => {
                    &&& long_enough(corpus.deep_view(), old(self).config().window())
                    &&& !fits(
                        train_corpus(old(self)@, corpus.deep_view(), old(self).config().window()),
                    )
                    &&& final(self)@ == old(self)@
                },
            },
            forall|context: Seq<Seq<char>>, token: Seq<char>|
                count_of(old(self)@, context, token) <= #[trigger] count_of(
                    final(self)@,
                    context,
                    token,
                ),
            old(self).uniform() ==> final(self).uniform(),
    {
        let ghost before = self@;
        let ghost all = corpus.deep_view();
        let window: usize = self.config.context + 1;
        let mut i: usize = 0;
        while i < corpus.len()
            invariant
                i <= corpus.len(),
                all == corpus.deep_view(),
                window == old(self).config().window(),
                forall|k: int| 0 <= k < i ==> (#[trigger] all[k]).len() >= window,
                *self == *old(self),
                self.wf(),
            decreases corpus.len() - i,
        {
            if corpus[i].len() < window {
                assert(all[i as int].len() < window);
                return Err(TrainError::SequenceTooShort);
            }
            i += 1;
        }
        let mut work = self.table.duplicate();
        let mut i: usize = 0;
        while i < corpus.len()
            invariant
                i <= corpus.len(),
                1 <= window,
                all == corpus.deep_view(),
                long_enough(all, window as int),
                window == old(self).config().window(),
                work.wf(),
                before == self@,
                work@ == train_corpus(before, all.take(i as int), window as int),
                *self == *old(self),
                self.wf(),
            decreases corpus.len() - i,
        {
            let ghost base = work@;
            assert(all[i as int].skip(0) == all[i as int]);
            let sequence = copy_from(&corpus[i], 0);
            let grams = n_grams(sequence, window);
            let ghost pairs = grams.deep_view();
            let mut j: usize = 0;
            while j < grams.len()
                invariant
                    j <= grams.len(),
                    i < corpus.len(),
                    all == corpus.deep_view(),
                    pairs == grams.deep_view(),
                    pairs == windows(all[i as int], window as int),
                    all.take(i + 1).drop_last() == all.take(i as int),
                    all.take(i + 1).last() == all[i as int],
                    work.wf(),
                    before == self@,
                    base == train_corpus(before, all.take(i as int), window as int),
                    work@ == observe_all(base, pairs.take(j as int)),
                    window == old(self).config().window(),
                    long_enough(all, window as int),
                    *self == *old(self),
                    self.wf(),
                decreases grams.len() - j,
            {
                let ghost context = pairs[j as int].0;
                let ghost token = pairs[j as int].1;
                assert(pairs.take(j + 1).drop_last() == pairs.take(j as int));
                if !work.observe(&grams[j].0, &grams[j].1) {
                    proof {
                        let total = train_corpus(before, all, window as int);
                        lemma_table_fits(&work);
                        lemma_fits_bounds(work@, context, token);
                        lemma_observe_all_count(base, pairs.take(j as int), context, token);
                        lemma_train_corpus_count(
                            before,
                            all.take(i as int),
                            window as int,
                            context,
                            token,
                        );
                        lemma_train_corpus_count(before, all, window as int, context, token);
                        lemma_sightings_prefix(pairs, j + 1, context, token);
                        lemma_corpus_sightings_prefix(all, i + 1, window as int, context, token);
                        assert(sightings(pairs.take(j + 1), context, token) == sightings(
                            pairs.take(j as int),
                            context,
                            token,
                        ) + 1);
                        assert(corpus_sightings(all.take(i + 1), window as int, context, token)
                            == corpus_sightings(all.take(i as int), window as int, context, token)
                            + sightings(pairs, context, token));
                        if fits(total) {
                            lemma_fits_bounds(total, context, token);
                        }
                    }
                    return Err(TrainError::CountOverflow);
                }
                j += 1;
            }
            assert(pairs.take(j as int) == pairs);
            i += 1;
        }
        assert(all.take(i as int) == all);
        proof {
            lemma_table_fits(&work);
            assert forall|context: Seq<Seq<char>>, token: Seq<char>|
                count_of(before, context, token) <= #[trigger] count_of(work@, context, token) by {
                lemma_train_corpus_count(before, all, window as int, context, token);
            }
            lemma_train_corpus_tokens(before, all, window as int);
            if contexts_have_len(before, window - 1) {
                lemma_train_corpus_len(before, all, window as int);
            }
        }
        self.table = work;
        Ok(())
    }

    /// Empties the table. The configuration stays.
    pub fn reset(&mut self)
        requires
            old(self).wf(),
        ensures
            final(self).wf(),
            final(self).uniform(),
            final(self).config() == old(self).config(),
            final(self)@ == Seq::<RowView>::empty(),
    {
        self.table = Table::new();
    }

    /// The tokens among which the prediction after `tokens` is drawn, best
    /// ranked first.
    pub fn candidates(&self, tokens: Vec<String>) -> (r: Vec<String>)
        requires
            self.wf(),
        ensures
            r.deep_view() == eligible(self@, self.config(), tokens.deep_view()),
    {
        let tokens = cut(tokens, self.config.context);
        match self.get(tokens) {
            Some(tallies) => top_candidates(
                tallies,
                self.config.sampling_num,
                self.config.sampling_den,
            ),
            None => {
                let r: Vec<String> = Vec::new();
                r
            },
        }
    }

    /// Predicts the token after `tokens`: one of the candidates, drawn at
    /// random, or the end marker where there is none.
    pub fn predict(&self, tokens: Vec<String>) -> (r: String)
        requires
            self.wf(),
        ensures
            is_prediction(self@, self.config(), tokens.deep_view(), r@),
    {
        let candidates = self.candidates(tokens);
        chosen_or_end(draw(&candidates))
    }

    /// Appends predictions to `tokens`, each made after all tokens in front of
    /// it, until the end marker was appended or `max` tokens were.
    pub fn generate(&self, tokens: &mut Vec<String>, max: u32)
        requires
            self.wf(),
        ensures
            is_generation(
                self@,
                self.config(),
                old(tokens).deep_view(),
                final(tokens).deep_view(),
                max as nat,
            ),
    {
        let ghost before = tokens.deep_view();
        let end = EOS.to_owned();
        let mut step: u32 = 0;
        while step < max
            invariant
                self.wf(),
                step <= max,
                end@ == EOS@,
                before == old(tokens).deep_view(),
                tokens.deep_view().len() == before.len() + step,
                tokens.deep_view().take(before.len() as int) == before,
                forall|p: int|
                    before.len() <= p < tokens.deep_view().len() ==> is_prediction(
                        self@,
                        self.config(),
                        tokens.deep_view().take(p),
                        #[trigger] tokens.deep_view()[p],
                    ),
                forall|p: int|
                    before.len() <= p < tokens.deep_view().len()
                        ==> #[trigger] tokens.deep_view()[p] != EOS@,
            decreases max - step,
        {
            let ghost seen = tokens.deep_view();
            let from: usize = if tokens.len() <= self.config.context {
                0
            } else {
                tokens.len() - self.config.context
            };
            let token = self.predict(copy_from(tokens, from));
            proof {
                assert(seen.skip(from as int) == recent(seen, self.config().context as int));
                lemma_eligible_recent(self@, self.config(), seen);
            }
            let stop = token == end;
            tokens.push(token);
            step += 1;
            proof {
                let now = tokens.deep_view();
                assert(now == seen.push(token@));
                assert(now.take(before.len() as int) == before);
                assert forall|p: int| before.len() <= p < now.len() implies is_prediction(
                    self@,
                    self.config(),
                    now.take(p),
                    #[trigger] now[p],
                ) by {
                    if p < seen.len() {
                        assert(now.take(p) == seen.take(p));
                    } else {
                        assert(now.take(p) == seen);
                    }
                }
            }
            if stop {
                return ;
            }
        }
    }

    /// The records that stand for the table: for each row, the context as one
    /// string and the tallies as pairs.
    pub fn records(&self) -> (r: Vec<(String, Vec<(String, u32)>)>)
        ensures
            r.deep_view() == records_of(self@),
    {
        self.table.records()
    }

    /// Replaces the table by the one that `records` stand for, unless one of
    /// their counts is zero; then the table stays as it was.
    pub fn restore(&mut self, records: &Vec<(String, Vec<(String, u32)>)>) -> (r: Result<
        (),
        LoadError,
    >)
        requires
            old(self).wf(),
        ensures
            final(self).wf(),
            final(self).config() == old(self).config(),
            match r {
                Ok(_) => !has_zero(records.deep_view()) && final(self)@ == table_of(
                    records.deep_view(),
                ),
                Err(LoadError::ZeroCount) => has_zero(records.deep_view()) && final(self)@ == old(
                    self,
                )@,
                Err(LoadError::Malformed) => false,
            },
    {
        match Table::from_records(records) {
            Ok(table) => {
                proof {
                    lemma_table_fits(&table);
                }
                self.table = table;
                Ok(())
            },
            Err(e) => Err(e),
        }
    }

    /// The table as the text of a document: the text that the serializer
    /// gives for the records of the table. Saving never fails.
    pub fn save(&self) -> (r: Result<String, SaveError>)
        requires
            self.wf(),
        ensures
            r is Ok,
            r matches Ok(text) ==> text@ == json_text(records_of(self@)),
    {
        let records = self.records();
        proof {
            assert forall|i: int| 0 <= i < records.len() implies distinct_tokens(
                #[trigger] records.deep_view()[i].1,
            ) by {
                assert(records.len() == records_of(self@).len());
                let ts = self@[i].tallies;
                assert(records_of(self@)[i].1 == pairs_of(ts));
                assert(tallies_wf(ts));
            }
        }
        saved_text(to_json(&records))
    }

    /// Replaces the table by the one that the document `text` stands for. The
    /// table stays as it was where `text` is no document or holds a count of
    /// zero.
    pub fn load(&mut self, text: &str) -> (r: Result<(), LoadError>)
        requires
            old(self).wf(),
        ensures
            final(self).wf(),
            final(self).config() == old(self).config(),
            match r {
                Ok(_) => {
                    &&& json_records(text@) matches Some(records)
                    &&& !has_zero(records)
                    &&& final(self)@ == table_of(records)
                },
                Err(LoadError::Malformed) => {
                    &&& json_records(text@) is None
                    &&& final(self)@ == old(self)@
                },
                Err(LoadError::ZeroCount) => {
                    &&& json_records(text@) matches Some(records)
                    &&& has_zero(records)
                    &&& final(self)@ == old(self)@
                },
            },
    {
        match from_json(text) {
            Ok(records) => self.restore(&records),
            Err(_) => Err(LoadError::Malformed),
        }
    }
}

/// What saving returns for what the serializer gave: the text of the
/// document, or `SaveError::Encoding` where the serializer reported an error.
pub fn saved_text(outcome: Result<String, serde_json::Error>) -> (r: Result<String, SaveError>)
    ensures
        match outcome {
            Ok(text) => r == Ok::<String, SaveError>(text),
            Err(_) => r == Err::<String, SaveError>(SaveError::Encoding),
        },
{
    match outcome {
        Ok(text) => Ok(text),
        Err(_) => Err(SaveError::Encoding),
    }
}

} // verus!
