//! Tables as records: one record for each row, with the context encoded as a
//! single string and the tallies as pairs of a token and its count.

use crate::codec::{
    contains, decode_context, encode_context, join, lemma_split_has_parts, lemma_split_join,
    lemma_split_token, split, SPLIT_TOKEN,
};
use crate::error::LoadError;
use crate::table::{
    contexts_hold_tokens, count_of, find_tally, fits, lemma_context_absent, lemma_context_index,
    lemma_put_row_contexts, lemma_put_row_count, lemma_put_row_wf, lemma_put_tally_count,
    lemma_put_tally_wf, lemma_token_absent, lemma_token_index, put_row, put_tally, table_wf,
    tallies_wf, tally_count, Row, RowView, Table, Tally, TallyView,
};
use vstd::prelude::*;

verus! {

/// The tallies that `pairs` stand for. Where a token comes twice, its last
/// count stands.
pub open spec fn tallies_of(pairs: Seq<(Seq<char>, u32)>) -> Seq<TallyView>
    decreases pairs.len(),
{
    if pairs.len() == 0 {
        Seq::empty()
    } else {
        put_tally(tallies_of(pairs.drop_last()), pairs.last().0, pairs.last().1 as nat)
    }
}

/// The table that `records` stand for. Where a context comes twice, its last
/// record stands.
pub open spec fn table_of(records: Seq<(Seq<char>, Seq<(Seq<char>, u32)>)>) -> Seq<RowView>
    decreases records.len(),
{
    if records.len() == 0 {
        Seq::empty()
    } else {
        put_row(
            table_of(records.drop_last()),
            split(records.last().0, SPLIT_TOKEN@),
            tallies_of(records.last().1),
        )
    }
}

/// The pairs that stand for `ts`.
pub open spec fn pairs_of(ts: Seq<TallyView>) -> Seq<(Seq<char>, u32)> {
    Seq::new(ts.len(), |j: int| (ts[j].token, ts[j].count as u32))
}

/// The records that stand for `t`, row by row.
pub open spec fn records_of(t: Seq<RowView>) -> Seq<(Seq<char>, Seq<(Seq<char>, u32)>)> {
    Seq::new(t.len(), |i: int| (join(t[i].context, SPLIT_TOKEN@), pairs_of(t[i].tallies)))
}

/// Whether a count of `pairs` is zero.
pub open spec fn has_zero_pair(pairs: Seq<(Seq<char>, u32)>) -> bool {
    exists|j: int| 0 <= j < pairs.len() && (#[trigger] pairs[j]).1 == 0
}

/// Whether a count of `records` is zero.
pub open spec fn has_zero(records: Seq<(Seq<char>, Seq<(Seq<char>, u32)>)>) -> bool {
    exists|i: int| 0 <= i < records.len() && has_zero_pair((#[trigger] records[i]).1)
}

/// The delimiter stands in no token of a context of `t`.
pub open spec fn delimiter_free(t: Seq<RowView>) -> bool {
    forall|i: int, k: int|
        0 <= i < t.len() && 0 <= k < t[i].context.len() ==> !contains(
            #[trigger] t[i].context[k],
            SPLIT_TOKEN@,
        )
}

/// Pairs without a zero count stand for a well-formed row.
pub proof fn lemma_tallies_of_wf(pairs: Seq<(Seq<char>, u32)>)
    requires
        !has_zero_pair(pairs),
    ensures
        tallies_wf(tallies_of(pairs)),
    decreases pairs.len(),
{
    if pairs.len() > 0 {
        let front = pairs.drop_last();
        assert forall|j: int| 0 <= j < front.len() implies (#[trigger] front[j]).1 != 0 by {
            assert(front[j] == pairs[j]);
        }
        lemma_tallies_of_wf(front);
        assert(pairs[pairs.len() - 1].1 != 0);
        lemma_put_tally_wf(tallies_of(front), pairs.last().0, pairs.last().1 as nat);
    }
}

/// The pairs of a well-formed row whose counts fit 32 bits stand for that
/// row.
pub proof fn lemma_tallies_round_trip(ts: Seq<TallyView>)
    requires
        tallies_wf(ts),
        forall|j: int| 0 <= j < ts.len() ==> (#[trigger] ts[j]).count <= u32::MAX,
    ensures
        tallies_of(pairs_of(ts)) == ts,
        !has_zero_pair(pairs_of(ts)),
    decreases ts.len(),
{
    let pairs = pairs_of(ts);
    assert forall|j: int| 0 <= j < pairs.len() implies (#[trigger] pairs[j]).1 != 0 by {
        assert(ts[j].count >= 1);
    }
    if ts.len() > 0 {
        let front = ts.drop_last();
        assert(pairs.drop_last() == pairs_of(front));
        assert forall|j: int| 0 <= j < front.len() implies (#[trigger] front[j]).count >= 1
            && front[j].count <= u32::MAX by {
            assert(front[j] == ts[j]);
        }
        assert(tallies_wf(front)) by {
            assert forall|a: int, b: int| 0 <= a < b < front.len() implies (#[trigger] front[a]).token
                != (#[trigger] front[b]).token by {
                assert(ts[a].token != ts[b].token);
            }
        }
        lemma_tallies_round_trip(front);
        let last = ts.last();
        assert forall|k: int| 0 <= k < front.len() implies (#[trigger] front[k]).token
            != last.token by {
            assert(ts[k].token != ts[ts.len() - 1].token);
        }
        lemma_token_absent(front, last.token);
        assert(pairs.last() == (last.token, last.count as u32));
        assert(front.push(TallyView { token: last.token, count: last.count }) == ts);
    }
}

/// The records of a well-formed table stand for that table, where its counts
/// fit 32 bits, each of its contexts holds a token, and the delimiter stands
/// in none of their tokens.
pub proof fn lemma_records_round_trip(t: Seq<RowView>)
    requires
        table_wf(t),
        fits(t),
        contexts_hold_tokens(t),
        delimiter_free(t),
    ensures
        table_of(records_of(t)) == t,
        !has_zero(records_of(t)),
    decreases t.len(),
{
    let records = records_of(t);
    assert forall|i: int| 0 <= i < records.len() implies !has_zero_pair(
        (#[trigger] records[i]).1,
    ) by {
        assert(tallies_wf(t[i].tallies));
        assert forall|j: int| 0 <= j < t[i].tallies.len() implies (#[trigger] t[i].tallies[j]).count
            <= u32::MAX by {}
        lemma_tallies_round_trip(t[i].tallies);
    }
    if t.len() > 0 {
        let front = t.drop_last();
        let last = t.last();
        let n = t.len() - 1;
        assert(records.drop_last() == records_of(front));
        assert forall|i: int| 0 <= i < front.len() implies #[trigger] front[i] == t[i] by {}
        assert(table_wf(front)) by {
            assert forall|i: int| 0 <= i < front.len() implies tallies_wf(
                (#[trigger] front[i]).tallies,
            ) by {
                assert(tallies_wf(t[i].tallies));
            }
            assert forall|a: int, b: int| 0 <= a < b < front.len() implies (#[trigger] front[a]).context
                != (#[trigger] front[b]).context by {
                assert(t[a].context != t[b].context);
            }
        }
        assert(fits(front)) by {
            assert forall|i: int, j: int|
                0 <= i < front.len() && 0 <= j < front[i].tallies.len() implies (
            #[trigger] front[i].tallies[j]).count <= u32::MAX by {
                assert(t[i].tallies[j].count <= u32::MAX);
            }
        }
        assert(contexts_hold_tokens(front)) by {
            assert forall|i: int| 0 <= i < front.len() implies (#[trigger] front[i]).context.len()
                >= 1 by {
                assert(t[i].context.len() >= 1);
            }
        }
        assert(delimiter_free(front)) by {
            assert forall|i: int, k: int|
                0 <= i < front.len() && 0 <= k < front[i].context.len() implies !contains(
                #[trigger] front[i].context[k],
                SPLIT_TOKEN@,
            ) by {
                assert(!contains(t[i].context[k], SPLIT_TOKEN@));
            }
        }
        lemma_records_round_trip(front);
        assert(t[n].context.len() >= 1);
        assert forall|k: int| 0 <= k < last.context.len() implies !contains(
            #[trigger] last.context[k],
            SPLIT_TOKEN@,
        ) by {
            assert(!contains(t[n].context[k], SPLIT_TOKEN@));
        }
        lemma_split_token();
        lemma_split_join(last.context, SPLIT_TOKEN@);
        assert(tallies_wf(t[n].tallies));
        assert forall|j: int| 0 <= j < last.tallies.len() implies (#[trigger] last.tallies[j]).count
            <= u32::MAX by {
            assert(t[n].tallies[j].count <= u32::MAX);
        }
        lemma_tallies_round_trip(last.tallies);
        assert forall|k: int| 0 <= k < front.len() implies (#[trigger] front[k]).context
            != last.context by {
            assert(t[k].context != t[n].context);
        }
        lemma_context_absent(front, last.context);
        assert(records.last() == (join(last.context, SPLIT_TOKEN@), pairs_of(last.tallies)));
        assert(front.push(RowView { context: last.context, tallies: last.tallies }) == t);
    }
}

/// Every context of a table that records stand for holds a token: a key has
/// at least one part.
pub proof fn lemma_table_of_contexts(records: Seq<(Seq<char>, Seq<(Seq<char>, u32)>)>)
    ensures
        contexts_hold_tokens(table_of(records)),
    decreases records.len(),
{
    if records.len() > 0 {
        let before = table_of(records.drop_last());
        let context = split(records.last().0, SPLIT_TOKEN@);
        let tallies = tallies_of(records.last().1);
        lemma_table_of_contexts(records.drop_last());
        lemma_split_has_parts(records.last().0, SPLIT_TOKEN@);
        lemma_put_row_contexts(before, context, tallies);
        let after = put_row(before, context, tallies);
        assert forall|i: int| 0 <= i < after.len() implies (#[trigger] after[i]).context.len()
            >= 1 by {
            if i < before.len() {
                assert(before[i].context.len() >= 1);
            }
        }
    }
}

/// The count that `pairs` give `token`: that of the last pair with the token,
/// and 0 where no pair holds it.
pub open spec fn listed_count(pairs: Seq<(Seq<char>, u32)>, token: Seq<char>) -> nat
    decreases pairs.len(),
{
    if pairs.len() == 0 {
        0
    } else if pairs.last().0 == token {
        pairs.last().1 as nat
    } else {
        listed_count(pairs.drop_last(), token)
    }
}

/// The count that `records` give `token` after `context`: what the last
/// record of the context lists for the token, and 0 where the context has no
/// record.
pub open spec fn document_count(
    records: Seq<(Seq<char>, Seq<(Seq<char>, u32)>)>,
    context: Seq<Seq<char>>,
    token: Seq<char>,
) -> nat
    decreases records.len(),
{
    if records.len() == 0 {
        0
    } else if split(records.last().0, SPLIT_TOKEN@) == context {
        listed_count(records.last().1, token)
    } else {
        document_count(records.drop_last(), context, token)
    }
}

/// The tallies that pairs stand for count each token as the pairs list it.
pub proof fn lemma_tallies_of_count(pairs: Seq<(Seq<char>, u32)>, token: Seq<char>)
    ensures
        tally_count(tallies_of(pairs), token) == listed_count(pairs, token),
    decreases pairs.len(),
{
    if pairs.len() == 0 {
        lemma_token_absent(Seq::<TallyView>::empty(), token);
    } else {
        lemma_tallies_of_count(pairs.drop_last(), token);
        lemma_put_tally_count(
            tallies_of(pairs.drop_last()),
            pairs.last().0,
            pairs.last().1 as nat,
            token,
        );
    }
}

/// The table that records stand for counts each pair as the records list it.
pub proof fn lemma_table_of_count(
    records: Seq<(Seq<char>, Seq<(Seq<char>, u32)>)>,
    context: Seq<Seq<char>>,
    token: Seq<char>,
)
    ensures
        count_of(table_of(records), context, token) == document_count(records, context, token),
    decreases records.len(),
{
    if records.len() == 0 {
        lemma_context_absent(Seq::<RowView>::empty(), context);
    } else {
        lemma_table_of_count(records.drop_last(), context, token);
        lemma_put_row_count(
            table_of(records.drop_last()),
            split(records.last().0, SPLIT_TOKEN@),
            tallies_of(records.last().1),
            context,
            token,
        );
        lemma_tallies_of_count(records.last().1, token);
    }
}

/// A pair whose token no other pair holds gives the token its count, wherever
/// it stands among the pairs.
pub proof fn lemma_listed_once(pairs: Seq<(Seq<char>, u32)>, j: int)
    requires
        0 <= j < pairs.len(),
        forall|k: int| 0 <= k < pairs.len() && k != j ==> (#[trigger] pairs[k]).0 != pairs[j].0,
    ensures
        listed_count(pairs, pairs[j].0) == pairs[j].1,
    decreases pairs.len(),
{
    if j < pairs.len() - 1 {
        let front = pairs.drop_last();
        assert(pairs[pairs.len() - 1].0 != pairs[j].0);
        assert forall|k: int| 0 <= k < front.len() && k != j implies (#[trigger] front[k]).0
            != front[j].0 by {
            assert(front[k] == pairs[k]);
        }
        lemma_listed_once(front, j);
    }
}

/// A record whose context no other record encodes gives the pairs of that
/// context, wherever it stands among the records.
pub proof fn lemma_recorded_once(
    records: Seq<(Seq<char>, Seq<(Seq<char>, u32)>)>,
    i: int,
    token: Seq<char>,
)
    requires
        0 <= i < records.len(),
        forall|k: int|
            0 <= k < records.len() && k != i ==> split((#[trigger] records[k]).0, SPLIT_TOKEN@)
                != split(records[i].0, SPLIT_TOKEN@),
    ensures
        document_count(records, split(records[i].0, SPLIT_TOKEN@), token) == listed_count(
            records[i].1,
            token,
        ),
    decreases records.len(),
{
    if i < records.len() - 1 {
        let front = records.drop_last();
        assert(split(records[records.len() - 1].0, SPLIT_TOKEN@) != split(
            records[i].0,
            SPLIT_TOKEN@,
        ));
        assert forall|k: int| 0 <= k < front.len() && k != i implies split(
            (#[trigger] front[k]).0,
            SPLIT_TOKEN@,
        ) != split(front[i].0, SPLIT_TOKEN@) by {
            assert(front[k] == records[k]);
        }
        lemma_recorded_once(front, i, token);
    }
}

/// The tallies that `pairs` stand for, unless one of the counts is zero.
pub fn tallies_from(pairs: &Vec<(String, u32)>) -> (r: Option<Vec<Tally>>)
    ensures
        match r {
            Some(tallies) => !has_zero_pair(pairs.deep_view()) && tallies.deep_view() == tallies_of(
                pairs.deep_view(),
            ),
            None => has_zero_pair(pairs.deep_view()),
        },
{
    let ghost all = pairs.deep_view();
    let mut out: Vec<Tally> = Vec::new();
    let mut j: usize = 0;
    assert(all.take(0) == Seq::<(Seq<char>, u32)>::empty());
    while j < pairs.len()
        invariant
            j <= pairs.len(),
            all == pairs.deep_view(),
            forall|k: int| 0 <= k < j ==> (#[trigger] all[k]).1 != 0,
            out.deep_view() == tallies_of(all.take(j as int)),
        decreases pairs.len() - j,
    {
        let count: u32 = pairs[j].1;
        assert(all[j as int] == (pairs[j as int].0@, count));
        if count == 0 {
            return None;
        }
        let ghost earlier = out.deep_view();
        assert(all.take(j + 1).drop_last() == all.take(j as int));
        match find_tally(&out, &pairs[j].0) {
            Some(k) => {
                proof {
                    lemma_token_index(earlier, pairs[j as int].0@, k as int);
                }
                out[k].count = count;
            },
            None => {
                out.push(Tally { token: pairs[j].0.clone(), count });
            },
        }
        j += 1;
    }
    assert(all.take(j as int) == all);
    Some(out)
}

impl Table {
    /// The records that stand for the table, row by row.
    pub fn records(&self) -> (r: Vec<(String, Vec<(String, u32)>)>)
        ensures
            r.deep_view() == records_of(self@),
    {
        let mut out: Vec<(String, Vec<(String, u32)>)> = Vec::new();
        let mut i: usize = 0;
        while i < self.rows.len()
            invariant
                i <= self.rows.len(),
                out.len() == i,
                forall|k: int| 0 <= k < i ==> (#[trigger] out[k]).deep_view() == records_of(self@)[k],
            decreases self.rows.len() - i,
        {
            let row = &self.rows[i];
            let mut pairs: Vec<(String, u32)> = Vec::new();
            let mut j: usize = 0;
            while j < row.tallies.len()
                invariant
                    j <= row.tallies.len(),
                    pairs.len() == j,
                    forall|k: int|
                        0 <= k < j ==> (#[trigger] pairs[k]).deep_view() == pairs_of(
                            row.tallies.deep_view(),
                        )[k],
                decreases row.tallies.len() - j,
            {
                pairs.push((row.tallies[j].token.clone(), row.tallies[j].count));
                j += 1;
            }
            out.push((encode_context(&row.context), pairs));
            i += 1;
        }
        assert(out.deep_view() =~= records_of(self@));
        out
    }

    /// Sets the tallies of `context` to `tallies`.
    pub fn put(&mut self, context: Vec<String>, tallies: Vec<Tally>)
        requires
            old(self).wf(),
            tallies_wf(tallies.deep_view()),
        ensures
            final(self).wf(),
            final(self)@ == put_row(old(self)@, context.deep_view(), tallies.deep_view()),
    {
        let ghost before = self@;
        proof {
            lemma_put_row_wf(before, context.deep_view(), tallies.deep_view());
        }
        match self.find(&context) {
            Some(i) => {
                proof {
                    lemma_context_index(before, context.deep_view(), i as int);
                }
                self.rows[i].tallies = tallies;
                assert(self@ =~= put_row(before, context.deep_view(), tallies.deep_view()));
            },
            None => {
                self.rows.push(Row { context, tallies });
                assert(self@ =~= put_row(before, context.deep_view(), tallies.deep_view()));
            },
        }
    }

    /// The table that `records` stand for, unless one of the counts is zero.
    pub fn from_records(records: &Vec<(String, Vec<(String, u32)>)>) -> (r: Result<
        Table,
        LoadError,
    >)
        ensures
            match r {
                Ok(table) => {
                    &&& !has_zero(records.deep_view())
                    &&& table@ == table_of(records.deep_view())
                    &&& table.wf()
                    &&& contexts_hold_tokens(table@)
                },
                Err(LoadError::ZeroCount) => has_zero(records.deep_view()),
                Err(LoadError::Malformed) => false,
            },
    {
        let ghost all = records.deep_view();
        let mut table = Table::new();
        let mut i: usize = 0;
        assert(all.take(0) == Seq::<(Seq<char>, Seq<(Seq<char>, u32)>)>::empty());
        while i < records.len()
            invariant
                i <= records.len(),
                all == records.deep_view(),
                table.wf(),
                forall|k: int| 0 <= k < i ==> !has_zero_pair((#[trigger] all[k]).1),
                table@ == table_of(all.take(i as int)),
            decreases records.len() - i,
        {
            assert(all.take(i + 1).drop_last() == all.take(i as int));
            assert(all[i as int] == (records[i as int].0@, records[i as int].1.deep_view()));
            let context = decode_context(records[i].0.as_str());
            match tallies_from(&records[i].1) {
                Some(tallies) => {
                    proof {
                        lemma_tallies_of_wf(all[i as int].1);
                    }
                    table.put(context, tallies);
                },
                None => {
                    return Err(LoadError::ZeroCount);
                },
            }
            i += 1;
        }
        assert(all.take(i as int) == all);
        proof {
            lemma_table_of_contexts(all);
        }
        Ok(table)
    }
}

} // verus!
