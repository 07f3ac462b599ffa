//! The frequency table: for each context, the tokens seen after it and how
//! often each was seen.
//!
//! A table is a list of rows in the order in which their contexts were first
//! seen; a row lists its tallies in the order in which their tokens were first
//! seen. That order is what breaks ties when continuations are ranked.

use vstd::prelude::*;

verus! {

/// A token and the number of times it was seen after some context.
#[derive(Debug, Clone)]
pub struct Tally {
    pub token: String,
    pub count: u32,
}

/// A context and the tallies of the tokens seen after it.
#[derive(Debug, Clone)]
pub struct Row {
    pub context: Vec<String>,
    pub tallies: Vec<Tally>,
}

/// The rows of all contexts seen so far.
#[derive(Debug, Clone)]
pub struct Table {
    pub rows: Vec<Row>,
}

/// What a [`Tally`] stands for.
pub struct TallyView {
    pub token: Seq<char>,
    pub count: nat,
}

/// What a [`Row`] stands for.
pub struct RowView {
    pub context: Seq<Seq<char>>,
    pub tallies: Seq<TallyView>,
}

impl View for Tally {
    type V = TallyView;

    open spec fn view(&self) -> TallyView {
        TallyView { token: self.token@, count: self.count as nat }
    }
}

impl DeepView for Tally {
    type V = TallyView;

    open spec fn deep_view(&self) -> TallyView {
        self@
    }
}

impl View for Row {
    type V = RowView;

    open spec fn view(&self) -> RowView {
        RowView { context: self.context.deep_view(), tallies: self.tallies.deep_view() }
    }
}

impl DeepView for Row {
    type V = RowView;

    open spec fn deep_view(&self) -> RowView {
        self@
    }
}

impl View for Table {
    type V = Seq<RowView>;

    open spec fn view(&self) -> Seq<RowView> {
        self.rows.deep_view()
    }
}

/// `j` is the first place in `ts` that holds `token`.
pub open spec fn tally_at(ts: Seq<TallyView>, token: Seq<char>, j: int) -> bool {
    &&& 0 <= j < ts.len()
    &&& ts[j].token == token
    &&& forall|k: int| 0 <= k < j ==> (#[trigger] ts[k]).token != token
}

/// Whether `token` has a tally in `ts`.
pub open spec fn has_token(ts: Seq<TallyView>, token: Seq<char>) -> bool {
    exists|j: int| tally_at(ts, token, j)
}

/// The place of `token` in `ts`, where it has one.
pub open spec fn token_index(ts: Seq<TallyView>, token: Seq<char>) -> int {
    choose|j: int| tally_at(ts, token, j)
}

/// The count of `token` in `ts`; 0 where it has no tally.
pub open spec fn tally_count(ts: Seq<TallyView>, token: Seq<char>) -> nat {
    if has_token(ts, token) {
        ts[token_index(ts, token)].count
    } else {
        0
    }
}

/// `ts` with the count of `token` set to `count`: in its tally, or in a new
/// tally at the end.
pub open spec fn put_tally(ts: Seq<TallyView>, token: Seq<char>, count: nat) -> Seq<TallyView> {
    if has_token(ts, token) {
        ts.update(token_index(ts, token), TallyView { token, count })
    } else {
        ts.push(TallyView { token, count })
    }
}

/// `ts` after one more sighting of `token`: its count goes up by one, or it
/// gets a new tally of 1 at the end.
pub open spec fn bump(ts: Seq<TallyView>, token: Seq<char>) -> Seq<TallyView> {
    put_tally(ts, token, tally_count(ts, token) + 1)
}

/// `i` is the first row of `t` for `context`.
pub open spec fn row_at(t: Seq<RowView>, context: Seq<Seq<char>>, i: int) -> bool {
    &&& 0 <= i < t.len()
    &&& t[i].context == context
    &&& forall|k: int| 0 <= k < i ==> (#[trigger] t[k]).context != context
}

/// Whether `context` has a row in `t`.
pub open spec fn has_context(t: Seq<RowView>, context: Seq<Seq<char>>) -> bool {
    exists|i: int| row_at(t, context, i)
}

/// The place of the row of `context` in `t`, where it has one.
pub open spec fn context_index(t: Seq<RowView>, context: Seq<Seq<char>>) -> int {
    choose|i: int| row_at(t, context, i)
}

/// The tallies stored for exactly `context`, if any.
pub open spec fn lookup(t: Seq<RowView>, context: Seq<Seq<char>>) -> Option<Seq<TallyView>> {
    if has_context(t, context) {
        Some(t[context_index(t, context)].tallies)
    } else {
        None
    }
}

/// How often `token` was seen after `context`; 0 where it never was.
pub open spec fn count_of(t: Seq<RowView>, context: Seq<Seq<char>>, token: Seq<char>) -> nat {
    match lookup(t, context) {
        Some(ts) => tally_count(ts, token),
        None => 0,
    }
}

/// The tallies stored for exactly `context`; none where it has no row.
pub open spec fn tallies_after(t: Seq<RowView>, context: Seq<Seq<char>>) -> Seq<TallyView> {
    match lookup(t, context) {
        Some(ts) => ts,
        None => Seq::empty(),
    }
}

/// `t` with the tallies of `context` set to `tallies`: in its row, or in a
/// new row at the end.
pub open spec fn put_row(t: Seq<RowView>, context: Seq<Seq<char>>, tallies: Seq<TallyView>) -> Seq<
    RowView,
> {
    if has_context(t, context) {
        t.update(context_index(t, context), RowView { context, tallies })
    } else {
        t.push(RowView { context, tallies })
    }
}

/// `t` after one more sighting of `token` after `context`: the tallies of
/// `context` are bumped, in its row or in a new row at the end.
pub open spec fn observe(t: Seq<RowView>, context: Seq<Seq<char>>, token: Seq<char>) -> Seq<
    RowView,
> {
    put_row(t, context, bump(tallies_after(t, context), token))
}

/// Every count is at least 1, and no token has two tallies.
pub open spec fn tallies_wf(ts: Seq<TallyView>) -> bool {
    &&& forall|j: int| 0 <= j < ts.len() ==> (#[trigger] ts[j]).count >= 1
    &&& forall|j: int, k: int|
        0 <= j < k < ts.len() ==> (#[trigger] ts[j]).token != (#[trigger] ts[k]).token
}

/// Every row is well formed, and no context has two rows.
pub open spec fn table_wf(t: Seq<RowView>) -> bool {
    &&& forall|i: int| 0 <= i < t.len() ==> tallies_wf((#[trigger] t[i]).tallies)
    &&& forall|i: int, k: int|
        0 <= i < k < t.len() ==> (#[trigger] t[i]).context != (#[trigger] t[k]).context
}

/// Every count of `t` can be held in 32 bits.
pub open spec fn fits(t: Seq<RowView>) -> bool {
    forall|i: int, j: int|
        0 <= i < t.len() && 0 <= j < t[i].tallies.len() ==> (#[trigger] t[i].tallies[j]).count
            <= u32::MAX
}

/// Every context of `t` holds at least one token.
pub open spec fn contexts_hold_tokens(t: Seq<RowView>) -> bool {
    forall|i: int| 0 <= i < t.len() ==> (#[trigger] t[i]).context.len() >= 1
}

/// The first place that holds a token is the place that `token_index` names.
pub proof fn lemma_token_index(ts: Seq<TallyView>, token: Seq<char>, j: int)
    requires
        tally_at(ts, token, j),
    ensures
        has_token(ts, token),
        token_index(ts, token) == j,
{
    let k = token_index(ts, token);
    assert(tally_at(ts, token, k));
    if k < j {
        assert(ts[k].token != token);
    }
    if j < k {
        assert(ts[j].token != token);
    }
}

/// The first row of a context is the row that `context_index` names.
pub proof fn lemma_context_index(t: Seq<RowView>, context: Seq<Seq<char>>, i: int)
    requires
        row_at(t, context, i),
    ensures
        has_context(t, context),
        context_index(t, context) == i,
        lookup(t, context) == Some(t[i].tallies),
{
    let k = context_index(t, context);
    assert(row_at(t, context, k));
    if k < i {
        assert(t[k].context != context);
    }
    if i < k {
        assert(t[i].context != context);
    }
}

/// A sequence that holds `token` nowhere has no tally for it.
pub proof fn lemma_token_absent(ts: Seq<TallyView>, token: Seq<char>)
    requires
        forall|k: int| 0 <= k < ts.len() ==> (#[trigger] ts[k]).token != token,
    ensures
        !has_token(ts, token),
        tally_count(ts, token) == 0,
{
    if has_token(ts, token) {
        let k = token_index(ts, token);
        assert(tally_at(ts, token, k));
        assert(ts[k].token != token);
    }
}

/// A table that holds `context` nowhere has no row for it.
pub proof fn lemma_context_absent(t: Seq<RowView>, context: Seq<Seq<char>>)
    requires
        forall|k: int| 0 <= k < t.len() ==> (#[trigger] t[k]).context != context,
    ensures
        !has_context(t, context),
        lookup(t, context) is None,
{
    if has_context(t, context) {
        let k = context_index(t, context);
        assert(row_at(t, context, k));
        assert(t[k].context != context);
    }
}

/// A sequence that holds `token` somewhere has a first place that holds it.
pub proof fn lemma_first_token(ts: Seq<TallyView>, token: Seq<char>, k: int)
    requires
        0 <= k < ts.len(),
        ts[k].token == token,
    ensures
        has_token(ts, token),
        token_index(ts, token) <= k,
    decreases k,
{
    if forall|m: int| 0 <= m < k ==> (#[trigger] ts[m]).token != token {
        assert(tally_at(ts, token, k));
        lemma_token_index(ts, token, k);
    } else {
        let m = choose|m: int| 0 <= m < k && (#[trigger] ts[m]).token == token;
        lemma_first_token(ts, token, m);
    }
}

/// A table that holds `context` somewhere has a first row for it.
pub proof fn lemma_first_context(t: Seq<RowView>, context: Seq<Seq<char>>, k: int)
    requires
        0 <= k < t.len(),
        t[k].context == context,
    ensures
        has_context(t, context),
        context_index(t, context) <= k,
    decreases k,
{
    if forall|m: int| 0 <= m < k ==> (#[trigger] t[m]).context != context {
        assert(row_at(t, context, k));
        lemma_context_index(t, context, k);
    } else {
        let m = choose|m: int| 0 <= m < k && (#[trigger] t[m]).context == context;
        lemma_first_context(t, context, m);
    }
}

/// Setting a count changes the count of that token and of no other.
pub proof fn lemma_put_tally_count(
    ts: Seq<TallyView>,
    token: Seq<char>,
    count: nat,
    other: Seq<char>,
)
    ensures
        tally_count(put_tally(ts, token, count), other) == if other == token {
            count
        } else {
            tally_count(ts, other)
        },
{
    let after = put_tally(ts, token, count);
    if has_token(ts, token) {
        let j = token_index(ts, token);
        assert(tally_at(ts, token, j));
        assert forall|k: int| 0 <= k < ts.len() implies (#[trigger] after[k]).token
            == ts[k].token by {}
        if has_token(ts, other) {
            let m = token_index(ts, other);
            assert(tally_at(ts, other, m));
            assert(tally_at(after, other, m)) by {
                assert forall|k: int| 0 <= k < m implies (#[trigger] after[k]).token != other by {
                    assert(ts[k].token != other);
                }
            }
            lemma_token_index(after, other, m);
            if other == token {
                lemma_token_index(ts, token, m);
            }
        } else {
            assert forall|k: int| 0 <= k < after.len() implies (#[trigger] after[k]).token
                != other by {
                if ts[k].token == other {
                    lemma_first_token(ts, other, k);
                }
            }
            lemma_token_absent(after, other);
        }
    } else {
        let n = ts.len() as int;
        assert(after[n].token == token);
        assert forall|k: int| 0 <= k < n implies (#[trigger] after[k]) == ts[k] by {}
        if has_token(ts, other) {
            let m = token_index(ts, other);
            assert(tally_at(ts, other, m));
            assert(tally_at(after, other, m)) by {
                assert forall|k: int| 0 <= k < m implies (#[trigger] after[k]).token != other by {
                    assert(ts[k].token != other);
                }
            }
            lemma_token_index(after, other, m);
        } else if other == token {
            assert(tally_at(after, other, n)) by {
                assert forall|k: int| 0 <= k < n implies (#[trigger] after[k]).token != other by {
                    if ts[k].token == other {
                        lemma_first_token(ts, other, k);
                    }
                }
            }
            lemma_token_index(after, other, n);
        } else {
            assert forall|k: int| 0 <= k < after.len() implies (#[trigger] after[k]).token
                != other by {
                if k < n && ts[k].token == other {
                    lemma_first_token(ts, other, k);
                }
            }
            lemma_token_absent(after, other);
        }
    }
}

/// Setting a count of at least 1 keeps a row well formed.
pub proof fn lemma_put_tally_wf(ts: Seq<TallyView>, token: Seq<char>, count: nat)
    requires
        tallies_wf(ts),
        count >= 1,
    ensures
        tallies_wf(put_tally(ts, token, count)),
{
    let after = put_tally(ts, token, count);
    if has_token(ts, token) {
        let j = token_index(ts, token);
        assert(tally_at(ts, token, j));
        assert forall|k: int| 0 <= k < after.len() implies (#[trigger] after[k]).count >= 1
            && after[k].token == ts[k].token by {
            assert(ts[k].count >= 1);
        }
        assert forall|a: int, b: int| 0 <= a < b < after.len() implies (#[trigger] after[a]).token
            != (#[trigger] after[b]).token by {
            assert(ts[a].token != ts[b].token);
        }
    } else {
        let n = ts.len() as int;
        assert forall|k: int| 0 <= k < after.len() implies (#[trigger] after[k]).count >= 1 by {
            if k < n {
                assert(ts[k].count >= 1);
            }
        }
        assert forall|a: int, b: int| 0 <= a < b < after.len() implies (#[trigger] after[a]).token
            != (#[trigger] after[b]).token by {
            if b < n {
                assert(ts[a].token != ts[b].token);
            } else if ts[a].token == token {
                lemma_first_token(ts, token, a);
            }
        }
    }
}

/// Setting the tallies of a context changes the counts of that context and of
/// no other.
pub proof fn lemma_put_row_count(
    t: Seq<RowView>,
    context: Seq<Seq<char>>,
    tallies: Seq<TallyView>,
    other_context: Seq<Seq<char>>,
    token: Seq<char>,
)
    ensures
        count_of(put_row(t, context, tallies), other_context, token) == if other_context
            == context {
            tally_count(tallies, token)
        } else {
            count_of(t, other_context, token)
        },
{
    let after = put_row(t, context, tallies);
    if has_context(t, context) {
        let i = context_index(t, context);
        assert(row_at(t, context, i));
        assert forall|k: int| 0 <= k < t.len() implies (#[trigger] after[k]).context
            == t[k].context by {}
        if has_context(t, other_context) {
            let m = context_index(t, other_context);
            assert(row_at(t, other_context, m));
            assert(row_at(after, other_context, m)) by {
                assert forall|k: int| 0 <= k < m implies (#[trigger] after[k]).context
                    != other_context by {
                    assert(t[k].context != other_context);
                }
            }
            lemma_context_index(after, other_context, m);
            if other_context == context {
                lemma_context_index(t, context, m);
            }
        } else {
            assert forall|k: int| 0 <= k < after.len() implies (#[trigger] after[k]).context
                != other_context by {
                if t[k].context == other_context {
                    lemma_first_context(t, other_context, k);
                }
            }
            lemma_context_absent(after, other_context);
        }
    } else {
        let n = t.len() as int;
        assert(after[n].context == context);
        assert forall|k: int| 0 <= k < n implies (#[trigger] after[k]) == t[k] by {}
        if has_context(t, other_context) {
            let m = context_index(t, other_context);
            assert(row_at(t, other_context, m));
            assert(row_at(after, other_context, m)) by {
                assert forall|k: int| 0 <= k < m implies (#[trigger] after[k]).context
                    != other_context by {
                    assert(t[k].context != other_context);
                }
            }
            lemma_context_index(after, other_context, m);
        } else if other_context == context {
            assert(row_at(after, other_context, n)) by {
                assert forall|k: int| 0 <= k < n implies (#[trigger] after[k]).context
                    != other_context by {
                    if t[k].context == other_context {
                        lemma_first_context(t, other_context, k);
                    }
                }
            }
            lemma_context_index(after, other_context, n);
        } else {
            assert forall|k: int| 0 <= k < after.len() implies (#[trigger] after[k]).context
                != other_context by {
                if k < n && t[k].context == other_context {
                    lemma_first_context(t, other_context, k);
                }
            }
            lemma_context_absent(after, other_context);
        }
    }
}

/// Setting well-formed tallies keeps a table well formed.
pub proof fn lemma_put_row_wf(t: Seq<RowView>, context: Seq<Seq<char>>, tallies: Seq<TallyView>)
    requires
        table_wf(t),
        tallies_wf(tallies),
    ensures
        table_wf(put_row(t, context, tallies)),
{
    let after = put_row(t, context, tallies);
    if has_context(t, context) {
        let i = context_index(t, context);
        assert(row_at(t, context, i));
        assert forall|k: int| 0 <= k < after.len() implies tallies_wf(
            (#[trigger] after[k]).tallies,
        ) && after[k].context == t[k].context by {
            assert(tallies_wf(t[k].tallies));
        }
        assert forall|a: int, b: int| 0 <= a < b < after.len() implies (#[trigger] after[a]).context
            != (#[trigger] after[b]).context by {
            assert(t[a].context != t[b].context);
        }
    } else {
        let n = t.len() as int;
        assert forall|k: int| 0 <= k < after.len() implies tallies_wf(
            (#[trigger] after[k]).tallies,
        ) by {
            if k < n {
                assert(tallies_wf(t[k].tallies));
            }
        }
        assert forall|a: int, b: int| 0 <= a < b < after.len() implies (#[trigger] after[a]).context
            != (#[trigger] after[b]).context by {
            if b < n {
                assert(t[a].context != t[b].context);
            } else if t[a].context == context {
                lemma_first_context(t, context, a);
            }
        }
    }
}

/// The rows of a table after the tallies of a context were set: those that
/// it had, with their contexts, and at most one more, for that context.
pub proof fn lemma_put_row_contexts(
    t: Seq<RowView>,
    context: Seq<Seq<char>>,
    tallies: Seq<TallyView>,
)
    ensures
        t.len() <= put_row(t, context, tallies).len() <= t.len() + 1,
        forall|i: int|
            0 <= i < t.len() ==> (#[trigger] put_row(t, context, tallies)[i]).context
                == t[i].context,
        put_row(t, context, tallies).len() > t.len() ==> put_row(t, context, tallies)[
            t.len() as int
        ].context == context,
{
    if has_context(t, context) {
        let i = context_index(t, context);
        assert(row_at(t, context, i));
    }
}

/// Bumping raises the count of the bumped token by one and leaves every other
/// count as it was.
pub proof fn lemma_bump_count(ts: Seq<TallyView>, token: Seq<char>, other: Seq<char>)
    ensures
        tally_count(bump(ts, token), other) == tally_count(ts, other) + if other == token {
            1nat
        } else {
            0nat
        },
{
    lemma_put_tally_count(ts, token, tally_count(ts, token) + 1, other);
}

/// Bumping keeps a row well formed.
pub proof fn lemma_bump_wf(ts: Seq<TallyView>, token: Seq<char>)
    requires
        tallies_wf(ts),
    ensures
        tallies_wf(bump(ts, token)),
{
    lemma_put_tally_wf(ts, token, tally_count(ts, token) + 1);
}

/// The tallies stored for a context are well formed in a well-formed table.
pub proof fn lemma_tallies_after_wf(t: Seq<RowView>, context: Seq<Seq<char>>)
    requires
        table_wf(t),
    ensures
        tallies_wf(tallies_after(t, context)),
{
    if has_context(t, context) {
        let i = context_index(t, context);
        assert(row_at(t, context, i));
        assert(tallies_wf(t[i].tallies));
    }
}

/// Observing raises the count of the observed pair by one and leaves every
/// other count as it was.
pub proof fn lemma_observe_count(
    t: Seq<RowView>,
    context: Seq<Seq<char>>,
    token: Seq<char>,
    other_context: Seq<Seq<char>>,
    other: Seq<char>,
)
    ensures
        count_of(observe(t, context, token), other_context, other) == count_of(
            t,
            other_context,
            other,
        ) + if other_context == context && other == token {
            1nat
        } else {
            0nat
        },
{
    let stored = tallies_after(t, context);
    lemma_put_row_count(t, context, bump(stored, token), other_context, other);
    if other_context == context {
        lemma_bump_count(stored, token, other);
        if lookup(t, context) is None {
            lemma_token_absent(stored, other);
        }
    }
}

/// Observing keeps a table well formed.
pub proof fn lemma_observe_wf(t: Seq<RowView>, context: Seq<Seq<char>>, token: Seq<char>)
    requires
        table_wf(t),
    ensures
        table_wf(observe(t, context, token)),
{
    lemma_tallies_after_wf(t, context);
    lemma_bump_wf(tallies_after(t, context), token);
    lemma_put_row_wf(t, context, bump(tallies_after(t, context), token));
}

/// Whether `context` holds the tokens of `tokens` from place `from` on.
pub fn matches_from(context: &Vec<String>, tokens: &Vec<String>, from: usize) -> (r: bool)
    requires
        from <= tokens.len(),
    ensures
        r == (context.deep_view() == tokens.deep_view().skip(from as int)),
{
    if context.len() != tokens.len() - from {
        assert(context.deep_view().len() != tokens.deep_view().skip(from as int).len());
        return false;
    }
    let ghost tail = tokens.deep_view().skip(from as int);
    let mut k: usize = 0;
    while k < context.len()
        invariant
            k <= context.len(),
            from <= tokens.len(),
            context.len() == tokens.len() - from,
            tail == tokens.deep_view().skip(from as int),
            forall|m: int| 0 <= m < k ==> context.deep_view()[m] == tail[m],
        decreases context.len() - k,
    {
        if context[k] != tokens[from + k] {
            assert(context.deep_view()[k as int] != tail[k as int]);
            return false;
        }
        k += 1;
    }
    assert(context.deep_view() =~= tail);
    true
}

/// A copy of the tokens of `tokens` from place `from` on.
pub fn copy_from(tokens: &Vec<String>, from: usize) -> (r: Vec<String>)
    requires
        from <= tokens.len(),
    ensures
        r.deep_view() == tokens.deep_view().skip(from as int),
{
    let mut out: Vec<String> = Vec::new();
    let mut k: usize = from;
    while k < tokens.len()
        invariant
            from <= k <= tokens.len(),
            out.len() == k - from,
            forall|m: int| 0 <= m < out.len() ==> (#[trigger] out[m])@ == tokens[from + m]@,
        decreases tokens.len() - k,
    {
        out.push(tokens[k].clone());
        k += 1;
    }
    out
}

/// The place of the tally of `token` in `tallies`, if it has one.
pub fn find_tally(tallies: &Vec<Tally>, token: &String) -> (r: Option<usize>)
    ensures
        match r {
            Some(j) => tally_at(tallies.deep_view(), token@, j as int),
            None => !has_token(tallies.deep_view(), token@),
        },
{
    let mut j: usize = 0;
    while j < tallies.len()
        invariant
            j <= tallies.len(),
            forall|k: int| 0 <= k < j ==> (#[trigger] tallies.deep_view()[k]).token != token@,
        decreases tallies.len() - j,
    {
        if tallies[j].token == *token {
            return Some(j);
        }
        j += 1;
    }
    proof {
        lemma_token_absent(tallies.deep_view(), token@);
    }
    None
}

impl Table {
    /// Whether the table is well formed: see [`table_wf`].
    pub open spec fn wf(&self) -> bool {
        table_wf(self@)
    }

    /// A table without rows.
    pub fn new() -> (r: Table)
        ensures
            r@ == Seq::<RowView>::empty(),
            r.wf(),
    {
        let r = Table { rows: Vec::new() };
        r
    }

    /// The place of the row whose context is `tokens` from place `from` on,
    /// if there is one.
    pub fn find_from(&self, tokens: &Vec<String>, from: usize) -> (r: Option<usize>)
        requires
            from <= tokens.len(),
        ensures
            match r {
                Some(i) => row_at(self@, tokens.deep_view().skip(from as int), i as int),
                None => !has_context(self@, tokens.deep_view().skip(from as int)),
            },
    {
        let ghost context = tokens.deep_view().skip(from as int);
        let mut i: usize = 0;
        while i < self.rows.len()
            invariant
                i <= self.rows.len(),
                from <= tokens.len(),
                context == tokens.deep_view().skip(from as int),
                forall|k: int| 0 <= k < i ==> (#[trigger] self@[k]).context != context,
            decreases self.rows.len() - i,
        {
            if matches_from(&self.rows[i].context, tokens, from) {
                return Some(i);
            }
            i += 1;
        }
        proof {
            lemma_context_absent(self@, context);
        }
        None
    }

    /// The place of the row of `context`, if it has one.
    pub fn find(&self, context: &Vec<String>) -> (r: Option<usize>)
        ensures
            match r {
                Some(i) => row_at(self@, context.deep_view(), i as int),
                None => !has_context(self@, context.deep_view()),
            },
    {
        assert(context.deep_view().skip(0) == context.deep_view());
        self.find_from(context, 0)
    }

    /// How often `token` was seen after `context`.
    pub fn count(&self, context: &Vec<String>, token: &String) -> (r: u32)
        ensures
            r == count_of(self@, context.deep_view(), token@),
    {
        match self.find(context) {
            Some(i) => {
                proof {
                    lemma_context_index(self@, context.deep_view(), i as int);
                }
                match find_tally(&self.rows[i].tallies, token) {
                    Some(j) => {
                        proof {
                            lemma_token_index(self@[i as int].tallies, token@, j as int);
                        }
                        self.rows[i].tallies[j].count
                    },
                    None => 0,
                }
            },
            None => 0,
        }
    }

    /// Records one more sighting of `token` after `context`, unless its count
    /// is already the largest that 32 bits hold; then the table stays as it is
    /// and the result is `false`.
    pub fn observe(&mut self, context: &Vec<String>, token: &String) -> (done: bool)
        requires
            old(self).wf(),
        ensures
            final(self).wf(),
            done == (count_of(old(self)@, context.deep_view(), token@) < u32::MAX),
            done ==> final(self)@ == observe(old(self)@, context.deep_view(), token@),
            !done ==> final(self)@ == old(self)@,
    {
        let ghost before = self@;
        proof {
            lemma_observe_wf(before, context.deep_view(), token@);
        }
        match self.find(context) {
            Some(i) => {
                proof {
                    lemma_context_index(before, context.deep_view(), i as int);
                }
                match find_tally(&self.rows[i].tallies, token) {
                    Some(j) => {
                        proof {
                            lemma_token_index(before[i as int].tallies, token@, j as int);
                        }
                        if self.rows[i].tallies[j].count == u32::MAX {
                            return false;
                        }
                        self.rows[i].tallies[j].count += 1;
                        proof {
                            let row = before[i as int];
                            let bumped = bump(row.tallies, token@);
                            assert(self@[i as int].tallies =~= bumped);
                            assert(self@ =~= observe(before, context.deep_view(), token@));
                        }
                        true
                    },
                    None => {
                        self.rows[i].tallies.push(Tally { token: token.clone(), count: 1 });
                        proof {
                            let row = before[i as int];
                            let bumped = bump(row.tallies, token@);
                            assert(self@[i as int].tallies =~= bumped);
                            assert(self@ =~= observe(before, context.deep_view(), token@));
                        }
                        true
                    },
                }
            },
            None => {
                let mut tallies: Vec<Tally> = Vec::new();
                tallies.push(Tally { token: token.clone(), count: 1 });
                assert(tallies.deep_view() =~= seq![TallyView { token: token@, count: 1 }]);
                assert(context.deep_view().skip(0) == context.deep_view());
                let row = Row { context: copy_from(context, 0), tallies };
                self.rows.push(row);
                assert(self@ =~= observe(before, context.deep_view(), token@));
                true
            },
        }
    }

    /// A copy of the table.
    pub fn duplicate(&self) -> (r: Table)
        ensures
            r@ == self@,
    {
        let mut rows: Vec<Row> = Vec::new();
        let mut i: usize = 0;
        while i < self.rows.len()
            invariant
                i <= self.rows.len(),
                rows.len() == i,
                forall|k: int| 0 <= k < i ==> (#[trigger] rows[k])@ == self.rows[k]@,
            decreases self.rows.len() - i,
        {
            let source = &self.rows[i];
            let mut tallies: Vec<Tally> = Vec::new();
            let mut j: usize = 0;
            while j < source.tallies.len()
                invariant
                    j <= source.tallies.len(),
                    tallies.len() == j,
                    forall|k: int| 0 <= k < j ==> (#[trigger] tallies[k])@ == source.tallies[k]@,
                decreases source.tallies.len() - j,
            {
                tallies.push(
                    Tally { token: source.tallies[j].token.clone(), count: source.tallies[j].count },
                );
                j += 1;
            }
            assert(tallies.deep_view() =~= source.tallies.deep_view());
            assert(source.context.deep_view().skip(0) == source.context.deep_view());
            rows.push(Row { context: copy_from(&source.context, 0), tallies });
            i += 1;
        }
        let r = Table { rows };
        r
    }
}

} // verus!
