//! Ranking the continuations of a context by count, and taking the top
//! fraction of them as the candidates of a prediction.

use crate::table::{Tally, TallyView};
use vstd::prelude::*;

verus! {

/// Tally `a` ranks before tally `b`: its count is larger, or the counts are
/// equal and `a` was seen first.
pub open spec fn outranks(ts: Seq<TallyView>, a: int, b: int) -> bool {
    ts[a].count > ts[b].count || (ts[a].count == ts[b].count && a < b)
}

/// `order` lists the places of all tallies of `ts`, each before every place
/// that it outranks. Only the ranking of `ts` does.
pub open spec fn is_ranking(ts: Seq<TallyView>, order: Seq<int>) -> bool {
    &&& order.len() == ts.len()
    &&& forall|p: int| 0 <= p < order.len() ==> 0 <= #[trigger] order[p] < ts.len()
    &&& forall|p: int, q: int|
        0 <= p < q < order.len() ==> outranks(ts, #[trigger] order[p], #[trigger] order[q])
}

/// The first place of `order` whose tally has a count below `count`; the
/// length of `order` where there is none.
pub open spec fn slot(ts: Seq<TallyView>, order: Seq<int>, count: nat) -> int
    decreases order.len(),
{
    if order.len() == 0 || ts[order[0]].count < count {
        0
    } else {
        1 + slot(ts, order.drop_first(), count)
    }
}

/// The ranking of the first `n` tallies of `ts`: each tally in turn goes
/// behind those ranked so far whose count is at least its own.
pub open spec fn ranking_of_first(ts: Seq<TallyView>, n: nat) -> Seq<int>
    decreases n,
{
    if n == 0 {
        Seq::empty()
    } else {
        let before = ranking_of_first(ts, (n - 1) as nat);
        before.insert(slot(ts, before, ts[n - 1].count), n - 1)
    }
}

/// The places of the tallies of `ts` by count, largest first; tallies with
/// equal counts keep the order in which they stand in `ts`.
pub open spec fn ranking(ts: Seq<TallyView>) -> Seq<int> {
    ranking_of_first(ts, ts.len())
}

/// The number of candidates among `n` continuations for the sampling fraction
/// `num / den`: the whole part of `n * num / den`, and at least 1.
pub open spec fn sample_size(n: nat, num: nat, den: nat) -> nat {
    let k = (n * num) / den;
    if k >= 1 {
        k
    } else {
        1
    }
}

/// The tokens of the top `sample_size` tallies of `ts` in ranking order (of
/// all of them where there are fewer).
pub open spec fn candidates(ts: Seq<TallyView>, num: nat, den: nat) -> Seq<Seq<char>> {
    let order = ranking(ts);
    let k = sample_size(ts.len(), num, den);
    Seq::new(
        if k <= ts.len() {
            k
        } else {
            ts.len()
        },
        |p: int| ts[order[p]].token,
    )
}

/// The places that a vector of indices holds.
pub open spec fn places(order: Seq<usize>) -> Seq<int> {
    order.map_values(|i: usize| i as int)
}

/// What `slot` names is a place of `order`; every tally before it has a count
/// of at least `count`, and the tally at it, if any, has a smaller one.
pub proof fn lemma_slot(ts: Seq<TallyView>, order: Seq<int>, count: nat)
    ensures
        0 <= slot(ts, order, count) <= order.len(),
        forall|q: int| 0 <= q < slot(ts, order, count) ==> ts[#[trigger] order[q]].count >= count,
        slot(ts, order, count) < order.len() ==> ts[order[slot(ts, order, count)]].count < count,
    decreases order.len(),
{
    if order.len() == 0 || ts[order[0]].count < count {
    } else {
        let rest = order.drop_first();
        lemma_slot(ts, rest, count);
        assert forall|q: int| 0 <= q < slot(ts, order, count) implies ts[#[trigger] order[q]].count
            >= count by {
            if q > 0 {
                assert(order[q] == rest[q - 1]);
            }
        }
        if slot(ts, order, count) < order.len() {
            assert(order[slot(ts, order, count)] == rest[slot(ts, rest, count)]);
        }
    }
}

/// The ranking of the first `n` tallies lists exactly their places, each
/// before every place that it outranks.
pub proof fn lemma_ranking_of_first(ts: Seq<TallyView>, n: nat)
    requires
        n <= ts.len(),
    ensures
        ranking_of_first(ts, n).len() == n,
        forall|p: int| 0 <= p < n ==> 0 <= #[trigger] ranking_of_first(ts, n)[p] < n,
        forall|p: int, q: int|
            0 <= p < q < n ==> outranks(
                ts,
                #[trigger] ranking_of_first(ts, n)[p],
                #[trigger] ranking_of_first(ts, n)[q],
            ),
    decreases n,
{
    if n > 0 {
        let a = n - 1;
        let before = ranking_of_first(ts, a as nat);
        let count = ts[a].count;
        let s = slot(ts, before, count);
        let after = ranking_of_first(ts, n);
        lemma_ranking_of_first(ts, a as nat);
        lemma_slot(ts, before, count);
        assert(after == before.insert(s, a));
        assert forall|p: int| 0 <= p < n implies 0 <= #[trigger] after[p] < n by {
            if p < s {
                assert(after[p] == before[p]);
            } else if p > s {
                assert(after[p] == before[p - 1]);
            }
        }
        assert forall|p: int, q: int| 0 <= p < q < n implies outranks(
            ts,
            #[trigger] after[p],
            #[trigger] after[q],
        ) by {
            if q < s {
                assert(after[p] == before[p] && after[q] == before[q]);
            } else if q == s {
                assert(after[p] == before[p]);
            } else if p < s {
                assert(after[p] == before[p] && after[q] == before[q - 1]);
                assert(outranks(ts, before[p], before[q - 1]));
            } else if p == s {
                assert(after[q] == before[q - 1]);
                if q - 1 > s {
                    assert(outranks(ts, before[s], before[q - 1]));
                }
            } else {
                assert(after[p] == before[p - 1] && after[q] == before[q - 1]);
                assert(outranks(ts, before[p - 1], before[q - 1]));
            }
        }
    }
}

/// A sequence of `m` different numbers below `m` holds every number below
/// `m`.
pub proof fn lemma_every_place(s: Seq<int>, m: nat, v: int)
    requires
        s.len() == m,
        forall|p: int| 0 <= p < m ==> 0 <= #[trigger] s[p] < m,
        forall|p: int, q: int| 0 <= p < q < m ==> #[trigger] s[p] != #[trigger] s[q],
        0 <= v < m,
    ensures
        exists|p: int| 0 <= p < m && s[p] == v,
    decreases m,
{
    let top = m - 1;
    if exists|p: int| 0 <= p < m && s[p] == top {
        let at = choose|p: int| 0 <= p < m && s[p] == top;
        if v != top {
            let rest = s.remove(at);
            assert forall|p: int| 0 <= p < top implies 0 <= #[trigger] rest[p] < top by {
                if p < at {
                    assert(rest[p] == s[p]);
                } else {
                    assert(rest[p] == s[p + 1]);
                }
            }
            assert forall|p: int, q: int| 0 <= p < q < top implies #[trigger] rest[p]
                != #[trigger] rest[q] by {
                let a = if p < at {
                    p
                } else {
                    p + 1
                };
                let b = if q < at {
                    q
                } else {
                    q + 1
                };
                assert(rest[p] == s[a] && rest[q] == s[b]);
            }
            lemma_every_place(rest, top as nat, v);
            let found = choose|p: int| 0 <= p < top && rest[p] == v;
            let back = if found < at {
                found
            } else {
                found + 1
            };
            assert(s[back] == v);
        }
    } else {
        let front = s.drop_last();
        let last = s[top];
        assert(last != top);
        assert forall|p: int| 0 <= p < top implies 0 <= #[trigger] front[p] < top by {
            assert(front[p] == s[p]);
            assert(s[p] != top);
        }
        assert forall|p: int, q: int| 0 <= p < q < top implies #[trigger] front[p]
            != #[trigger] front[q] by {
            assert(front[p] == s[p] && front[q] == s[q]);
        }
        lemma_every_place(front, top as nat, last);
        let twin = choose|p: int| 0 <= p < top && front[p] == last;
        assert(s[twin] == s[top]);
    }
}

/// The place that ends the leading tallies with a count of at least `count`
/// is the place that `slot` names.
pub proof fn lemma_slot_is(ts: Seq<TallyView>, order: Seq<int>, count: nat, p: int)
    requires
        0 <= p <= order.len(),
        forall|q: int| 0 <= q < p ==> ts[#[trigger] order[q]].count >= count,
        p < order.len() ==> ts[order[p]].count < count,
    ensures
        slot(ts, order, count) == p,
    decreases p,
{
    if p > 0 {
        let rest = order.drop_first();
        assert(ts[order[0]].count >= count);
        assert forall|q: int| 0 <= q < p - 1 implies ts[#[trigger] rest[q]].count >= count by {
            assert(rest[q] == order[q + 1]);
        }
        if p - 1 < rest.len() {
            assert(rest[p - 1] == order[p]);
        }
        lemma_slot_is(ts, rest, count, p - 1);
    }
}

/// Only the ranking of the first `n` tallies lists their places with each
/// before every place that it outranks.
pub proof fn lemma_ranking_of_first_unique(ts: Seq<TallyView>, n: nat, order: Seq<int>)
    requires
        n <= ts.len(),
        order.len() == n,
        forall|p: int| 0 <= p < n ==> 0 <= #[trigger] order[p] < n,
        forall|p: int, q: int|
            0 <= p < q < n ==> outranks(ts, #[trigger] order[p], #[trigger] order[q]),
    ensures
        order == ranking_of_first(ts, n),
    decreases n,
{
    if n == 0 {
        assert(order == Seq::<int>::empty());
    } else {
        let top = n - 1;
        assert forall|p: int, q: int| 0 <= p < q < n implies #[trigger] order[p]
            != #[trigger] order[q] by {
            assert(outranks(ts, order[p], order[q]));
        }
        lemma_every_place(order, n, top);
        let at = choose|p: int| 0 <= p < n && order[p] == top;
        let rest = order.remove(at);
        assert forall|p: int| 0 <= p < top implies 0 <= #[trigger] rest[p] < top by {
            if p < at {
                assert(rest[p] == order[p]);
                assert(order[p] != order[at]);
            } else {
                assert(rest[p] == order[p + 1]);
                assert(order[at] != order[p + 1]);
            }
        }
        assert forall|p: int, q: int| 0 <= p < q < top implies outranks(
            ts,
            #[trigger] rest[p],
            #[trigger] rest[q],
        ) by {
            let a = if p < at {
                p
            } else {
                p + 1
            };
            let b = if q < at {
                q
            } else {
                q + 1
            };
            assert(rest[p] == order[a] && rest[q] == order[b]);
            assert(outranks(ts, order[a], order[b]));
        }
        lemma_ranking_of_first_unique(ts, top as nat, rest);
        let count = ts[top].count;
        assert forall|q: int| 0 <= q < at implies ts[#[trigger] rest[q]].count >= count by {
            assert(rest[q] == order[q]);
            assert(outranks(ts, order[q], order[at]));
        }
        if at < rest.len() {
            assert(rest[at] == order[at + 1]);
            assert(outranks(ts, order[at], order[at + 1]));
            assert(order[at + 1] < n);
        }
        lemma_slot_is(ts, rest, count, at);
        assert(rest.insert(at, top) == order);
    }
}

/// Only the ranking of `ts` lists the places of all its tallies with each
/// before every place that it outranks.
pub proof fn lemma_ranking_unique(ts: Seq<TallyView>, order: Seq<int>)
    requires
        is_ranking(ts, order),
    ensures
        order == ranking(ts),
{
    lemma_ranking_of_first_unique(ts, ts.len(), order);
}

/// The ranking of `ts` lists the places of all its tallies, each before every
/// place that it outranks.
pub proof fn lemma_ranking(ts: Seq<TallyView>)
    ensures
        is_ranking(ts, ranking(ts)),
{
    lemma_ranking_of_first(ts, ts.len());
}

/// Every candidate is the token of a tally, and there is a candidate wherever
/// there is a tally.
pub proof fn lemma_candidates(ts: Seq<TallyView>, num: nat, den: nat)
    ensures
        candidates(ts, num, den).len() <= ts.len(),
        ts.len() > 0 ==> candidates(ts, num, den).len() >= 1,
        forall|p: int|
            0 <= p < candidates(ts, num, den).len() ==> exists|j: int|
                0 <= j < ts.len() && (#[trigger] ts[j]).token == #[trigger] candidates(
                    ts,
                    num,
                    den,
                )[p],
{
    lemma_ranking(ts);
    let order = ranking(ts);
    let c = candidates(ts, num, den);
    assert forall|p: int| 0 <= p < c.len() implies exists|j: int|
        0 <= j < ts.len() && (#[trigger] ts[j]).token == #[trigger] c[p] by {
        let j = order[p];
        assert(0 <= j < ts.len() && ts[j].token == c[p]);
    }
}

/// The places of the tallies by count, largest first; tallies with equal
/// counts stay in the order in which they stand in `tallies`.
pub fn rank(tallies: &Vec<Tally>) -> (order: Vec<usize>)
    ensures
        places(order@) == ranking(tallies.deep_view()),
        is_ranking(tallies.deep_view(), places(order@)),
{
    let ghost ts = tallies.deep_view();
    let mut order: Vec<usize> = Vec::new();
    let mut a: usize = 0;
    while a < tallies.len()
        invariant
            a <= tallies.len(),
            ts == tallies.deep_view(),
            places(order@) == ranking_of_first(ts, a as nat),
        decreases tallies.len() - a,
    {
        let ghost before = places(order@);
        let count: u32 = tallies[a].count;
        proof {
            lemma_ranking_of_first(ts, a as nat);
        }
        let mut p: usize = 0;
        assert(before.skip(0) == before);
        while p < order.len() && tallies[order[p]].count >= count
            invariant
                p <= order.len(),
                a < tallies.len(),
                ts == tallies.deep_view(),
                before == places(order@),
                before.len() == a,
                forall|q: int| 0 <= q < a ==> 0 <= #[trigger] before[q] < a,
                slot(ts, before, count as nat) == p + slot(ts, before.skip(p as int), count as nat),
            decreases order.len() - p,
        {
            assert(before.skip(p as int).drop_first() == before.skip(p + 1));
            p += 1;
        }
        order.insert(p, a);
        a += 1;
    }
    proof {
        lemma_ranking(ts);
    }
    order
}

/// The tokens of the top-ranked tallies that a prediction may return: as many
/// as the fraction `num / den` of all tallies, rounded down, and at least one
/// where there is any.
pub fn top_candidates(tallies: &Vec<Tally>, num: u64, den: u64) -> (r: Vec<String>)
    requires
        den > 0,
    ensures
        r.deep_view() == candidates(tallies.deep_view(), num as nat, den as nat),
{
    let ghost ts = tallies.deep_view();
    let order = rank(tallies);
    let n: usize = tallies.len();
    assert((n as u128) * (num as u128) <= u128::MAX) by (nonlinear_arith)
        requires
            n <= u64::MAX,
            num <= u64::MAX,
    ;
    let scaled: u128 = ((n as u128) * (num as u128)) / (den as u128);
    let wanted: u128 = if scaled >= 1 {
        scaled
    } else {
        1
    };
    let k: usize = if wanted <= n as u128 {
        wanted as usize
    } else {
        n
    };
    let mut out: Vec<String> = Vec::new();
    let mut p: usize = 0;
    while p < k
        invariant
            p <= k <= n,
            n == tallies.len(),
            out.len() == p,
            ts == tallies.deep_view(),
            is_ranking(ts, places(order@)),
            forall|q: int| 0 <= q < p ==> (#[trigger] out[q])@ == ts[places(order@)[q]].token,
        decreases k - p,
    {
        assert(0 <= places(order@)[p as int] < ts.len());
        out.push(tallies[order[p]].token.clone());
        p += 1;
    }
    out
}

} // verus!
