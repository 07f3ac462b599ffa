//! Resolving a context against the table, backing off to shorter contexts
//! where that is enabled.

use crate::table::{
    lemma_context_absent, lemma_context_index, lookup, RowView, Table, TallyView,
};
use vstd::prelude::*;

verus! {

/// The tallies that `context` resolves to: those stored for it, or, where it
/// has none and `smoothing` holds, those that the context without its oldest
/// token resolves to. The first level with a row decides.
pub open spec fn resolve(t: Seq<RowView>, smoothing: bool, context: Seq<Seq<char>>) -> Option<
    Seq<TallyView>,
>
    decreases context.len(),
{
    match lookup(t, context) {
        Some(ts) => Some(ts),
        None => if smoothing && context.len() > 0 {
            resolve(t, smoothing, context.drop_first())
        } else {
            None
        },
    }
}

/// A context resolves to the tallies of its longest stored suffix.
pub proof fn lemma_resolve_suffix(
    t: Seq<RowView>,
    context: Seq<Seq<char>>,
    k: int,
)
    requires
        0 <= k <= context.len(),
        forall|j: int| 0 <= j < k ==> lookup(t, #[trigger] context.skip(j)) is None,
    ensures
        resolve(t, true, context) == resolve(t, true, context.skip(k)),
    decreases k,
{
    if k == 0 {
        assert(context.skip(0) == context);
    } else {
        lemma_resolve_suffix(t, context, k - 1);
        assert(lookup(t, context.skip(k - 1)) is None);
        assert(context.skip(k - 1).drop_first() == context.skip(k));
    }
}

/// Nothing resolves against a table without rows.
pub proof fn lemma_resolve_empty(smoothing: bool, context: Seq<Seq<char>>)
    ensures
        resolve(Seq::<RowView>::empty(), smoothing, context) is None,
    decreases context.len(),
{
    lemma_context_absent(Seq::<RowView>::empty(), context);
    if smoothing && context.len() > 0 {
        lemma_resolve_empty(smoothing, context.drop_first());
    }
}

impl Table {
    /// The place of the row that the tokens of `tokens` from place `from` on
    /// resolve to, if any.
    pub fn resolve(&self, tokens: &Vec<String>, from: usize, smoothing: bool) -> (r: Option<usize>)
        requires
            from <= tokens.len(),
        ensures
            match r {
                Some(i) => i < self@.len() && resolve(
                    self@,
                    smoothing,
                    tokens.deep_view().skip(from as int),
                ) == Some(self@[i as int].tallies),
                None => resolve(self@, smoothing, tokens.deep_view().skip(from as int)) is None,
            },
    {
        let ghost all = tokens.deep_view();
        let mut start: usize = from;
        loop
            invariant
                from <= start <= tokens.len(),
                all == tokens.deep_view(),
                resolve(self@, smoothing, all.skip(from as int)) == resolve(
                    self@,
                    smoothing,
                    all.skip(start as int),
                ),
            decreases tokens.len() - start,
        {
            match self.find_from(tokens, start) {
                Some(i) => {
                    proof {
                        lemma_context_index(self@, all.skip(start as int), i as int);
                    }
                    return Some(i);
                },
                None => {
                    if smoothing && start < tokens.len() {
                        assert(all.skip(start as int).drop_first() == all.skip(start + 1));
                        start += 1;
                    } else {
                        return None;
                    }
                },
            }
        }
    }
}

} // verus!
