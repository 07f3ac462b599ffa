//! What a prediction may return, and what a generation may append.

use crate::backoff::resolve;
use crate::config::Config;
use crate::ngram::recent;
use crate::rank::candidates;
use crate::table::RowView;
use crate::text::EOS;
use vstd::prelude::*;

verus! {

/// The tokens among which the prediction after `tokens` is drawn: the
/// candidates of the tallies that the most recent tokens resolve to, and none
/// where they resolve to nothing.
pub open spec fn eligible(t: Seq<RowView>, config: Config, tokens: Seq<Seq<char>>) -> Seq<
    Seq<char>,
> {
    match resolve(t, config.smoothing, recent(tokens, config.context as int)) {
        Some(ts) => candidates(ts, config.sampling_num as nat, config.sampling_den as nat),
        None => Seq::empty(),
    }
}

/// `token` may be predicted after `tokens`: it is one of the eligible tokens,
/// or the end marker where none is eligible.
pub open spec fn is_prediction(
    t: Seq<RowView>,
    config: Config,
    tokens: Seq<Seq<char>>,
    token: Seq<char>,
) -> bool {
    if eligible(t, config, tokens).len() == 0 {
        token == EOS@
    } else {
        eligible(t, config, tokens).contains(token)
    }
}

/// `after` may come out of a generation of at most `max` steps that started
/// from `before`: it continues `before` by at most `max` tokens, each a
/// prediction after all tokens in front of it; no appended token but the last
/// is the end marker; and where fewer than `max` tokens were appended, the
/// last one is.
pub open spec fn is_generation(
    t: Seq<RowView>,
    config: Config,
    before: Seq<Seq<char>>,
    after: Seq<Seq<char>>,
    max: nat,
) -> bool {
    &&& before.len() <= after.len() <= before.len() + max
    &&& after.take(before.len() as int) == before
    &&& forall|p: int|
        before.len() <= p < after.len() ==> is_prediction(t, config, after.take(p), #[trigger] after[p])
    &&& forall|p: int| before.len() <= p < after.len() - 1 ==> #[trigger] after[p] != EOS@
    &&& after.len() < before.len() + max ==> after.len() > before.len() && after.last() == EOS@
}

/// Only the most recent tokens, as many as a context holds, bear on a
/// prediction.
pub proof fn lemma_eligible_recent(t: Seq<RowView>, config: Config, tokens: Seq<Seq<char>>)
    ensures
        eligible(t, config, recent(tokens, config.context as int)) == eligible(t, config, tokens),
        forall|token: Seq<char>|
            is_prediction(t, config, recent(tokens, config.context as int), token)
                == #[trigger] is_prediction(t, config, tokens, token),
{
    crate::ngram::lemma_recent_twice(tokens, config.context as int);
}

} // verus!
