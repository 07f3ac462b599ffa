//! The configuration of a model.

use vstd::prelude::*;

verus! {

/// The default number of preceding tokens that predict the next one.
pub const DEFAULT_CONTEXT: usize = 2;

/// Whether lookups back off to shorter contexts by default.
pub const DEFAULT_SMOOTHING: bool = true;

/// The numerator of the default sampling fraction, four fifths.
pub const DEFAULT_SAMPLING_NUM: u64 = 4;

/// The denominator of the default sampling fraction, four fifths.
pub const DEFAULT_SAMPLING_DEN: u64 = 5;

/// The configuration of a model: the context size, whether lookups of unseen
/// contexts back off to shorter ones, and the fraction
/// `sampling_num / sampling_den` of the top-ranked continuations among which a
/// prediction is drawn.
#[derive(Debug, Clone, Copy)]
pub struct Config {
    pub context: usize,
    pub smoothing: bool,
    pub sampling_num: u64,
    pub sampling_den: u64,
}

impl Config {
    /// The context size is at least 1 and leaves room for the window size,
    /// which is one more; the sampling fraction is above 0 and at most 1.
    pub open spec fn wf(&self) -> bool {
        &&& 1 <= self.context < usize::MAX
        &&& 0 < self.sampling_num <= self.sampling_den
    }

    /// The size of the windows that training reads: a context and the token
    /// after it.
    pub open spec fn window(&self) -> int {
        self.context + 1
    }

    /// A configuration with the context size `context`, backoff as `smoothing`
    /// says, and the sampling fraction `sampling_num / sampling_den`.
    pub fn new(context: usize, smoothing: bool, sampling_num: u64, sampling_den: u64) -> (r:
        Config)
        requires
            1 <= context < usize::MAX,
            0 < sampling_num <= sampling_den,
        ensures
            r == (Config { context, smoothing, sampling_num, sampling_den }),
            r.wf(),
    {
        Config { context, smoothing, sampling_num, sampling_den }
    }

    /// Whether the configuration is well formed.
    pub fn is_valid(&self) -> (b: bool)
        ensures
            b == self.wf(),
    {
        1 <= self.context && self.context < usize::MAX && 0 < self.sampling_num
            && self.sampling_num <= self.sampling_den
    }
}

impl Default for Config {
    /// Contexts of two tokens, with backoff, and a sampling fraction of four
    /// fifths.
    fn default() -> (r: Config)
        ensures
            r == (Config {
                context: DEFAULT_CONTEXT,
                smoothing: DEFAULT_SMOOTHING,
                sampling_num: DEFAULT_SAMPLING_NUM,
                sampling_den: DEFAULT_SAMPLING_DEN,
            }),
            r.wf(),
    {
        Config {
            context: DEFAULT_CONTEXT,
            smoothing: DEFAULT_SMOOTHING,
            sampling_num: DEFAULT_SAMPLING_NUM,
            sampling_den: DEFAULT_SAMPLING_DEN,
        }
    }
}

} // verus!
