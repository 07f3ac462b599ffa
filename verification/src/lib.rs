//! A statistical n-gram language model with verified contracts.
//!
//! The model counts, for every context of a fixed number of tokens, how often
//! each token followed it, and predicts or generates text from those counts.
//! Lookups of unseen contexts may back off to shorter ones, and predictions are
//! drawn from a top fraction of the continuations ranked by count.

pub mod backoff;
pub mod codec;
pub mod config;
pub mod corpus;
pub mod error;
pub mod json;
pub mod laws;
pub mod model;
pub mod ngram;
pub mod persist;
pub mod prediction;
mod random;
pub mod rank;
pub mod table;
pub mod text;
pub mod training;

pub use codec::{decode_context, encode_context, SPLIT_TOKEN};
pub use config::{
    Config, DEFAULT_CONTEXT, DEFAULT_SAMPLING_DEN, DEFAULT_SAMPLING_NUM, DEFAULT_SMOOTHING,
};
pub use corpus::{tiny_corpus, TINY_CORPUS, TINY_CORPUS_LEN};
pub use error::{LoadError, SaveError, TrainError};
pub use model::{chosen_or_end, saved_text, Model};
pub use ngram::{cut, n_grams};
pub use rank::{rank, top_candidates};
pub use table::{Row, Table, Tally};
pub use text::{eos, is_whitespace, sos, tokenize, EOS, SOS};
