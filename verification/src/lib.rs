//! Constrained multi-group search over candidate recovery phrases.
//!
//! Words are mapped to dense tokens, every ordered arrangement of `k` tokens
//! is drawn from each group, arrangements that miss a group's required tokens
//! are pruned, and the surviving arrangements of all groups are composed into
//! candidate phrases that are judged one by one.

pub mod arrangement;
pub mod composer;
pub mod distinct;
pub mod pipeline;
pub mod progress;
pub mod search;
pub mod setup;
pub mod tokenizer;
