//! A Naive Bayes spam filter model: packed token counters, an immutable
//! sorted token store, the statistics derived from it, and the trainer that
//! builds and merges stores from labelled text.

pub mod counter;
pub mod order;
pub mod store;
pub mod stats;
pub mod model;
pub mod tokenizer;
pub mod trainer;
pub mod dataset;
pub mod classifier;
