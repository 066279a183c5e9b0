//! A statistical spam/ham text classifier that learns from labelled examples.
//!
//! Text is split into normalized tokens, each token's training counts are kept
//! in a frequency table, a word scorer turns counts into an exact rational
//! spam rating, and long messages are trimmed to their most extreme ratings.
pub mod model;
pub mod natural;
pub mod rating;
pub mod table;
pub mod tokenizer;

pub use crate::model::{classify_ratings, parse_label, ClassifiedType, Model, TrainExample};
pub use crate::rating::Rating;
pub use crate::table::{Counter, ExampleType, FrequencyTable, TableView};
