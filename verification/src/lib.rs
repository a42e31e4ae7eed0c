//! Text tokenization for statistical language modelling: a composable
//! preprocessing pipeline and a byte-pair encoding engine, with their
//! behaviour stated in contracts and proved.
//!
//! * `tokenization` holds the tokens, the splitter, the pre-tokenizers, the
//!   vocabulary tokenizers, the pipeline that composes them, and byte-pair
//!   encoding with its training.
//! * `models` holds what the models that consume word sequences count: the
//!   n-grams of a sentence and the counts of the n-gram model.
//! * `utils` holds what these share: notions on sequences, runs of characters
//!   of a class, pattern matching, and padding.
//!
//! Five calls leave the verified code, each behind a contract that is believed
//! and not proved: pattern matching by `regex` (`utils::patterns::find_spans`),
//! deduplication by `itertools` (`tokenization::tokenizers::tokenizer::unique_words`),
//! a weighted draw by `rand` (`models::language::mle::draw_index`), and the
//! standard library's `char::to_string` and `str::to_lowercase` (`utils::text`).
//! Where a stage cuts a word into runs of characters, the pieces that pattern
//! matching gives are checked by verified code to be those runs.

pub mod models;
pub mod tokenization;
pub mod utils;
