//! Vocabulary tokenizers and the byte-pair encoding engine.

pub mod basic;
pub mod bpe;
pub mod noop;
pub mod symbols;
pub mod tokenizer;
pub mod training;
