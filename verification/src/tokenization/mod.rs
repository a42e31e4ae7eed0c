//! Tokens, the stages that produce them, and the tokenizers built on them.

pub mod pipeline;
pub mod pre_tokenizers;
pub mod special_tokens;
pub mod splitters;
pub mod token;
pub mod tokenizers;
