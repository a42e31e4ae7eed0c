//! The first stage: from a corpus to its initial tokens.

pub mod splitter;
pub mod whitespace;
