//! Small helpers shared by the tokenizers and the models built on them.

pub mod patterns;
pub mod runs;
pub mod sequences;
pub mod text;
pub mod wrappers;
