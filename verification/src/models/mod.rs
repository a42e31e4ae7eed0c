//! The statistical models that consume word sequences.

pub mod language;
pub mod utils;
