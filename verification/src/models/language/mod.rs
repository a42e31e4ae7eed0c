//! Language models.

pub mod mle;
