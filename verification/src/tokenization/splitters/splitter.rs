//! What every splitter offers.

use vstd::prelude::*;
use crate::tokenization::token::Token;

verus! {

/// Turns a corpus into its initial token sequence.
pub trait Splitter {
    /// The words of the tokens that the splitter makes of `corpus`.
    spec fn tokens_of(&self, corpus: Seq<char>) -> Seq<Seq<char>>;

    /// Splits `corpus` into tokens. An empty corpus has none.
    fn split(&self, corpus: &str) -> (tokens: Vec<Token>)
        ensures
            tokens.deep_view() == self.tokens_of(corpus@),
            corpus@.len() == 0 ==> tokens.len() == 0,
    ;
}

} // verus!
