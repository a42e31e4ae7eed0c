//! What every pre-tokenizer offers.

use vstd::prelude::*;
use crate::tokenization::token::Token;

verus! {

/// A stage of the chain: a function from a token sequence to a token sequence
/// that keeps no state between calls.
pub trait PreTokenizer {
    /// The words of the tokens that the stage makes of the tokens with `words`.
    spec fn pre_tokenized(&self, words: Seq<Seq<char>>) -> Seq<Seq<char>>;

    /// Applies the stage to `tokens`. Of no token it makes none.
    fn pre_tokenize(&self, tokens: &Vec<Token>) -> (out: Vec<Token>)
        ensures
            out.deep_view() == self.pre_tokenized(tokens.deep_view()),
            tokens.len() == 0 ==> out.len() == 0,
    ;
}

} // verus!
