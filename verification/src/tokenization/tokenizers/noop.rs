//! The tokenizer that a pipeline holds when it is given none.

use vstd::prelude::*;
use crate::tokenization::token::Token;
use crate::tokenization::tokenizers::tokenizer::Tokenizer;

verus! {

/// Passes a corpus through as one token and learns nothing. An empty corpus
/// gives no token.
pub struct NoopTokenizer;

impl Tokenizer for NoopTokenizer {
    open spec fn transformed(&self, corpus: Seq<char>) -> Seq<Seq<char>> {
        if corpus.len() == 0 {
            Seq::empty()
        } else {
            seq![corpus]
        }
    }

    open spec fn fit_to(&self, corpus: Seq<char>, fitted: &Self) -> bool {
        true
    }

    fn transform_(&self, corpus: &str) -> (tokens: Vec<Token>) {
        let mut tokens: Vec<Token> = Vec::new();
        if corpus.is_empty() {
            assert(tokens.deep_view() =~= Seq::<Seq<char>>::empty());
        } else {
            tokens.push(Token::new(corpus));
            assert(tokens.deep_view() =~= seq![corpus@]);
        }
        tokens
    }

    fn fit_(&mut self, corpus: &str) {
    }
}

} // verus!
