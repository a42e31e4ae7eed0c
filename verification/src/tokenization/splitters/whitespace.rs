//! Splitting a corpus into its runs of characters that are not whitespace.

use vstd::prelude::*;
use crate::tokenization::pre_tokenizers::utils::{cut_token, cut_word};
use crate::tokenization::splitters::splitter::Splitter;
use crate::tokenization::token::Token;
use crate::utils::runs::{CharClass, Keep};

verus! {

/// Splits on whitespace: every run of other characters is a token, and
/// whitespace itself gives none. An empty corpus has no token.
pub struct Whitespace;

impl Splitter for Whitespace {
    open spec fn tokens_of(&self, corpus: Seq<char>) -> Seq<Seq<char>> {
        if corpus.len() == 0 {
            Seq::empty()
        } else {
            cut_word(corpus, CharClass::NonWhitespace, Keep::Members)
        }
    }

    fn split(&self, corpus: &str) -> (tokens: Vec<Token>) {
        if corpus.is_empty() {
            let tokens: Vec<Token> = Vec::new();
            assert(tokens.deep_view() =~= Seq::<Seq<char>>::empty());
            tokens
        } else {
            cut_token(&Token::new(corpus), CharClass::NonWhitespace, Keep::Members)
        }
    }
}

} // verus!
