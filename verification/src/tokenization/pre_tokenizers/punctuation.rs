//! Punctuation splitting: runs of punctuation become tokens of their own.

use vstd::prelude::*;
use crate::tokenization::pre_tokenizers::pre_tokenizer::PreTokenizer;
use crate::tokenization::pre_tokenizers::utils::{cut_all, cut_tokens};
use crate::tokenization::token::Token;
use crate::utils::runs::{CharClass, Keep};

verus! {

/// Splits every token into its runs of punctuation and of other characters;
/// both kinds become tokens, in the order in which they stand in the word.
pub struct Punctuation;

impl PreTokenizer for Punctuation {
    open spec fn pre_tokenized(&self, words: Seq<Seq<char>>) -> Seq<Seq<char>> {
        cut_all(words, CharClass::Punctuation, Keep::All)
    }

    fn pre_tokenize(&self, tokens: &Vec<Token>) -> (out: Vec<Token>) {
        cut_tokens(tokens, CharClass::Punctuation, Keep::All)
    }
}

} // verus!
