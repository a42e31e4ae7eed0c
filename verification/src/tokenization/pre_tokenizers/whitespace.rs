//! Whitespace splitting: runs of whitespace inside a token separate tokens.

use vstd::prelude::*;
use crate::tokenization::pre_tokenizers::pre_tokenizer::PreTokenizer;
use crate::tokenization::pre_tokenizers::utils::{cut_all, cut_tokens};
use crate::tokenization::token::Token;
use crate::utils::runs::{CharClass, Keep};

verus! {

/// Splits every token into its runs of whitespace and of other characters,
/// and keeps the others: no token is made of the whitespace itself.
pub struct WhiteSpace;

impl PreTokenizer for WhiteSpace {
    open spec fn pre_tokenized(&self, words: Seq<Seq<char>>) -> Seq<Seq<char>> {
        cut_all(words, CharClass::Whitespace, Keep::Others)
    }

    fn pre_tokenize(&self, tokens: &Vec<Token>) -> (out: Vec<Token>) {
        cut_tokens(tokens, CharClass::Whitespace, Keep::Others)
    }
}

} // verus!
