//! Case folding: every token's word in lowercase.

use vstd::prelude::*;
use crate::tokenization::pre_tokenizers::pre_tokenizer::PreTokenizer;
use crate::tokenization::token::Token;
use crate::utils::text::{lowercase_of, to_lowercase};

verus! {

/// Every word in lowercase, in the same order.
pub open spec fn lowercased(words: Seq<Seq<char>>) -> Seq<Seq<char>> {
    Seq::new(words.len(), |i: int| lowercase_of(words[i]))
}

/// Lowercases every token; the number of tokens stays the same.
pub struct CaseFold;

impl PreTokenizer for CaseFold {
    open spec fn pre_tokenized(&self, words: Seq<Seq<char>>) -> Seq<Seq<char>> {
        lowercased(words)
    }

    fn pre_tokenize(&self, tokens: &Vec<Token>) -> (out: Vec<Token>)
        ensures
            out.len() == tokens.len(),
    {
        let mut out: Vec<Token> = Vec::new();
        let mut i: usize = 0;
        while i < tokens.len()
            invariant
                i <= tokens.len(),
                out.len() == i,
                forall|j: int| 0 <= j < i ==> (#[trigger] out[j])@ == lowercase_of(tokens[j]@),
            decreases tokens.len() - i,
        {
            out.push(Token { word: to_lowercase(tokens[i].word.as_str()) });
            i += 1;
        }
        assert(out.deep_view() =~= lowercased(tokens.deep_view()));
        out
    }
}

} // verus!
