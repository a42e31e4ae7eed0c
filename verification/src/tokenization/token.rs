//! The unit that flows through every stage: a token wraps one word.

use vstd::prelude::*;

verus! {

/// A word is a plain string; vocabulary membership is decided on its characters.
pub type Word = String;

/// A token wraps exactly one word and carries nothing else.
#[derive(Clone, Debug, PartialEq)]
pub struct Token {
    pub word: Word,
}

impl View for Token {
    type V = Seq<char>;

    /// A token is its word's characters.
    open spec fn view(&self) -> Seq<char> {
        self.word@
    }
}

impl DeepView for Token {
    type V = Seq<char>;

    open spec fn deep_view(&self) -> Seq<char> {
        self.word@
    }
}

impl Token {
    /// A token for the given word.
    pub fn new(word: &str) -> (token: Token)
        ensures
            token@ == word@,
    {
        Token { word: word.to_owned() }
    }

    /// The text a token displays as: its word.
    pub fn to_string(&self) -> (text: String)
        ensures
            text@ == self@,
    {
        self.word.clone()
    }

    /// A copy of the token with the same word.
    pub fn duplicate(&self) -> (token: Token)
        ensures
            token@ == self@,
    {
        Token { word: self.word.clone() }
    }
}

} // verus!
