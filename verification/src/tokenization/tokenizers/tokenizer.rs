//! The tokenizer role: deriving a vocabulary from tokens, and mapping tokens
//! onto a vocabulary with the unknown-token sentinel for what it lacks.

use vstd::prelude::*;
use itertools::Itertools;
use crate::tokenization::special_tokens::UNK;
use crate::tokenization::token::{Token, Word};
use crate::utils::sequences::{first_occurrences, lemma_first_occurrences};
use crate::utils::text::find_word;

verus! {

/// What a lookup makes of one word: the word itself where the vocabulary
/// holds it, the unknown-token sentinel where it does not.
pub open spec fn looked_up_word(vocabulary: Seq<Seq<char>>, word: Seq<char>) -> Seq<char> {
    if vocabulary.contains(word) {
        word
    } else {
        UNK@
    }
}

/// What a lookup makes of a token sequence, token by token.
pub open spec fn looked_up(vocabulary: Seq<Seq<char>>, words: Seq<Seq<char>>) -> Seq<Seq<char>> {
    Seq::new(words.len(), |i: int| looked_up_word(vocabulary, words[i]))
}

/// Calls `Itertools::unique` on the words and collects what it yields. The
/// contract claims what the crate documents: every word once, at the place
/// where it first occurs.
#[verifier::external_body]
pub(crate) fn unique_words(words: Vec<Word>) -> (distinct: Vec<Word>)
    ensures
        distinct.deep_view() == first_occurrences(words.deep_view()),
{
    words.into_iter().unique().collect()
}

/// The vocabulary of a token sequence: its distinct words in the order in
/// which they first occur.
pub fn distinct_words(tokens: &Vec<Token>) -> (vocabulary: Vec<Word>)
    ensures
        vocabulary.deep_view() == first_occurrences(tokens.deep_view()),
        vocabulary.deep_view().no_duplicates(),
        tokens.len() == 0 ==> vocabulary.len() == 0,
{
    let mut words: Vec<Word> = Vec::new();
    let mut i: usize = 0;
    while i < tokens.len()
        invariant
            i <= tokens.len(),
            words.len() == i,
            forall|j: int| 0 <= j < i ==> words[j]@ == tokens[j]@,
        decreases tokens.len() - i,
    {
        words.push(tokens[i].word.clone());
        i += 1;
    }
    proof {
        assert(words.deep_view() =~= tokens.deep_view());
        lemma_first_occurrences(tokens.deep_view());
    }
    let vocabulary = unique_words(words);
    assert(tokens.len() == 0 ==> vocabulary.deep_view().len() == 0);
    vocabulary
}

/// Maps `tokens` onto `vocabulary`: a token whose word is a member stays as it
/// is, any other becomes the unknown-token sentinel.
pub fn look_up(vocabulary: &Vec<Word>, tokens: &Vec<Token>) -> (out: Vec<Token>)
    ensures
        out.deep_view() == looked_up(vocabulary.deep_view(), tokens.deep_view()),
        out.len() == tokens.len(),
{
    let mut out: Vec<Token> = Vec::new();
    let mut i: usize = 0;
    while i < tokens.len()
        invariant
            i <= tokens.len(),
            out.len() == i,
            forall|j: int|
                0 <= j < i ==> (#[trigger] out[j])@ == looked_up_word(
                    vocabulary.deep_view(),
                    tokens[j]@,
                ),
        decreases tokens.len() - i,
    {
        match find_word(vocabulary, &tokens[i].word) {
            Some(_) => out.push(tokens[i].duplicate()),
            None => out.push(Token::new(UNK)),
        }
        i += 1;
    }
    assert(out.deep_view() =~= looked_up(vocabulary.deep_view(), tokens.deep_view()));
    out
}

/// What a tokenizer offers. `transform_` and `fit_` are its own;
/// `extract_vocabulary` and `tokenize` are the same for every tokenizer.
pub trait Tokenizer {
    /// The words of the tokens that the tokenizer makes of `corpus`.
    spec fn transformed(&self, corpus: Seq<char>) -> Seq<Seq<char>>;

    /// Whether `fitted` is this tokenizer after it was fitted to `corpus`.
    spec fn fit_to(&self, corpus: Seq<char>, fitted: &Self) -> bool;

    /// Turns `corpus` into tokens. An empty corpus gives none.
    fn transform_(&self, corpus: &str) -> (tokens: Vec<Token>)
        ensures
            tokens.deep_view() == self.transformed(corpus@),
            corpus@.len() == 0 ==> tokens.len() == 0,
    ;

    /// Fits the tokenizer to `corpus`.
    fn fit_(&mut self, corpus: &str)
        ensures
            old(self).fit_to(corpus@, final(self)),
    ;

    /// Fits the tokenizer to `corpus`, then turns the same corpus into tokens.
    fn fit_transform_(&mut self, corpus: &str) -> (tokens: Vec<Token>)
        ensures
            old(self).fit_to(corpus@, final(self)),
            tokens.deep_view() == final(self).transformed(corpus@),
            corpus@.len() == 0 ==> tokens.len() == 0,
    {
        self.fit_(corpus);
        self.transform_(corpus)
    }

    /// The vocabulary of a token sequence: its distinct words in the order in
    /// which they first occur.
    fn extract_vocabulary(&self, tokens: &Vec<Token>) -> (vocabulary: Vec<Word>)
        ensures
            vocabulary.deep_view() == first_occurrences(tokens.deep_view()),
            vocabulary.deep_view().no_duplicates(),
            tokens.len() == 0 ==> vocabulary.len() == 0,
    {
        distinct_words(tokens)
    }

    /// Maps `tokens` onto `vocabulary`: a token whose word is a member stays
    /// as it is, any other becomes the unknown-token sentinel.
    fn tokenize(&self, vocabulary: &Vec<Word>, tokens: &Vec<Token>) -> (out: Vec<Token>)
        ensures
            out.deep_view() == looked_up(vocabulary.deep_view(), tokens.deep_view()),
            out.len() == tokens.len(),
    {
        look_up(vocabulary, tokens)
    }
}

/// A lookup keeps the length of the token sequence.
pub proof fn lemma_lookup_keeps_length(vocabulary: Seq<Seq<char>>, words: Seq<Seq<char>>)
    ensures
        looked_up(vocabulary, words).len() == words.len(),
{
}

/// A lookup changes nothing where every word is in the vocabulary.
pub proof fn lemma_lookup_of_known_words(vocabulary: Seq<Seq<char>>, words: Seq<Seq<char>>)
    requires
        forall|i: int| 0 <= i < words.len() ==> vocabulary.contains(#[trigger] words[i]),
    ensures
        looked_up(vocabulary, words) == words,
{
    assert(looked_up(vocabulary, words) =~= words);
}

/// A lookup replaces a word by the unknown-token sentinel where the
/// vocabulary lacks it, and nowhere else.
pub proof fn lemma_lookup_replaces_unknown_words(
    vocabulary: Seq<Seq<char>>,
    words: Seq<Seq<char>>,
    i: int,
)
    requires
        0 <= i < words.len(),
    ensures
        !vocabulary.contains(words[i]) ==> looked_up(vocabulary, words)[i] == UNK@,
        vocabulary.contains(words[i]) ==> looked_up(vocabulary, words)[i] == words[i],
{
}

/// A lookup against the vocabulary of the same tokens changes nothing.
pub proof fn lemma_lookup_in_own_vocabulary(words: Seq<Seq<char>>)
    ensures
        looked_up(first_occurrences(words), words) == words,
{
    lemma_first_occurrences(words);
    assert forall|i: int| 0 <= i < words.len() implies first_occurrences(words).contains(
        #[trigger] words[i],
    ) by {
        assert(words.contains(words[i]));
    }
    lemma_lookup_of_known_words(first_occurrences(words), words);
}

} // verus!
