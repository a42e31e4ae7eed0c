//! The basic tokenizer: a vocabulary, the whitespace splitter with a chain
//! of pre-tokenizers behind it, and the lookup of a corpus against the
//! vocabulary.

use vstd::prelude::*;
use crate::tokenization::pre_tokenizers::{chained, run_chain, PreTokenizerKind};
use crate::tokenization::splitters::splitter::Splitter;
use crate::tokenization::splitters::whitespace::Whitespace;
use crate::tokenization::token::{Token, Word};
use crate::tokenization::tokenizers::tokenizer::{distinct_words, look_up, looked_up, Tokenizer};
use crate::utils::sequences::first_occurrences;
use crate::utils::text::copy_words;

verus! {

/// A copy of `kinds`.
pub fn copy_kinds(kinds: &Vec<PreTokenizerKind>) -> (copy: Vec<PreTokenizerKind>)
    ensures
        copy@ == kinds@,
{
    let mut copy: Vec<PreTokenizerKind> = Vec::new();
    let mut i: usize = 0;
    while i < kinds.len()
        invariant
            i <= kinds.len(),
            copy@ == kinds@.take(i as int),
        decreases kinds.len() - i,
    {
        copy.push(kinds[i]);
        assert(copy@ =~= kinds@.take(i + 1));
        i += 1;
    }
    assert(kinds@.take(kinds.len() as int) =~= kinds@);
    copy
}

/// A tokenizer that holds a vocabulary and maps a corpus onto it.
pub struct BasicTokenizer {
    /// The words that the tokenizer knows: what it was seeded with, then what
    /// each fit appended.
    pub vocabulary: Vec<Word>,
    /// The chain of pre-tokenizers, in the order in which they are applied.
    pub pre_tokenizers: Vec<PreTokenizerKind>,
}

impl BasicTokenizer {
    /// The chain of pre-tokenizers, in the order in which they are applied.
    pub open spec fn stages(&self) -> Seq<PreTokenizerKind> {
        self.pre_tokenizers@
    }

    /// The words of the tokens that preprocessing makes of `corpus`: what the
    /// whitespace splitter gives, taken through the chain.
    pub open spec fn pre_processed(&self, corpus: Seq<char>) -> Seq<Seq<char>> {
        chained(self.stages(), Whitespace.tokens_of(corpus), self.stages().len() as int)
    }

    /// A tokenizer with the given vocabulary and chain; each is empty where
    /// none is given.
    pub fn new_(vocabulary: Option<&Vec<Word>>, pre_tokenizers: Option<&Vec<PreTokenizerKind>>) -> (tokenizer:
        Self)
        ensures
            tokenizer.vocabulary.deep_view() == match vocabulary {
                Some(words) => words.deep_view(),
                None => Seq::empty(),
            },
            tokenizer.stages() == match pre_tokenizers {
                Some(kinds) => kinds@,
                None => Seq::empty(),
            },
    {
        let vocabulary = match vocabulary {
            Some(words) => copy_words(words),
            None => Vec::new(),
        };
        let pre_tokenizers = match pre_tokenizers {
            Some(kinds) => copy_kinds(kinds),
            None => Vec::new(),
        };
        assert(vocabulary.len() == 0 ==> vocabulary.deep_view() =~= Seq::<Seq<char>>::empty());
        BasicTokenizer { pre_tokenizers, vocabulary }
    }

    /// A tokenizer with the given vocabulary and chain.
    pub fn new(vocabulary: Vec<Word>, pre_tokenizers: Vec<PreTokenizerKind>) -> (tokenizer: Self)
        ensures
            tokenizer.vocabulary.deep_view() == vocabulary.deep_view(),
            tokenizer.stages() == pre_tokenizers@,
    {
        BasicTokenizer::new_(Some(&vocabulary), Some(&pre_tokenizers))
    }

    /// Preprocesses `corpus`: the whitespace splitter, then the chain.
    pub fn pre_process(&self, corpus: &str) -> (tokens: Vec<Token>)
        ensures
            tokens.deep_view() == self.pre_processed(corpus@),
            corpus@.len() == 0 ==> tokens.len() == 0,
    {
        let tokens = Whitespace.split(corpus);
        run_chain(&self.pre_tokenizers, tokens)
    }

    /// Appends the vocabulary of `corpus` to the vocabulary held. A word that
    /// the vocabulary held before is appended again: duplicates are removed
    /// within the corpus only.
    pub fn fit(&mut self, corpus: &str)
        ensures
            final(self).stages() == old(self).stages(),
            final(self).vocabulary.deep_view() == old(self).vocabulary.deep_view()
                + first_occurrences(old(self).pre_processed(corpus@)),
            corpus@.len() == 0 ==> final(self).vocabulary.deep_view() == old(
                self,
            ).vocabulary.deep_view(),
    {
        let tokens = self.pre_process(corpus);
        let mut extracted = distinct_words(&tokens);
        let ghost before = self.vocabulary.deep_view();
        let ghost added = extracted.deep_view();
        self.vocabulary.append(&mut extracted);
        assert(self.vocabulary.deep_view() =~= before + added);
        assert(added.len() == 0 ==> before + added =~= before);
    }

    /// Preprocesses `corpus` and maps its tokens onto the vocabulary held.
    pub fn transform(&self, corpus: &str) -> (tokens: Vec<Token>)
        ensures
            tokens.deep_view() == looked_up(
                self.vocabulary.deep_view(),
                self.pre_processed(corpus@),
            ),
            corpus@.len() == 0 ==> tokens.len() == 0,
    {
        let tokens = self.pre_process(corpus);
        look_up(&self.vocabulary, &tokens)
    }

    /// `fit`, then `transform` on the same corpus.
    pub fn fit_transform(&mut self, corpus: &str) -> (tokens: Vec<Token>)
        ensures
            final(self).stages() == old(self).stages(),
            final(self).vocabulary.deep_view() == old(self).vocabulary.deep_view()
                + first_occurrences(old(self).pre_processed(corpus@)),
            tokens.deep_view() == looked_up(
                final(self).vocabulary.deep_view(),
                old(self).pre_processed(corpus@),
            ),
    {
        self.fit(corpus);
        self.transform(corpus)
    }

    /// A copy of the vocabulary held.
    pub fn vocabulary(&self) -> (words: Vec<Word>)
        ensures
            words.deep_view() == self.vocabulary.deep_view(),
    {
        copy_words(&self.vocabulary)
    }
}

impl Tokenizer for BasicTokenizer {
    open spec fn transformed(&self, corpus: Seq<char>) -> Seq<Seq<char>> {
        looked_up(self.vocabulary.deep_view(), self.pre_processed(corpus))
    }

    open spec fn fit_to(&self, corpus: Seq<char>, fitted: &Self) -> bool {
        &&& fitted.stages() == self.stages()
        &&& fitted.vocabulary.deep_view() == self.vocabulary.deep_view() + first_occurrences(
            self.pre_processed(corpus),
        )
    }

    fn transform_(&self, corpus: &str) -> (tokens: Vec<Token>) {
        self.transform(corpus)
    }

    fn fit_(&mut self, corpus: &str) {
        self.fit(corpus)
    }
}

} // verus!
