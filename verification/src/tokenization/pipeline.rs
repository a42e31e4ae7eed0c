//! The pipeline: a splitter, a chain of pre-tokenizers and a tokenizer,
//! composed into fit and transform.

use vstd::prelude::*;
use crate::tokenization::pre_tokenizers::pre_tokenizer::PreTokenizer;
use crate::tokenization::pre_tokenizers::{
    chained, lemma_chain_of_nothing, run_chain, PreTokenizerKind,
};
use crate::tokenization::splitters::splitter::Splitter;
use crate::tokenization::splitters::whitespace::Whitespace;
use crate::tokenization::token::{Token, Word};
use crate::tokenization::tokenizers::noop::NoopTokenizer;
use crate::tokenization::tokenizers::tokenizer::{
    lemma_lookup_in_own_vocabulary, looked_up, Tokenizer,
};
use crate::utils::sequences::first_occurrences;

verus! {

/// A pipeline owns its stages and the vocabulary that the last fit derived.
pub struct TokenizationPipeline<S: Splitter, P: PreTokenizer, T: Tokenizer> {
    /// The vocabulary of the corpus that the pipeline was last fitted to.
    pub vocabulary: Vec<Word>,
    /// The first stage.
    pub splitter: S,
    /// The chain, in the order in which it is applied.
    pub pre_tokenizers: Vec<P>,
    /// The tokenizer that extracts and looks up; `None` stands for the
    /// tokenizer that passes everything through.
    pub tokenizer: Option<T>,
}

impl<S: Splitter, P: PreTokenizer, T: Tokenizer> TokenizationPipeline<S, P, T> {
    /// The words of the tokens that preprocessing makes of `corpus`: what the
    /// splitter gives, taken through the chain.
    pub open spec fn pre_processed(&self, corpus: Seq<char>) -> Seq<Seq<char>> {
        chained(
            self.pre_tokenizers@,
            self.splitter.tokens_of(corpus),
            self.pre_tokenizers.len() as int,
        )
    }

    /// A pipeline of the given stages with an empty vocabulary. Without
    /// pre-tokenizers the chain is empty.
    pub fn new(splitter: S, pre_tokenizers: Option<Vec<P>>, tokenizer: Option<T>) -> (pipeline:
        Self)
        ensures
            pipeline.vocabulary@.len() == 0,
            pipeline.splitter == splitter,
            pipeline.pre_tokenizers@ == match pre_tokenizers {
                Some(stages) => stages@,
                None => Seq::empty(),
            },
            pipeline.tokenizer == tokenizer,
    {
        TokenizationPipeline {
            splitter,
            pre_tokenizers: match pre_tokenizers {
                None => Vec::new(),
                Some(stages) => stages,
            },
            tokenizer,
            vocabulary: Vec::new(),
        }
    }

    /// Preprocesses `corpus`: the splitter, then the chain.
    pub fn pre_process(&self, corpus: &str) -> (tokens: Vec<Token>)
        ensures
            tokens.deep_view() == self.pre_processed(corpus@),
            corpus@.len() == 0 ==> tokens.len() == 0,
    {
        let tokens = self.splitter.split(corpus);
        run_chain(&self.pre_tokenizers, tokens)
    }

    /// Replaces the vocabulary by that of `corpus`: the distinct words of its
    /// preprocessed tokens, in the order in which they first occur.
    pub fn fit(&mut self, corpus: &str)
        ensures
            final(self).vocabulary.deep_view() == first_occurrences(
                old(self).pre_processed(corpus@),
            ),
            final(self).vocabulary.deep_view().no_duplicates(),
            corpus@.len() == 0 ==> final(self).vocabulary.len() == 0,
            final(self).splitter == old(self).splitter,
            final(self).pre_tokenizers == old(self).pre_tokenizers,
            final(self).tokenizer == old(self).tokenizer,
    {
        let tokens = self.pre_process(corpus);
        let vocabulary = match &self.tokenizer {
            Some(tokenizer) => tokenizer.extract_vocabulary(&tokens),
            None => NoopTokenizer.extract_vocabulary(&tokens),
        };
        self.vocabulary = vocabulary;
    }

    /// Preprocesses `corpus` and maps its tokens onto the vocabulary.
    pub fn transform(&self, corpus: &str) -> (tokens: Vec<Token>)
        ensures
            tokens.deep_view() == looked_up(
                self.vocabulary.deep_view(),
                self.pre_processed(corpus@),
            ),
            tokens.len() == self.pre_processed(corpus@).len(),
            corpus@.len() == 0 ==> tokens.len() == 0,
    {
        let tokens = self.pre_process(corpus);
        match &self.tokenizer {
            Some(tokenizer) => tokenizer.tokenize(&self.vocabulary, &tokens),
            None => NoopTokenizer.tokenize(&self.vocabulary, &tokens),
        }
    }

    /// `fit`, then `transform` on the same corpus: the corpus is preprocessed
    /// twice, and every token is found in the vocabulary just derived.
    pub fn fit_transform(&mut self, corpus: &str) -> (tokens: Vec<Token>)
        ensures
            final(self).vocabulary.deep_view() == first_occurrences(
                old(self).pre_processed(corpus@),
            ),
            final(self).splitter == old(self).splitter,
            final(self).pre_tokenizers == old(self).pre_tokenizers,
            final(self).tokenizer == old(self).tokenizer,
            tokens.deep_view() == looked_up(
                final(self).vocabulary.deep_view(),
                old(self).pre_processed(corpus@),
            ),
            tokens.deep_view() == old(self).pre_processed(corpus@),
            corpus@.len() == 0 ==> tokens.len() == 0 && final(self).vocabulary.len() == 0,
    {
        proof {
            lemma_lookup_in_own_vocabulary(self.pre_processed(corpus@));
        }
        self.fit(corpus);
        self.transform(corpus)
    }
}

/// An empty corpus is no error and gives nothing: the whitespace splitter
/// and any chain of shipped stages make no token of it, so its vocabulary
/// is empty and so is what any vocabulary makes of it.
pub proof fn lemma_empty_corpus_gives_nothing(
    kinds: Seq<PreTokenizerKind>,
    vocabulary: Seq<Seq<char>>,
)
    ensures
        chained(kinds, Whitespace.tokens_of(Seq::empty()), kinds.len() as int) == Seq::<
            Seq<char>,
        >::empty(),
        first_occurrences(
            chained(kinds, Whitespace.tokens_of(Seq::empty()), kinds.len() as int),
        ) == Seq::<Seq<char>>::empty(),
        looked_up(
            vocabulary,
            chained(kinds, Whitespace.tokens_of(Seq::empty()), kinds.len() as int),
        ) == Seq::<Seq<char>>::empty(),
{
    lemma_chain_of_nothing(kinds, kinds.len() as int);
    assert(looked_up(vocabulary, Seq::empty()) =~= Seq::<Seq<char>>::empty());
}

} // verus!
