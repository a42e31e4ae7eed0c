//! The stages between the splitter and the tokenizer: each turns a token
//! sequence into a token sequence, and they are applied in the order given.

use vstd::prelude::*;
use crate::tokenization::pre_tokenizers::case_fold::{lowercased, CaseFold};
use crate::tokenization::pre_tokenizers::pre_tokenizer::PreTokenizer;
use crate::tokenization::pre_tokenizers::punctuation::Punctuation;
use crate::tokenization::pre_tokenizers::utils::lemma_cut_all_add;
use crate::tokenization::pre_tokenizers::whitespace::WhiteSpace;
use crate::tokenization::token::Token;
use crate::utils::runs::{CharClass, Keep};

pub mod case_fold;
pub mod pre_tokenizer;
pub mod punctuation;
pub mod utils;
pub mod whitespace;

verus! {

/// The stages that ship with the library, by name.
#[derive(Clone, Copy, Debug, PartialEq, Eq)]
pub enum PreTokenizerKind {
    CaseFold,
    Punctuation,
    WhiteSpace,
}

/// The stage that a name stands for.
pub enum Processor {
    CaseFold(CaseFold),
    Punctuation(Punctuation),
    WhiteSpace(WhiteSpace),
}

impl PreTokenizer for Processor {
    open spec fn pre_tokenized(&self, words: Seq<Seq<char>>) -> Seq<Seq<char>> {
        match self {
            Processor::CaseFold(stage) => stage.pre_tokenized(words),
            Processor::Punctuation(stage) => stage.pre_tokenized(words),
            Processor::WhiteSpace(stage) => stage.pre_tokenized(words),
        }
    }

    fn pre_tokenize(&self, tokens: &Vec<Token>) -> (out: Vec<Token>) {
        let ghost words = tokens.deep_view();
        match self {
            Processor::CaseFold(stage) => {
                assert(self.pre_tokenized(words) == stage.pre_tokenized(words));
                stage.pre_tokenize(tokens)
            },
            Processor::Punctuation(stage) => {
                assert(self.pre_tokenized(words) == stage.pre_tokenized(words));
                stage.pre_tokenize(tokens)
            },
            Processor::WhiteSpace(stage) => {
                assert(self.pre_tokenized(words) == stage.pre_tokenized(words));
                stage.pre_tokenize(tokens)
            },
        }
    }
}

impl PreTokenizerKind {
    /// What the named stage makes of a token sequence.
    pub open spec fn applied(self, words: Seq<Seq<char>>) -> Seq<Seq<char>> {
        match self {
            PreTokenizerKind::CaseFold => CaseFold.pre_tokenized(words),
            PreTokenizerKind::Punctuation => Punctuation.pre_tokenized(words),
            PreTokenizerKind::WhiteSpace => WhiteSpace.pre_tokenized(words),
        }
    }

    /// The stage that the name stands for.
    pub fn get_processor(&self) -> (processor: Processor)
        ensures
            processor == match *self {
                PreTokenizerKind::CaseFold => Processor::CaseFold(CaseFold),
                PreTokenizerKind::Punctuation => Processor::Punctuation(Punctuation),
                PreTokenizerKind::WhiteSpace => Processor::WhiteSpace(WhiteSpace),
            },
            forall|words: Seq<Seq<char>>|
                #[trigger] processor.pre_tokenized(words) == self.applied(words),
    {
        match self {
            PreTokenizerKind::CaseFold => Processor::CaseFold(CaseFold),
            PreTokenizerKind::Punctuation => Processor::Punctuation(Punctuation),
            PreTokenizerKind::WhiteSpace => Processor::WhiteSpace(WhiteSpace),
        }
    }
}

impl PreTokenizer for PreTokenizerKind {
    open spec fn pre_tokenized(&self, words: Seq<Seq<char>>) -> Seq<Seq<char>> {
        self.applied(words)
    }

    fn pre_tokenize(&self, tokens: &Vec<Token>) -> (out: Vec<Token>) {
        self.get_processor().pre_tokenize(tokens)
    }
}

/// What the first `n` stages of `stages`, applied in order, make of `words`.
pub open spec fn chained<P: PreTokenizer>(stages: Seq<P>, words: Seq<Seq<char>>, n: int) -> Seq<
    Seq<char>,
>
    decreases n,
{
    if n <= 0 {
        words
    } else {
        stages[n - 1].pre_tokenized(chained(stages, words, n - 1))
    }
}

/// A shipped stage makes no token of no token.
pub proof fn lemma_stage_of_nothing(kind: PreTokenizerKind)
    ensures
        kind.applied(Seq::empty()) == Seq::<Seq<char>>::empty(),
{
    assert(lowercased(Seq::empty()) =~= Seq::<Seq<char>>::empty());
}

/// A chain of shipped stages makes no token of no token.
pub proof fn lemma_chain_of_nothing(kinds: Seq<PreTokenizerKind>, n: int)
    requires
        n <= kinds.len(),
    ensures
        chained(kinds, Seq::empty(), n) == Seq::<Seq<char>>::empty(),
    decreases n,
{
    if n > 0 {
        lemma_chain_of_nothing(kinds, n - 1);
        lemma_stage_of_nothing(kinds[n - 1]);
    }
}

/// A shipped stage never merges tokens: what it makes of a token sequence is
/// what it makes of each token, one after the other.
pub proof fn lemma_stage_works_token_by_token(
    kind: PreTokenizerKind,
    front: Seq<Seq<char>>,
    back: Seq<Seq<char>>,
)
    ensures
        kind.applied(front + back) == kind.applied(front) + kind.applied(back),
{
    match kind {
        PreTokenizerKind::CaseFold => {
            assert(lowercased(front + back) =~= lowercased(front) + lowercased(back));
        },
        PreTokenizerKind::Punctuation => {
            lemma_cut_all_add(front, back, CharClass::Punctuation, Keep::All);
        },
        PreTokenizerKind::WhiteSpace => {
            lemma_cut_all_add(front, back, CharClass::Whitespace, Keep::Others);
        },
    }
}

/// Applies `stages` to `tokens` in the order given: each stage takes all that
/// the stage before it gave.
pub fn run_chain<P: PreTokenizer>(stages: &Vec<P>, tokens: Vec<Token>) -> (out: Vec<Token>)
    ensures
        out.deep_view() == chained(stages@, tokens.deep_view(), stages.len() as int),
        tokens.len() == 0 ==> out.len() == 0,
{
    let ghost words = tokens.deep_view();
    let mut out = tokens;
    let mut i: usize = 0;
    while i < stages.len()
        invariant
            i <= stages.len(),
            out.deep_view() == chained(stages@, words, i as int),
            tokens.len() == 0 ==> out.len() == 0,
        decreases stages.len() - i,
    {
        out = stages[i].pre_tokenize(&out);
        i += 1;
    }
    out
}

} // verus!
