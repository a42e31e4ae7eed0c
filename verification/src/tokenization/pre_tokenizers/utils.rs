//! Splitting the word of a token at the matches of a pattern, and cutting it
//! into its runs of characters of a class.

use vstd::prelude::*;
use crate::tokenization::token::Token;
use crate::utils::patterns::{
    find_spans, lemma_split_pieces_spell_the_text, pattern_spans, split_at_spans, split_pieces,
};
use crate::utils::runs::{
    are_runs, check_runs, keep_pieces, kept_runs, lemma_runs, lemma_runs_are_unique, CharClass,
    Keep,
};
use crate::utils::sequences::{concatenated, lemma_concatenated_one};

verus! {

/// What `word` is split into at the matches of `pattern`. A pattern that is
/// refused leaves the word whole.
pub open spec fn split_word(word: Seq<char>, pattern: Seq<char>, keep_sep: bool) -> Seq<Seq<char>> {
    match pattern_spans(pattern, word) {
        Some(spans) => split_pieces(word, spans, keep_sep),
        None => seq![word],
    }
}

/// Splits the word of `token` at the matches of `pattern`. What stands
/// between two matches becomes a token unless it is empty; a match itself
/// becomes a token where `keep_sep` is set, and is dropped where it is not.
pub fn split_token(token: &Token, pattern: &str, keep_sep: bool) -> (tokens: Vec<Token>)
    ensures
        tokens.deep_view() == split_word(token@, pattern@, keep_sep),
        keep_sep ==> concatenated(tokens.deep_view()) == token@,
{
    match find_spans(pattern, token.word.as_str()) {
        Some(spans) => {
            proof {
                lemma_split_pieces_spell_the_text(token@, spans@);
            }
            split_at_spans(token.word.as_str(), &spans, keep_sep)
        },
        None => {
            let mut tokens: Vec<Token> = Vec::new();
            tokens.push(token.duplicate());
            proof {
                assert(tokens.deep_view() =~= seq![token@]);
                lemma_concatenated_one(token@);
            }
            tokens
        },
    }
}

/// What `word` is cut into with respect to `class`: the runs of the word
/// that are kept. The runs are found by splitting the word at the matches of
/// the class's pattern; where that does not give the runs of the word, the
/// word is left whole.
pub open spec fn cut_word(word: Seq<char>, class: CharClass, keep: Keep) -> Seq<Seq<char>> {
    if are_runs(split_word(word, class.run_pattern(), true), class) {
        kept_runs(word, class, keep)
    } else {
        seq![word]
    }
}

/// What `words` are cut into, word by word and in order.
pub open spec fn cut_all(words: Seq<Seq<char>>, class: CharClass, keep: Keep) -> Seq<Seq<char>>
    decreases words.len(),
{
    if words.len() == 0 {
        Seq::empty()
    } else {
        cut_all(words.drop_last(), class, keep) + cut_word(words.last(), class, keep)
    }
}

/// Cutting goes token by token: what is made of a sequence is what is made
/// of its front and of its back, one after the other.
pub proof fn lemma_cut_all_add(
    front: Seq<Seq<char>>,
    back: Seq<Seq<char>>,
    class: CharClass,
    keep: Keep,
)
    ensures
        cut_all(front + back, class, keep) == cut_all(front, class, keep) + cut_all(
            back,
            class,
            keep,
        ),
    decreases back.len(),
{
    if back.len() == 0 {
        assert(front + back =~= front);
        assert(cut_all(front, class, keep) + cut_all(back, class, keep) =~= cut_all(
            front,
            class,
            keep,
        ));
    } else {
        lemma_cut_all_add(front, back.drop_last(), class, keep);
        assert((front + back).drop_last() =~= front + back.drop_last());
        assert(cut_all(front + back, class, keep) =~= cut_all(front, class, keep) + cut_all(
            back,
            class,
            keep,
        ));
    }
}

/// With every run kept, cutting a word loses nothing: the pieces, one after
/// the other, spell the word.
pub proof fn lemma_cut_word_spells_the_word(word: Seq<char>, class: CharClass)
    ensures
        concatenated(cut_word(word, class, Keep::All)) == word,
{
    lemma_runs(word, class);
    lemma_concatenated_one(word);
}

/// Cuts the word of `token` into its runs with respect to `class` and
/// returns those that are kept. The word is split at the matches of the
/// class's pattern, and the pieces are checked to be the runs of the word; a
/// word whose pieces are not its runs is left whole.
pub fn cut_token(token: &Token, class: CharClass, keep: Keep) -> (tokens: Vec<Token>)
    ensures
        tokens.deep_view() == cut_word(token@, class, keep),
{
    let pieces = split_token(token, class.pattern(), true);
    if check_runs(&pieces, class) {
        proof {
            lemma_runs_are_unique(pieces.deep_view(), class);
        }
        keep_pieces(pieces, class, keep)
    } else {
        let mut tokens: Vec<Token> = Vec::new();
        tokens.push(token.duplicate());
        assert(tokens.deep_view() =~= seq![token@]);
        tokens
    }
}

/// Cuts every token of `tokens`, in order.
pub fn cut_tokens(tokens: &Vec<Token>, class: CharClass, keep: Keep) -> (out: Vec<Token>)
    ensures
        out.deep_view() == cut_all(tokens.deep_view(), class, keep),
        tokens.len() == 0 ==> out.len() == 0,
{
    let ghost words = tokens.deep_view();
    let mut out: Vec<Token> = Vec::new();
    let mut i: usize = 0;
    assert(words.take(0) =~= Seq::<Seq<char>>::empty());
    assert(out.deep_view() =~= cut_all(words.take(0), class, keep));
    while i < tokens.len()
        invariant
            i <= tokens.len(),
            words == tokens.deep_view(),
            out.deep_view() == cut_all(words.take(i as int), class, keep),
            i == 0 ==> out.len() == 0,
        decreases tokens.len() - i,
    {
        let mut pieces = cut_token(&tokens[i], class, keep);
        let ghost before = out.deep_view();
        let ghost added = pieces.deep_view();
        out.append(&mut pieces);
        proof {
            assert(words.take(i + 1).drop_last() =~= words.take(i as int));
            assert(words.take(i + 1).last() == tokens[i as int]@);
            assert(out.deep_view() =~= before + added);
        }
        i += 1;
    }
    assert(words.take(tokens.len() as int) =~= words);
    out
}

} // verus!
