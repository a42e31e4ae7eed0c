//! Symbol sequences: a word as an ordered list of symbols between the two
//! word-boundary sentinels, and the merge that byte-pair encoding applies to it.

use vstd::prelude::*;
use crate::tokenization::special_tokens::{EOW, SOW};
use crate::utils::sequences::{concatenated, lemma_concatenated_add, lemma_concatenated_one};

verus! {

/// A word as symbols, each symbol a string of characters.
pub type Symbols = Seq<Seq<char>>;

/// Two symbols, the left one standing directly before the right one.
pub type SymbolPair = (Seq<char>, Seq<char>);

/// The word's characters, each as a symbol of its own.
pub open spec fn char_symbols(word: Seq<char>) -> Symbols {
    Seq::new(word.len(), |i: int| seq![word[i]])
}

/// The symbols between the start-of-word and the end-of-word sentinel.
pub open spec fn wrapped(symbols: Symbols) -> Symbols {
    seq![SOW@] + symbols + seq![EOW@]
}

/// The symbol sequence that encoding starts from.
pub open spec fn initial_symbols(word: Seq<char>) -> Symbols {
    wrapped(char_symbols(word))
}

/// Whether `pair` stands at position `i` of `symbols`.
pub open spec fn pair_at(symbols: Symbols, i: int, pair: SymbolPair) -> bool {
    0 <= i && i + 1 < symbols.len() && symbols[i] == pair.0 && symbols[i + 1] == pair.1
}

/// Whether `pair` stands anywhere in `symbols`.
pub open spec fn occurs(symbols: Symbols, pair: SymbolPair) -> bool {
    exists|i: int| pair_at(symbols, i, pair)
}

/// The adjacent pairs of `symbols`, left to right.
pub open spec fn adjacent_pairs(symbols: Symbols) -> Seq<SymbolPair> {
    Seq::new(
        if symbols.len() >= 1 { (symbols.len() - 1) as nat } else { 0 },
        |i: int| (symbols[i], symbols[i + 1]),
    )
}

/// `symbols` with every occurrence of `pair` replaced by the concatenation of
/// its two symbols. Occurrences are taken from the left and do not overlap.
pub open spec fn merged(symbols: Symbols, pair: SymbolPair) -> Symbols
    decreases symbols.len(),
{
    if symbols.len() < 2 {
        symbols
    } else if symbols[0] == pair.0 && symbols[1] == pair.1 {
        seq![pair.0 + pair.1] + merged(symbols.skip(2), pair)
    } else {
        seq![symbols[0]] + merged(symbols.skip(1), pair)
    }
}

/// A merge never lengthens a symbol sequence.
pub proof fn lemma_merged_no_longer(symbols: Symbols, pair: SymbolPair)
    ensures
        merged(symbols, pair).len() <= symbols.len(),
    decreases symbols.len(),
{
    if symbols.len() >= 2 {
        if symbols[0] == pair.0 && symbols[1] == pair.1 {
            lemma_merged_no_longer(symbols.skip(2), pair);
        } else {
            lemma_merged_no_longer(symbols.skip(1), pair);
        }
    }
}

/// A merge of a pair that occurs shortens the symbol sequence.
pub proof fn lemma_merged_shorter(symbols: Symbols, pair: SymbolPair)
    requires
        occurs(symbols, pair),
    ensures
        merged(symbols, pair).len() < symbols.len(),
    decreases symbols.len(),
{
    let i = choose|i: int| pair_at(symbols, i, pair);
    if symbols[0] == pair.0 && symbols[1] == pair.1 {
        lemma_merged_no_longer(symbols.skip(2), pair);
    } else {
        assert(pair_at(symbols.skip(1), i - 1, pair));
        lemma_merged_shorter(symbols.skip(1), pair);
    }
}

/// A merge joins symbols and never changes what they spell.
pub proof fn lemma_merged_spells_the_same(symbols: Symbols, pair: SymbolPair)
    ensures
        concatenated(merged(symbols, pair)) == concatenated(symbols),
    decreases symbols.len(),
{
    if symbols.len() >= 2 {
        if symbols[0] == pair.0 && symbols[1] == pair.1 {
            let rest = symbols.skip(2);
            lemma_merged_spells_the_same(rest, pair);
            lemma_concatenated_one(pair.0 + pair.1);
            lemma_concatenated_add(seq![pair.0 + pair.1], merged(rest, pair));
            lemma_concatenated_one(pair.0);
            lemma_concatenated_one(pair.1);
            lemma_concatenated_add(seq![pair.0], seq![pair.1]);
            lemma_concatenated_add(seq![pair.0] + seq![pair.1], rest);
            assert(symbols =~= seq![pair.0] + seq![pair.1] + rest);
            assert(concatenated(merged(symbols, pair)) =~= concatenated(symbols));
        } else {
            let rest = symbols.skip(1);
            lemma_merged_spells_the_same(rest, pair);
            lemma_concatenated_add(seq![symbols[0]], merged(rest, pair));
            lemma_concatenated_add(seq![symbols[0]], rest);
            assert(symbols =~= seq![symbols[0]] + rest);
        }
    }
}

/// Whether the merge of rank `rank` can be applied to `symbols`: the rank is in
/// the table and its pair stands somewhere in `symbols`.
pub open spec fn applicable(symbols: Symbols, merges: Seq<SymbolPair>, rank: int) -> bool {
    0 <= rank < merges.len() && occurs(symbols, merges[rank])
}

/// Whether `rank` is the lowest rank that can be applied to `symbols`.
pub open spec fn is_next_merge(symbols: Symbols, merges: Seq<SymbolPair>, rank: int) -> bool {
    &&& applicable(symbols, merges, rank)
    &&& forall|lower: int| 0 <= lower < rank ==> !applicable(symbols, merges, lower)
}

/// The rank that encoding applies next: the lowest one whose pair stands in
/// `symbols`, or `None` when no pair of the table does.
pub open spec fn next_merge(symbols: Symbols, merges: Seq<SymbolPair>) -> Option<int> {
    if exists|rank: int| applicable(symbols, merges, rank) {
        Some(choose|rank: int| is_next_merge(symbols, merges, rank))
    } else {
        None
    }
}

/// Below every applicable rank there is a lowest applicable one.
pub proof fn lemma_lowest_applicable(symbols: Symbols, merges: Seq<SymbolPair>, rank: int)
    requires
        applicable(symbols, merges, rank),
    ensures
        exists|lowest: int| lowest <= rank && is_next_merge(symbols, merges, lowest),
    decreases rank,
{
    if exists|lower: int| 0 <= lower < rank && applicable(symbols, merges, lower) {
        let lower = choose|lower: int| 0 <= lower < rank && applicable(symbols, merges, lower);
        lemma_lowest_applicable(symbols, merges, lower);
    } else {
        assert(is_next_merge(symbols, merges, rank));
    }
}

/// `next_merge` returns the lowest applicable rank and nothing else.
pub proof fn lemma_next_merge(symbols: Symbols, merges: Seq<SymbolPair>)
    ensures
        match next_merge(symbols, merges) {
            Some(rank) => is_next_merge(symbols, merges, rank),
            None => forall|rank: int| !applicable(symbols, merges, rank),
        },
        forall|rank: int|
            is_next_merge(symbols, merges, rank) ==> next_merge(symbols, merges) == Some(rank),
{
    if exists|rank: int| applicable(symbols, merges, rank) {
        let some = choose|rank: int| applicable(symbols, merges, rank);
        lemma_lowest_applicable(symbols, merges, some);
        let chosen = choose|rank: int| is_next_merge(symbols, merges, rank);
        assert forall|rank: int| is_next_merge(symbols, merges, rank) implies rank == chosen by {
            if rank < chosen {
                assert(!applicable(symbols, merges, rank));
            } else if chosen < rank {
                assert(!applicable(symbols, merges, chosen));
            }
        }
    }
}

/// Of two merges that can both be applied, the one learned earlier is
/// preferred: the rank that encoding selects is at most the lower of the two,
/// and so never the higher one.
pub proof fn lemma_lower_rank_preferred(
    symbols: Symbols,
    merges: Seq<SymbolPair>,
    earlier: int,
    later: int,
)
    requires
        earlier < later,
        applicable(symbols, merges, earlier),
        applicable(symbols, merges, later),
    ensures
        next_merge(symbols, merges) is Some,
        next_merge(symbols, merges)->0 <= earlier,
        next_merge(symbols, merges) != Some(later),
{
    lemma_next_merge(symbols, merges);
}

/// The encoding of `symbols` under `merges`: as long as some pair of the table
/// stands in the sequence, the one of lowest rank is merged everywhere.
pub open spec fn encoded(symbols: Symbols, merges: Seq<SymbolPair>) -> Symbols
    decreases symbols.len(),
{
    match next_merge(symbols, merges) {
        None => symbols,
        Some(rank) => {
            proof {
                lemma_next_merge(symbols, merges);
                lemma_merged_shorter(symbols, merges[rank]);
            }
            encoded(merged(symbols, merges[rank]), merges)
        },
    }
}

/// An empty merge table leaves every symbol sequence as it is: a word is
/// encoded as its characters between the two sentinels.
pub proof fn lemma_encoded_without_merges(symbols: Symbols)
    ensures
        encoded(symbols, Seq::empty()) == symbols,
{
    assert forall|rank: int| !applicable(symbols, Seq::<SymbolPair>::empty(), rank) by {}
}

/// No pair of the merge table stands in an encoded sequence, and the encoded
/// sequence spells what the sequence spelled.
pub proof fn lemma_encoded_is_final(symbols: Symbols, merges: Seq<SymbolPair>)
    ensures
        forall|rank: int| !applicable(encoded(symbols, merges), merges, rank),
        concatenated(encoded(symbols, merges)) == concatenated(symbols),
        encoded(symbols, merges).len() <= symbols.len(),
    decreases symbols.len(),
{
    lemma_next_merge(symbols, merges);
    match next_merge(symbols, merges) {
        None => {},
        Some(rank) => {
            lemma_merged_shorter(symbols, merges[rank]);
            lemma_merged_spells_the_same(symbols, merges[rank]);
            lemma_encoded_is_final(merged(symbols, merges[rank]), merges);
        },
    }
}

/// The characters of a word, each as a symbol, spell the word.
pub proof fn lemma_char_symbols_spell_the_word(word: Seq<char>)
    ensures
        concatenated(char_symbols(word)) == word,
    decreases word.len(),
{
    if word.len() == 0 {
        assert(concatenated(char_symbols(word)) =~= word);
    } else {
        lemma_char_symbols_spell_the_word(word.drop_last());
        assert(char_symbols(word).drop_last() =~= char_symbols(word.drop_last()));
        assert(concatenated(char_symbols(word)) =~= word);
    }
}

/// Encoding loses nothing: whatever the merge table, the symbols of an
/// encoded word spell the word between the two sentinels.
pub proof fn lemma_encoding_spells_the_word(word: Seq<char>, merges: Seq<SymbolPair>)
    ensures
        concatenated(encoded(initial_symbols(word), merges)) == SOW@ + word + EOW@,
{
    lemma_encoded_is_final(initial_symbols(word), merges);
    lemma_char_symbols_spell_the_word(word);
    lemma_concatenated_one(SOW@);
    lemma_concatenated_one(EOW@);
    lemma_concatenated_add(seq![SOW@], char_symbols(word));
    lemma_concatenated_add(seq![SOW@] + char_symbols(word), seq![EOW@]);
}

} // verus!
