//! What byte-pair training computes: the word table of a corpus, the
//! frequency of a pair in it, the pair that a round selects, and the merge
//! table that a number of rounds leaves.
//!
//! Ties between pairs of equal frequency are broken by order of appearance:
//! the distinct adjacent pairs are taken in the order in which they first occur
//! in the table (entry by entry, left to right), and the first pair of greatest
//! frequency is selected.

use vstd::prelude::*;
use crate::tokenization::special_tokens::{EOW, SOW};
use crate::tokenization::tokenizers::symbols::{
    adjacent_pairs, char_symbols, encoded, initial_symbols, lemma_encoded_without_merges,
    lemma_merged_no_longer, lemma_merged_shorter, merged, pair_at, SymbolPair, Symbols,
};
use crate::utils::sequences::{
    count_of, first_occurrences, lemma_count_of, lemma_first_occurrences, lemma_sum_of_prefix,
    sum_of,
};

verus! {

/// The word table: each distinct word of the corpus as a symbol sequence, with
/// the number of times the word occurs.
pub type WordTable = Seq<(Symbols, nat)>;

/// The pieces of `text` between the occurrences of `separator`. A text without
/// the separator is one piece; two separators in a row enclose an empty piece.
pub open spec fn split_on(text: Seq<char>, separator: char) -> Seq<Seq<char>>
    decreases text.len(),
{
    if text.len() == 0 {
        seq![Seq::empty()]
    } else {
        let before = split_on(text.drop_last(), separator);
        if text.last() == separator {
            before.push(Seq::empty())
        } else {
            before.drop_last().push(before.last().push(text.last()))
        }
    }
}

/// The words of a corpus: the pieces between its single spaces. An empty
/// corpus has no word.
pub open spec fn corpus_words(corpus: Seq<char>) -> Seq<Seq<char>> {
    if corpus.len() == 0 {
        Seq::empty()
    } else {
        split_on(corpus, ' ')
    }
}

/// The pieces with the separator between each two of them, as one text.
pub open spec fn joined(pieces: Seq<Seq<char>>, separator: char) -> Seq<char>
    decreases pieces.len(),
{
    if pieces.len() == 0 {
        Seq::empty()
    } else if pieces.len() == 1 {
        pieces[0]
    } else {
        joined(pieces.drop_last(), separator).push(separator) + pieces.last()
    }
}

/// Splitting undoes joining: there is one piece more than there are
/// separators in the text, no piece holds the separator, and the pieces joined
/// by the separator are the text.
pub proof fn lemma_split_on(text: Seq<char>, separator: char)
    ensures
        split_on(text, separator).len() == count_of(text, separator) + 1,
        forall|i: int|
            0 <= i < split_on(text, separator).len() ==> !(#[trigger] split_on(
                text,
                separator,
            )[i]).contains(separator),
        joined(split_on(text, separator), separator) == text,
    decreases text.len(),
{
    let pieces = split_on(text, separator);
    if text.len() == 0 {
        assert(joined(pieces, separator) =~= text);
    } else {
        let init = text.drop_last();
        let before = split_on(init, separator);
        let last = text.last();
        lemma_split_on(init, separator);
        assert(init.push(last) =~= text);
        if last == separator {
            assert(pieces.drop_last() =~= before);
            assert(joined(pieces, separator) =~= text);
        } else {
            let grown = before.last().push(last);
            assert(pieces.last() == grown);
            assert(!grown.contains(separator)) by {
                if grown.contains(separator) {
                    let k = choose|k: int| 0 <= k < grown.len() && grown[k] == separator;
                    assert(before.last()[k] == separator);
                    assert(before[before.len() - 1].contains(separator));
                }
            }
            assert forall|i: int| 0 <= i < pieces.len() implies !(#[trigger] pieces[i]).contains(
                separator,
            ) by {
                if i < pieces.len() - 1 {
                    assert(pieces[i] == before[i]);
                }
            }
            if before.len() == 1 {
                assert(joined(pieces, separator) =~= text);
            } else {
                assert(pieces.drop_last() =~= before.drop_last());
                assert(joined(pieces, separator) =~= joined(before, separator).push(last));
            }
        }
    }
}

/// The table that training starts from: the distinct words in the order in
/// which they first occur, each as its characters between the two sentinels,
/// with the number of its occurrences.
pub open spec fn word_table(words: Seq<Seq<char>>) -> WordTable {
    let distinct = first_occurrences(words);
    Seq::new(distinct.len(), |i: int| (initial_symbols(distinct[i]), count_of(words, distinct[i])))
}

/// The counts of a table, entry by entry.
pub open spec fn counts_of(table: WordTable) -> Seq<nat> {
    Seq::new(table.len(), |i: int| table[i].1)
}

/// The number of word occurrences that a table stands for.
pub open spec fn total_count(table: WordTable) -> nat {
    sum_of(counts_of(table))
}

/// Whether every entry of the table stands for at least one occurrence.
pub open spec fn counts_are_positive(table: WordTable) -> bool {
    forall|i: int| 0 <= i < table.len() ==> (#[trigger] table[i]).1 >= 1
}

/// How often `pair` occurs in the corpus that `table` stands for: its
/// occurrences in each entry, weighted by the entry's count.
pub open spec fn pair_frequency(table: WordTable, pair: SymbolPair) -> nat
    decreases table.len(),
{
    if table.len() == 0 {
        0
    } else {
        pair_frequency(table.drop_last(), pair) + table.last().1 * count_of(
            adjacent_pairs(table.last().0),
            pair,
        )
    }
}

/// Every adjacent pair of the table, entry by entry and left to right.
pub open spec fn table_pairs(table: WordTable) -> Seq<SymbolPair>
    decreases table.len(),
{
    if table.len() == 0 {
        Seq::empty()
    } else {
        table_pairs(table.drop_last()) + adjacent_pairs(table.last().0)
    }
}

/// The distinct adjacent pairs of the table in the order of their first occurrence.
pub open spec fn distinct_pairs(table: WordTable) -> Seq<SymbolPair> {
    first_occurrences(table_pairs(table))
}

/// Whether position `m` of `candidates` holds the first pair of greatest frequency.
pub open spec fn is_first_greatest(table: WordTable, candidates: Seq<SymbolPair>, m: int) -> bool {
    &&& 0 <= m < candidates.len()
    &&& forall|j: int|
        0 <= j < candidates.len() ==> pair_frequency(table, candidates[j]) <= pair_frequency(
            table,
            candidates[m],
        )
    &&& forall|j: int|
        0 <= j < m ==> pair_frequency(table, candidates[j]) < pair_frequency(table, candidates[m])
}

/// Whether `pair` is the one that a round of training selects from `table`.
pub open spec fn is_best_pair(table: WordTable, pair: SymbolPair) -> bool {
    exists|m: int|
        is_first_greatest(table, distinct_pairs(table), m) && distinct_pairs(table)[m] == pair
}

/// The pair that a round of training selects, or `None` when the table has
/// no adjacent pair left.
pub open spec fn best_pair(table: WordTable) -> Option<SymbolPair> {
    if table_pairs(table).len() == 0 {
        None
    } else {
        Some(choose|pair: SymbolPair| is_best_pair(table, pair))
    }
}

/// The table after a merge: every entry rewritten, its count unchanged.
pub open spec fn rewritten(table: WordTable, pair: SymbolPair) -> WordTable {
    Seq::new(table.len(), |i: int| (merged(table[i].0, pair), table[i].1))
}

/// The merge table and the word table after at most `rounds` further rounds.
/// A round selects the best pair, records it at the next rank and rewrites the
/// table; training stops early when no pair is left.
pub open spec fn trained(table: WordTable, merges: Seq<SymbolPair>, rounds: nat) -> (
    Seq<SymbolPair>,
    WordTable,
)
    decreases rounds,
{
    if rounds == 0 {
        (merges, table)
    } else {
        match best_pair(table) {
            None => (merges, table),
            Some(pair) => trained(rewritten(table, pair), merges.push(pair), (rounds - 1) as nat),
        }
    }
}

/// A pair's frequency is at most the number of word occurrences times the
/// greatest number of pairs in an entry.
pub proof fn lemma_pair_frequency_bound(table: WordTable, pair: SymbolPair, most: nat)
    requires
        forall|i: int| 0 <= i < table.len() ==> adjacent_pairs(#[trigger] table[i].0).len() <= most,
    ensures
        pair_frequency(table, pair) <= total_count(table) * most,
    decreases table.len(),
{
    if table.len() > 0 {
        let init = table.drop_last();
        lemma_pair_frequency_bound(init, pair, most);
        assert(counts_of(table).drop_last() =~= counts_of(init));
        let count = table.last().1;
        let times = count_of(adjacent_pairs(table.last().0), pair);
        lemma_count_of(adjacent_pairs(table.last().0), pair);
        assert(adjacent_pairs(table[table.len() - 1].0).len() <= most);
        assert(count * times <= count * most) by (nonlinear_arith)
            requires
                times <= most,
        ;
        assert(total_count(table) * most == total_count(init) * most + count * most)
            by (nonlinear_arith)
            requires
                total_count(table) == total_count(init) + count,
        ;
    } else {
        assert(total_count(table) * most >= 0) by (nonlinear_arith);
    }
}

/// A pair that stands in no entry has frequency zero.
pub proof fn lemma_pair_frequency_absent(table: WordTable, pair: SymbolPair)
    requires
        !table_pairs(table).contains(pair),
    ensures
        pair_frequency(table, pair) == 0,
    decreases table.len(),
{
    if table.len() > 0 {
        let init = table.drop_last();
        let here = adjacent_pairs(table.last().0);
        let all = table_pairs(table);
        if table_pairs(init).contains(pair) {
            let i = choose|i: int| 0 <= i < table_pairs(init).len() && table_pairs(init)[i] == pair;
            assert(all[i] == pair);
        }
        if here.contains(pair) {
            let i = choose|i: int| 0 <= i < here.len() && here[i] == pair;
            assert(all[table_pairs(init).len() + i] == pair);
        }
        lemma_pair_frequency_absent(init, pair);
        lemma_count_of(here, pair);
    }
}

/// What one more entry adds to the pairs, the frequencies and the total count
/// of a table's prefix.
pub proof fn lemma_table_step(table: WordTable, n: int)
    requires
        0 <= n < table.len(),
    ensures
        table_pairs(table.take(n + 1)) == table_pairs(table.take(n)) + adjacent_pairs(table[n].0),
        total_count(table.take(n + 1)) == total_count(table.take(n)) + table[n].1,
        total_count(table.take(n + 1)) <= total_count(table),
        forall|pair: SymbolPair|
            #[trigger] pair_frequency(table.take(n + 1), pair) == pair_frequency(
                table.take(n),
                pair,
            ) + table[n].1 * count_of(adjacent_pairs(table[n].0), pair),
{
    let longer = table.take(n + 1);
    assert(longer.drop_last() =~= table.take(n));
    assert(counts_of(longer).drop_last() =~= counts_of(table.take(n)));
    assert(counts_of(longer) =~= counts_of(table).take(n + 1));
    lemma_sum_of_prefix(counts_of(table), n + 1);
}

/// Every word of the table that training starts from occurs at least once,
/// and an empty corpus has an empty table.
pub proof fn lemma_word_table_counts(words: Seq<Seq<char>>)
    ensures
        counts_are_positive(word_table(words)),
        words.len() == 0 ==> word_table(words).len() == 0,
{
    let distinct = first_occurrences(words);
    lemma_first_occurrences(words);
    assert forall|i: int| 0 <= i < word_table(words).len() implies (#[trigger] word_table(
        words,
    )[i]).1 >= 1 by {
        assert(distinct.contains(distinct[i]));
        lemma_count_of(words, distinct[i]);
    }
}

/// Where every entry stands for at least one occurrence, a pair that stands in
/// the table has a frequency of at least one.
pub proof fn lemma_pair_frequency_positive(table: WordTable, pair: SymbolPair)
    requires
        counts_are_positive(table),
        table_pairs(table).contains(pair),
    ensures
        pair_frequency(table, pair) >= 1,
    decreases table.len(),
{
    let all = table_pairs(table);
    let at = choose|at: int| 0 <= at < all.len() && all[at] == pair;
    if table.len() > 0 {
        let init = table.drop_last();
        let here = adjacent_pairs(table.last().0);
        if at < table_pairs(init).len() {
            assert(table_pairs(init)[at] == pair);
            assert forall|i: int| 0 <= i < init.len() implies (#[trigger] init[i]).1 >= 1 by {
                assert(init[i] == table[i]);
            }
            lemma_pair_frequency_positive(init, pair);
        } else {
            assert(here[at - table_pairs(init).len()] == pair);
            assert(here.contains(pair));
            lemma_count_of(here, pair);
            let count = table.last().1;
            let times = count_of(here, pair);
            assert(table[table.len() - 1].1 >= 1);
            assert(count * times >= 1) by (nonlinear_arith)
                requires
                    count >= 1,
                    times >= 1,
            ;
        }
    }
}

/// At most one pair is the best pair of a table.
pub proof fn lemma_best_pair_unique(table: WordTable, first: SymbolPair, second: SymbolPair)
    requires
        is_best_pair(table, first),
        is_best_pair(table, second),
    ensures
        first == second,
{
    let candidates = distinct_pairs(table);
    let m = choose|m: int| is_first_greatest(table, candidates, m) && candidates[m] == first;
    let n = choose|n: int| is_first_greatest(table, candidates, n) && candidates[n] == second;
    if m < n {
        assert(pair_frequency(table, candidates[m]) < pair_frequency(table, candidates[n]));
    } else if n < m {
        assert(pair_frequency(table, candidates[n]) < pair_frequency(table, candidates[m]));
    }
}

/// Among the first `n` candidates there is a first one of greatest frequency.
proof fn lemma_first_greatest_exists(table: WordTable, candidates: Seq<SymbolPair>, n: int)
    requires
        0 < n <= candidates.len(),
    ensures
        exists|m: int| is_first_greatest(table, candidates.take(n), m),
    decreases n,
{
    let shown = candidates.take(n);
    if n == 1 {
        assert(is_first_greatest(table, shown, 0));
    } else {
        lemma_first_greatest_exists(table, candidates, n - 1);
        let fewer = candidates.take(n - 1);
        let m = choose|m: int| is_first_greatest(table, fewer, m);
        assert(forall|j: int| 0 <= j < n - 1 ==> fewer[j] == shown[j]);
        if pair_frequency(table, shown[n - 1]) > pair_frequency(table, shown[m]) {
            assert forall|j: int| 0 <= j < n - 1 implies #[trigger] pair_frequency(
                table,
                shown[j],
            ) < pair_frequency(table, shown[n - 1]) by {
                assert(pair_frequency(table, fewer[j]) <= pair_frequency(table, fewer[m]));
            }
            assert(is_first_greatest(table, shown, n - 1));
        } else {
            assert forall|j: int| 0 <= j < n implies #[trigger] pair_frequency(table, shown[j])
                <= pair_frequency(table, shown[m]) by {
                if j < n - 1 {
                    assert(pair_frequency(table, fewer[j]) <= pair_frequency(table, fewer[m]));
                }
            }
            assert forall|j: int| 0 <= j < m implies #[trigger] pair_frequency(table, shown[j])
                < pair_frequency(table, shown[m]) by {
                assert(pair_frequency(table, fewer[j]) < pair_frequency(table, fewer[m]));
            }
            assert(is_first_greatest(table, shown, m));
        }
    }
}

/// A table with an adjacent pair has a best pair, which `best_pair` returns;
/// it is one of the table's pairs.
pub proof fn lemma_best_pair(table: WordTable)
    ensures
        match best_pair(table) {
            None => table_pairs(table).len() == 0,
            Some(pair) => is_best_pair(table, pair) && table_pairs(table).contains(pair),
        },
        forall|pair: SymbolPair| is_best_pair(table, pair) ==> best_pair(table) == Some(pair),
{
    let candidates = distinct_pairs(table);
    lemma_first_occurrences(table_pairs(table));
    if table_pairs(table).len() > 0 {
        assert(table_pairs(table).contains(table_pairs(table)[0]));
        assert(candidates.contains(table_pairs(table)[0]));
        lemma_first_greatest_exists(table, candidates, candidates.len() as int);
        assert(candidates.take(candidates.len() as int) =~= candidates);
        let m = choose|m: int| is_first_greatest(table, candidates, m);
        assert(is_best_pair(table, candidates[m]));
        let chosen = choose|pair: SymbolPair| is_best_pair(table, pair);
        assert forall|pair: SymbolPair| is_best_pair(table, pair) implies pair == chosen by {
            lemma_best_pair_unique(table, pair, chosen);
        }
        let at = choose|at: int|
            is_first_greatest(table, candidates, at) && candidates[at] == chosen;
        assert(candidates.contains(chosen));
    } else {
        assert forall|pair: SymbolPair| !is_best_pair(table, pair) by {
            assert(candidates.len() == 0);
        }
    }
}

/// Rewriting a table never adds a pair slot, and removes at least one when
/// the merged pair stands in the table.
pub proof fn lemma_rewritten_has_fewer_pairs(table: WordTable, pair: SymbolPair)
    ensures
        table_pairs(rewritten(table, pair)).len() <= table_pairs(table).len(),
        table_pairs(table).contains(pair) ==> table_pairs(rewritten(table, pair)).len()
            < table_pairs(table).len(),
    decreases table.len(),
{
    if table.len() > 0 {
        let init = table.drop_last();
        let last = table.last().0;
        let here = adjacent_pairs(last);
        assert(rewritten(table, pair).drop_last() =~= rewritten(init, pair));
        assert(rewritten(table, pair).last().0 == merged(last, pair));
        lemma_rewritten_has_fewer_pairs(init, pair);
        lemma_merged_no_longer(last, pair);
        if table_pairs(table).contains(pair) {
            let all = table_pairs(table);
            let at = choose|at: int| 0 <= at < all.len() && all[at] == pair;
            if at < table_pairs(init).len() {
                assert(table_pairs(init)[at] == pair);
            } else {
                let j = at - table_pairs(init).len();
                assert(here[j] == pair);
                assert(pair_at(last, j, pair));
                lemma_merged_shorter(last, pair);
            }
        }
    }
}

/// Training learns at most one merge a round, and at most one for every pair
/// slot of the table it starts from; what was learned before stays in place.
pub proof fn lemma_trained_bounds(table: WordTable, merges: Seq<SymbolPair>, rounds: nat)
    ensures
        merges.is_prefix_of(trained(table, merges, rounds).0),
        trained(table, merges, rounds).0.len() <= merges.len() + rounds,
        trained(table, merges, rounds).0.len() <= merges.len() + table_pairs(table).len(),
        trained(table, merges, rounds).1.len() == table.len(),
        trained(table, merges, rounds).0.len() < merges.len() + rounds ==> table_pairs(
            trained(table, merges, rounds).1,
        ).len() == 0,
    decreases rounds,
{
    if rounds > 0 {
        lemma_best_pair(table);
        match best_pair(table) {
            None => {},
            Some(pair) => {
                lemma_rewritten_has_fewer_pairs(table, pair);
                lemma_trained_bounds(rewritten(table, pair), merges.push(pair), (rounds - 1) as nat);
                assert(merges.is_prefix_of(merges.push(pair)));
            },
        }
    }
}

/// With no round allowed, training learns nothing: the merge table is
/// empty, every word of the table is its characters between the two
/// sentinels, and so is the encoding of any word.
pub proof fn lemma_trained_without_rounds(words: Seq<Seq<char>>, word: Seq<char>)
    ensures
        trained(word_table(words), Seq::empty(), 0).0 == Seq::<SymbolPair>::empty(),
        trained(word_table(words), Seq::empty(), 0).1 == word_table(words),
        forall|i: int|
            0 <= i < word_table(words).len() ==> (#[trigger] word_table(words)[i]).0 == seq![SOW@]
                + char_symbols(first_occurrences(words)[i]) + seq![EOW@],
        encoded(initial_symbols(word), trained(word_table(words), Seq::empty(), 0).0) == seq![
            SOW@,
        ] + char_symbols(word) + seq![EOW@],
{
    lemma_encoded_without_merges(initial_symbols(word));
}

/// An empty corpus is no error and trains nothing: whatever the number of
/// rounds, it leaves an empty merge table and an empty word table.
pub proof fn lemma_trained_on_nothing(rounds: nat)
    ensures
        corpus_words(Seq::empty()) == Seq::<Seq<char>>::empty(),
        word_table(Seq::empty()) == Seq::<(Symbols, nat)>::empty(),
        trained(word_table(corpus_words(Seq::empty())), Seq::empty(), rounds) == (
            Seq::<SymbolPair>::empty(),
            Seq::<(Symbols, nat)>::empty(),
        ),
{
    let table = word_table(Seq::empty());
    assert(table =~= Seq::<(Symbols, nat)>::empty());
    assert(table_pairs(table).len() == 0);
    lemma_best_pair(table);
}

/// The pair slots of a table whose entries all have three symbols.
proof fn lemma_three_symbol_entries(table: WordTable)
    requires
        forall|i: int| 0 <= i < table.len() ==> (#[trigger] table[i]).0.len() == 3,
    ensures
        table_pairs(table).len() == 2 * table.len(),
    decreases table.len(),
{
    if table.len() > 0 {
        assert(table[table.len() - 1].0.len() == 3);
        assert forall|i: int| 0 <= i < table.drop_last().len() implies (
        #[trigger] table.drop_last()[i]).0.len() == 3 by {
            assert(table.drop_last()[i] == table[i]);
        }
        lemma_three_symbol_entries(table.drop_last());
    }
}

/// On a corpus of single-character words training stops early whenever more
/// rounds are allowed than two for each distinct word: a word of one character
/// has two pair slots, so that many merges leave no pair, and the merge table
/// ends with fewer entries than rounds were allowed.
pub proof fn lemma_single_character_words_stop_early(words: Seq<Seq<char>>, rounds: nat)
    requires
        forall|i: int| 0 <= i < words.len() ==> (#[trigger] words[i]).len() == 1,
        rounds > 2 * first_occurrences(words).len(),
    ensures
        trained(word_table(words), Seq::empty(), rounds).0.len() <= 2 * first_occurrences(
            words,
        ).len(),
        trained(word_table(words), Seq::empty(), rounds).0.len() < rounds,
        table_pairs(trained(word_table(words), Seq::empty(), rounds).1).len() == 0,
{
    let table = word_table(words);
    let distinct = first_occurrences(words);
    lemma_first_occurrences(words);
    assert forall|i: int| 0 <= i < table.len() implies (#[trigger] table[i]).0.len() == 3 by {
        assert(distinct.contains(distinct[i]));
        assert(words.contains(distinct[i]));
        let j = choose|j: int| 0 <= j < words.len() && words[j] == distinct[i];
        assert(words[j].len() == 1);
    }
    lemma_three_symbol_entries(table);
    lemma_trained_bounds(table, Seq::empty(), rounds);
}

} // verus!
