//! Byte-pair encoding: a ranked table of symbol-pair merges, and the encoder
//! that applies it to a word.

use vstd::prelude::*;
use crate::tokenization::special_tokens::{EOW, SOW};
use crate::tokenization::tokenizers::symbols::{
    adjacent_pairs, applicable, char_symbols, encoded, initial_symbols, is_next_merge,
    lemma_encoded_is_final, lemma_encoding_spells_the_word, lemma_merged_shorter,
    lemma_next_merge, merged, next_merge, occurs, pair_at, wrapped, SymbolPair, Symbols,
};
use crate::tokenization::tokenizers::training::{
    best_pair, corpus_words, counts_are_positive, counts_of, distinct_pairs, is_best_pair, is_first_greatest, lemma_best_pair,
    lemma_pair_frequency_absent, lemma_pair_frequency_bound, lemma_pair_frequency_positive,
    lemma_table_step,
    lemma_trained_bounds, lemma_trained_on_nothing, lemma_word_table_counts, pair_frequency, rewritten, split_on,
    table_pairs, total_count, trained,
    word_table, WordTable,
};
use crate::utils::sequences::{
    as_nats, concatenated, count_of, first_occurrences, lemma_count_of, lemma_first_occurrences,
    lemma_sum_of_bump, lemma_sum_of_push, sum_of,
};
use crate::utils::text::{char_to_string, copy_words, find_word};

verus! {

/// A pair of symbols as the engine stores it.
pub type Pair = (String, String);

/// What a stored pair stands for.
pub open spec fn pair_view(pair: Pair) -> SymbolPair {
    (pair.0@, pair.1@)
}

/// What a list of stored pairs stands for.
pub open spec fn pairs_view(pairs: Seq<Pair>) -> Seq<SymbolPair> {
    Seq::new(pairs.len(), |i: int| pair_view(pairs[i]))
}

/// One entry of the word table: a word as symbols, and how often it occurs.
pub struct WordCount {
    pub symbols: Vec<String>,
    pub count: usize,
}

/// What a stored word table stands for.
pub open spec fn table_view(entries: Seq<WordCount>) -> WordTable {
    Seq::new(entries.len(), |i: int| (entries[i].symbols.deep_view(), entries[i].count as nat))
}

/// A pair with its frequency in the word table.
pub struct PairCount {
    pub pair: Pair,
    pub count: u128,
}

/// The pairs of a list of pair counts.
pub open spec fn stat_pairs(stats: Seq<PairCount>) -> Seq<SymbolPair> {
    Seq::new(stats.len(), |i: int| pair_view(stats[i].pair))
}

/// The byte-pair encoding engine.
pub struct BPE {
    /// The word table that the last training left.
    vocabulary: Vec<WordCount>,
    /// The merges in the order in which they were learned: a pair's rank is
    /// the position at which it first stands.
    bpe_codes: Vec<Pair>,
    /// The greatest number of merges that training may learn.
    k: u32,
}

/// The symbols between the start-of-word and the end-of-word sentinel.
pub fn wrap_word(word: Vec<String>) -> (wrapped_word: Vec<String>)
    ensures
        wrapped_word.deep_view() == wrapped(word.deep_view()),
{
    let mut out: Vec<String> = Vec::new();
    out.push(SOW.to_owned());
    let mut i: usize = 0;
    while i < word.len()
        invariant
            i <= word.len(),
            out.len() == i + 1,
            out[0]@ == SOW@,
            forall|j: int| 0 <= j < i ==> out[j + 1]@ == word[j]@,
        decreases word.len() - i,
    {
        out.push(word[i].clone());
        i += 1;
    }
    out.push(EOW.to_owned());
    assert(out.deep_view() =~= wrapped(word.deep_view()));
    out
}

/// The words of `text`: the pieces between its single spaces. An empty text
/// has no word.
pub fn split_words(text: &str) -> (words: Vec<String>)
    ensures
        words.deep_view() == corpus_words(text@),
        text@.len() == 0 ==> words.len() == 0,
{
    let mut words: Vec<String> = Vec::new();
    if text.is_empty() {
        assert(words.deep_view() =~= Seq::<Seq<char>>::empty());
        return words;
    }
    let mut current = String::new();
    for c in it: text.chars()
        invariant
            it.seq() == text@,
            split_on(text@.take(it.index() as int), ' ') == words.deep_view().push(current@),
    {
        let ghost before = words.deep_view();
        let ghost prefix = text@.take(it.index() as int);
        let ghost longer = text@.take(it.index() + 1);
        assert(longer.drop_last() =~= prefix);
        assert(longer.last() == c);
        if c == ' ' {
            words.push(current);
            current = String::new();
            assert(words.deep_view().push(current@) =~= before.push(words[words.len() - 1]@).push(
                Seq::empty(),
            ));
        } else {
            let ghost piece = current@;
            current.append(char_to_string(c).as_str());
            assert(current@ =~= piece.push(c));
            assert(before.push(piece).drop_last() =~= before);
        }
    }
    assert(text@.take(text@.len() as int) =~= text@);
    let ghost before = words.deep_view();
    words.push(current);
    assert(words.deep_view() =~= before.push(current@));
    words
}

/// The characters of `word`, each as a string of its own.
pub fn split_chars(word: &str) -> (chars: Vec<String>)
    ensures
        chars.deep_view() == char_symbols(word@),
{
    let mut chars: Vec<String> = Vec::new();
    for c in it: word.chars()
        invariant
            it.seq() == word@,
            chars.len() == it.index(),
            forall|j: int| 0 <= j < chars.len() ==> chars[j]@ == seq![word@[j]],
    {
        chars.push(char_to_string(c));
    }
    assert(chars.deep_view() =~= char_symbols(word@));
    chars
}

/// `word` with every occurrence of `pair` replaced by the concatenation of its
/// two symbols, taken from the left without overlap.
pub fn merge_pair(word: &Vec<String>, pair_to_merge: &Pair) -> (new_word: Vec<String>)
    ensures
        new_word.deep_view() == merged(word.deep_view(), pair_view(*pair_to_merge)),
{
    let ghost symbols = word.deep_view();
    let ghost pair = pair_view(*pair_to_merge);
    let mut new_word: Vec<String> = Vec::new();
    let mut i: usize = 0;
    assert(symbols.skip(0) =~= symbols);
    assert(new_word.deep_view() + merged(symbols, pair) =~= merged(symbols, pair));
    while i < word.len()
        invariant
            i <= word.len(),
            symbols == word.deep_view(),
            pair == pair_view(*pair_to_merge),
            merged(symbols, pair) == new_word.deep_view() + merged(symbols.skip(i as int), pair),
        decreases word.len() - i,
    {
        let ghost rest = symbols.skip(i as int);
        let ghost before = new_word.deep_view();
        if i + 1 < word.len() && word[i] == pair_to_merge.0 && word[i + 1] == pair_to_merge.1 {
            new_word.push(pair_to_merge.0.clone().concat(pair_to_merge.1.as_str()));
            proof {
                assert(rest.skip(2) =~= symbols.skip(i + 2));
                assert(new_word.deep_view() =~= before + seq![pair.0 + pair.1]);
                assert(merged(symbols, pair) =~= new_word.deep_view() + merged(
                    symbols.skip(i + 2),
                    pair,
                ));
            }
            i += 2;
        } else {
            new_word.push(word[i].clone());
            proof {
                assert(new_word.deep_view() =~= before + seq![symbols[i as int]]);
                if rest.len() < 2 {
                    assert(rest =~= seq![symbols[i as int]]);
                    assert(symbols.skip(i + 1).len() == 0);
                } else {
                    assert(rest.skip(1) =~= symbols.skip(i + 1));
                }
                assert(merged(symbols, pair) =~= new_word.deep_view() + merged(
                    symbols.skip(i + 1),
                    pair,
                ));
            }
            i += 1;
        }
    }
    assert(merged(symbols, pair) =~= new_word.deep_view());
    new_word
}

/// The first position of the pair `(left, right)` in `stats`, or `None` when
/// it is not there.
pub fn find_pair(stats: &Vec<PairCount>, left: &String, right: &String) -> (found: Option<usize>)
    ensures
        match found {
            Some(i) => {
                &&& i < stats.len()
                &&& stat_pairs(stats@)[i as int] == (left@, right@)
                &&& forall|j: int| 0 <= j < i ==> stat_pairs(stats@)[j] != (left@, right@)
            },
            None => !stat_pairs(stats@).contains((left@, right@)),
        },
{
    let mut i: usize = 0;
    while i < stats.len()
        invariant
            i <= stats.len(),
            forall|j: int| 0 <= j < i ==> stat_pairs(stats@)[j] != (left@, right@),
        decreases stats.len() - i,
    {
        if stats[i].pair.0 == *left && stats[i].pair.1 == *right {
            return Some(i);
        }
        i += 1;
    }
    None
}

/// A frequency that grows by one more occurrence stays below the square of the
/// greatest machine word, and so within 128 bits.
proof fn lemma_counts_fit(frequency: nat, total: nat, count: nat, times: nat)
    requires
        frequency <= total * usize::MAX,
        total + count <= usize::MAX,
        times < usize::MAX,
    ensures
        frequency + count * times + count <= u128::MAX,
{
    assert(count * times + count <= count * usize::MAX) by (nonlinear_arith)
        requires
            times < usize::MAX,
    ;
    assert(total * usize::MAX + count * usize::MAX <= usize::MAX * usize::MAX)
        by (nonlinear_arith)
        requires
            total + count <= usize::MAX,
    ;
    assert(usize::MAX * usize::MAX <= u128::MAX) by (nonlinear_arith)
        requires
            usize::MAX <= 0xffff_ffff_ffff_ffff,
    ;
}

/// The position of the first greatest count in `stats`, or `None` when
/// `stats` is empty.
pub fn select_best(stats: &Vec<PairCount>) -> (best: Option<usize>)
    ensures
        match best {
            Some(m) => {
                &&& m < stats.len()
                &&& forall|j: int| 0 <= j < stats.len() ==> stats[j].count <= stats[m as int].count
                &&& forall|j: int| 0 <= j < m ==> stats[j].count < stats[m as int].count
            },
            None => stats.len() == 0,
        },
{
    if stats.len() == 0 {
        return None;
    }
    let mut m: usize = 0;
    let mut i: usize = 1;
    while i < stats.len()
        invariant
            m < i <= stats.len(),
            forall|j: int| 0 <= j < i ==> stats[j].count <= stats[m as int].count,
            forall|j: int| 0 <= j < m ==> stats[j].count < stats[m as int].count,
        decreases stats.len() - i,
    {
        if stats[i].count > stats[m].count {
            m = i;
        }
        i += 1;
    }
    Some(m)
}

impl BPE {
    /// The merge table: the pair at position `i` has rank `i`.
    pub closed spec fn merges(&self) -> Seq<SymbolPair> {
        pairs_view(self.bpe_codes@)
    }

    /// The word table that the last training left.
    pub closed spec fn table(&self) -> WordTable {
        table_view(self.vocabulary@)
    }

    /// Every entry of the table stands for at least one word occurrence, and
    /// the table for no more of them than a machine word counts.
    #[verifier::type_invariant]
    spec fn counts_fit(&self) -> bool {
        &&& total_count(table_view(self.vocabulary@)) <= usize::MAX
        &&& counts_are_positive(table_view(self.vocabulary@))
    }

    /// The greatest number of merges that training may learn.
    pub closed spec fn limit(&self) -> nat {
        self.k as nat
    }

    /// An engine that has learned nothing and may learn up to `k` merges.
    pub fn new(k: u32) -> (bpe: BPE)
        ensures
            bpe.merges() == Seq::<SymbolPair>::empty(),
            bpe.table() == Seq::<(Symbols, nat)>::empty(),
            bpe.limit() == k,
    {
        let vocabulary: Vec<WordCount> = Vec::new();
        assert(counts_of(table_view(vocabulary@)) =~= Seq::<nat>::empty());
        let bpe = BPE { vocabulary, bpe_codes: Vec::new(), k };
        assert(bpe.merges() =~= Seq::<SymbolPair>::empty());
        assert(bpe.table() =~= Seq::<(Symbols, nat)>::empty());
        bpe
    }

    /// A copy of the merge table, lowest rank first.
    pub fn learned_merges(&self) -> (merges: Vec<Pair>)
        ensures
            pairs_view(merges@) == self.merges(),
    {
        let mut merges: Vec<Pair> = Vec::new();
        let mut i: usize = 0;
        while i < self.bpe_codes.len()
            invariant
                i <= self.bpe_codes.len(),
                merges.len() == i,
                forall|j: int|
                    0 <= j < i ==> pair_view(#[trigger] merges[j]) == pair_view(self.bpe_codes[j]),
            decreases self.bpe_codes.len() - i,
        {
            merges.push((self.bpe_codes[i].0.clone(), self.bpe_codes[i].1.clone()));
            i += 1;
        }
        assert(pairs_view(merges@) =~= self.merges());
        merges
    }

    /// A copy of the word table.
    pub fn word_counts(&self) -> (table: Vec<WordCount>)
        ensures
            table_view(table@) == self.table(),
    {
        let mut table: Vec<WordCount> = Vec::new();
        let mut i: usize = 0;
        while i < self.vocabulary.len()
            invariant
                i <= self.vocabulary.len(),
                table.len() == i,
                forall|j: int|
                    0 <= j < i ==> (#[trigger] table[j]).symbols.deep_view()
                        == self.vocabulary[j].symbols.deep_view() && table[j].count
                        == self.vocabulary[j].count,
            decreases self.vocabulary.len() - i,
        {
            let symbols = copy_words(&self.vocabulary[i].symbols);
            table.push(WordCount { symbols, count: self.vocabulary[i].count });
            i += 1;
        }
        assert(table_view(table@) =~= self.table());
        table
    }

    /// The greatest number of merges that training may learn.
    pub fn max_merges(&self) -> (k: u32)
        ensures
            k == self.limit(),
    {
        self.k
    }

    /// The adjacent pairs of `word`, left to right.
    pub fn get_pairs(&self, word: &Vec<String>) -> (pairs: Vec<Pair>)
        ensures
            pairs_view(pairs@) == adjacent_pairs(word.deep_view()),
    {
        let mut pairs: Vec<Pair> = Vec::new();
        let mut i: usize = 0;
        while i + 1 < word.len()
            invariant
                pairs.len() == i,
                i < word.len() || i == 0,
                forall|j: int| 0 <= j < i ==> pair_view(#[trigger] pairs[j]) == (word[j]@, word[j + 1]@),
            decreases word.len() - i,
        {
            pairs.push((word[i].clone(), word[i + 1].clone()));
            i += 1;
        }
        assert(pairs_view(pairs@) =~= adjacent_pairs(word.deep_view()));
        pairs
    }

    /// `word` with every occurrence of `pair_to_merge` replaced by the
    /// concatenation of its two symbols, taken from the left without overlap.
    pub fn create_new_word(&self, word: Vec<String>, pair_to_merge: &Pair) -> (new_word: Vec<String>)
        ensures
            new_word.deep_view() == merged(word.deep_view(), pair_view(*pair_to_merge)),
    {
        merge_pair(&word, pair_to_merge)
    }

    /// The word table of `text`: its distinct words in the order in which they
    /// first occur, each as its characters between the two sentinels, with the
    /// number of its occurrences.
    pub fn get_words_count(&self, text: &str) -> (table: Vec<WordCount>)
        ensures
            table_view(table@) == word_table(corpus_words(text@)),
            total_count(table_view(table@)) == corpus_words(text@).len(),
            total_count(table_view(table@)) <= usize::MAX,
            counts_are_positive(table_view(table@)),
            text@.len() == 0 ==> table.len() == 0,
    {
        let words = split_words(text);
        let ghost all = words.deep_view();
        let mut keys: Vec<String> = Vec::new();
        let mut counts: Vec<usize> = Vec::new();
        let mut i: usize = 0;
        while i < words.len()
            invariant
                i <= words.len(),
                all == words.deep_view(),
                keys.deep_view() == first_occurrences(all.take(i as int)),
                counts.len() == keys.len(),
                forall|j: int|
                    0 <= j < keys.len() ==> counts[j] == count_of(
                        all.take(i as int),
                        #[trigger] keys[j]@,
                    ),
                sum_of(as_nats(counts@)) == i,
            decreases words.len() - i,
        {
            let ghost seen = all.take(i as int);
            let ghost longer = all.take(i + 1);
            let ghost old_keys = keys.deep_view();
            let ghost old_counts = as_nats(counts@);
            proof {
                assert(longer.drop_last() =~= seen);
                assert(longer.last() == words[i as int]@);
                lemma_first_occurrences(seen);
            }
            match find_word(&keys, &words[i]) {
                Some(j) => {
                    proof {
                        lemma_count_of(seen, keys[j as int]@);
                        lemma_sum_of_bump(old_counts, j as int);
                        assert(old_keys[j as int] == words[i as int]@);
                    }
                    let bumped = counts[j] + 1;
                    counts.set(j, bumped);
                    proof {
                        assert(as_nats(counts@) =~= old_counts.update(
                            j as int,
                            old_counts[j as int] + 1,
                        ));
                        assert forall|n: int| 0 <= n < keys.len() implies counts[n] == count_of(
                            longer,
                            #[trigger] keys[n]@,
                        ) by {
                            if n != j {
                                assert(old_keys[n] != old_keys[j as int]);
                            }
                        }
                    }
                },
                None => {
                    keys.push(words[i].clone());
                    counts.push(1);
                    proof {
                        lemma_sum_of_push(old_counts, 1);
                        assert(as_nats(counts@) =~= old_counts.push(1));
                        assert(keys.deep_view() =~= old_keys.push(words[i as int]@));
                        lemma_count_of(seen, words[i as int]@);
                        assert forall|n: int| 0 <= n < keys.len() implies counts[n] == count_of(
                            longer,
                            #[trigger] keys[n]@,
                        ) by {
                            if n < old_keys.len() {
                                assert(old_keys[n] == keys[n]@);
                                assert(old_keys.contains(keys[n]@));
                            }
                        }
                    }
                },
            }
            i += 1;
        }
        assert(all.take(words.len() as int) =~= all);
        let mut table: Vec<WordCount> = Vec::new();
        let mut j: usize = 0;
        while j < keys.len()
            invariant
                j <= keys.len(),
                counts.len() == keys.len(),
                table.len() == j,
                forall|n: int|
                    0 <= n < j ==> (#[trigger] table[n]).symbols.deep_view() == initial_symbols(
                        keys[n]@,
                    ) && table[n].count == counts[n],
            decreases keys.len() - j,
        {
            let symbols = wrap_word(split_chars(keys[j].as_str()));
            table.push(WordCount { symbols, count: counts[j] });
            j += 1;
        }
        proof {
            assert(table_view(table@) =~= word_table(all));
            assert(counts_of(table_view(table@)) =~= as_nats(counts@));
            lemma_word_table_counts(all);
        }
        table
    }

    /// The distinct adjacent pairs of the word table in the order in which
    /// they first occur, each with its frequency.
    pub fn get_pair_stats(&self) -> (stats: Vec<PairCount>)
        ensures
            stat_pairs(stats@) == distinct_pairs(self.table()),
            forall|i: int|
                0 <= i < stats.len() ==> (#[trigger] stats[i]).count == pair_frequency(
                    self.table(),
                    pair_view(stats[i].pair),
                ),
            forall|i: int| 0 <= i < stats.len() ==> (#[trigger] stats[i]).count >= 1,
            stat_pairs(stats@).no_duplicates(),
    {
        proof {
            use_type_invariant(self);
        }
        let ghost table = self.table();
        let mut stats: Vec<PairCount> = Vec::new();
        let mut e: usize = 0;
        assert(table.take(0) =~= Seq::<(Symbols, nat)>::empty());
        assert(stat_pairs(stats@) =~= first_occurrences(table_pairs(table.take(0))));
        while e < self.vocabulary.len()
            invariant
                e <= self.vocabulary.len(),
                table == table_view(self.vocabulary@),
                total_count(table) <= usize::MAX,
                stat_pairs(stats@) == first_occurrences(table_pairs(table.take(e as int))),
                forall|i: int|
                    0 <= i < stats.len() ==> (#[trigger] stats[i]).count == pair_frequency(
                        table.take(e as int),
                        pair_view(stats[i].pair),
                    ),
            decreases self.vocabulary.len() - e,
        {
            let entry = &self.vocabulary[e];
            let ghost done = table.take(e as int);
            let ghost here = adjacent_pairs(entry.symbols.deep_view());
            let mut j: usize = 0;
            proof {
                assert(table[e as int] == (entry.symbols.deep_view(), entry.count as nat));
                lemma_table_step(table, e as int);
                assert(table_pairs(done) + here.take(0) =~= table_pairs(done));
                assert forall|i: int| 0 <= i < stats.len() implies (#[trigger] stats[i]).count
                    == pair_frequency(done, pair_view(stats[i].pair)) + entry.count * count_of(
                    here.take(0),
                    pair_view(stats[i].pair),
                ) by {
                    assert(entry.count * 0 == 0);
                }
            }
            while j + 1 < entry.symbols.len()
                invariant
                    j <= here.len(),
                    j < entry.symbols.len() || j == 0,
                    e < self.vocabulary.len(),
                    entry == &self.vocabulary[e as int],
                    here == adjacent_pairs(entry.symbols.deep_view()),
                    table == table_view(self.vocabulary@),
                    done == table.take(e as int),
                    total_count(done) + entry.count <= usize::MAX,
                    stat_pairs(stats@) == first_occurrences(table_pairs(done) + here.take(j as int)),
                    forall|i: int|
                        0 <= i < stats.len() ==> (#[trigger] stats[i]).count == pair_frequency(
                            done,
                            pair_view(stats[i].pair),
                        ) + entry.count * count_of(here.take(j as int), pair_view(stats[i].pair)),
                decreases entry.symbols.len() - j,
            {
                let ghost seen = table_pairs(done) + here.take(j as int);
                let ghost longer = table_pairs(done) + here.take(j + 1);
                let ghost pair = (entry.symbols[j as int]@, entry.symbols[j + 1]@);
                let ghost old_pairs = stat_pairs(stats@);
                let ghost old_stats = stats@;
                proof {
                    assert(here[j as int] == pair);
                    assert(longer =~= seen.push(pair));
                    assert(longer.drop_last() =~= seen);
                    assert(here.take(j + 1).drop_last() =~= here.take(j as int));
                    lemma_first_occurrences(seen);
                }
                match find_pair(&stats, &entry.symbols[j], &entry.symbols[j + 1]) {
                    Some(at) => {
                        proof {
                            assert(old_pairs[at as int] == pair);
                            lemma_count_of(here.take(j as int), pair);
                            assert forall|i: int| 0 <= i < done.len() implies adjacent_pairs(
                                #[trigger] done[i].0,
                            ).len() <= usize::MAX by {
                                assert(done[i] == table[i]);
                                assert(done[i].0 == self.vocabulary[i].symbols.deep_view());
                                assert(self.vocabulary[i].symbols.deep_view().len()
                                    == self.vocabulary[i].symbols.len());
                            }
                            lemma_pair_frequency_bound(done, pair, usize::MAX as nat);
                            lemma_counts_fit(
                                pair_frequency(done, pair),
                                total_count(done),
                                entry.count as nat,
                                count_of(here.take(j as int), pair),
                            );
                        }
                        stats[at].count = stats[at].count + entry.count as u128;
                        proof {
                            assert(stat_pairs(stats@) =~= old_pairs);
                            assert forall|i: int| 0 <= i < stats.len() implies (
                            #[trigger] stats[i]).count == pair_frequency(
                                done,
                                pair_view(stats[i].pair),
                            ) + entry.count * count_of(
                                here.take(j + 1),
                                pair_view(stats[i].pair),
                            ) by {
                                let key = pair_view(stats[i].pair);
                                let before = count_of(here.take(j as int), key);
                                assert(key == old_pairs[i]);
                                if i == at {
                                    assert(entry.count * (before + 1) == entry.count * before
                                        + entry.count) by (nonlinear_arith);
                                } else {
                                    assert(old_pairs[i] != old_pairs[at as int]);
                                    assert(stats[i] == old_stats[i]);
                                }
                            }
                        }
                    },
                    None => {
                        stats.push(
                            PairCount {
                                pair: (entry.symbols[j].clone(), entry.symbols[j + 1].clone()),
                                count: entry.count as u128,
                            },
                        );
                        proof {
                            assert(stat_pairs(stats@) =~= old_pairs.push(pair));
                            assert(!seen.contains(pair));
                            assert(!table_pairs(done).contains(pair)) by {
                                if table_pairs(done).contains(pair) {
                                    let i = choose|i: int|
                                        0 <= i < table_pairs(done).len() && table_pairs(done)[i]
                                            == pair;
                                    assert(seen[i] == pair);
                                }
                            }
                            assert(!here.take(j as int).contains(pair)) by {
                                if here.take(j as int).contains(pair) {
                                    let i = choose|i: int|
                                        0 <= i < j && here.take(j as int)[i] == pair;
                                    assert(seen[table_pairs(done).len() + i] == pair);
                                }
                            }
                            lemma_pair_frequency_absent(done, pair);
                            lemma_count_of(here.take(j as int), pair);
                            assert forall|i: int| 0 <= i < stats.len() implies (
                            #[trigger] stats[i]).count == pair_frequency(
                                done,
                                pair_view(stats[i].pair),
                            ) + entry.count * count_of(
                                here.take(j + 1),
                                pair_view(stats[i].pair),
                            ) by {
                                let key = pair_view(stats[i].pair);
                                if i < old_stats.len() {
                                    assert(stats[i] == old_stats[i]);
                                    assert(key == old_pairs[i]);
                                    assert(old_pairs.contains(key));
                                } else {
                                    assert(key == pair);
                                    assert(entry.count * 1 == entry.count);
                                }
                            }
                        }
                    },
                }
                j += 1;
            }
            proof {
                assert(here.take(j as int) =~= here);
            }
            e += 1;
        }
        assert(table.take(e as int) =~= table);
        proof {
            use_type_invariant(self);
            lemma_first_occurrences(table_pairs(table));
            assert forall|i: int| 0 <= i < stats.len() implies (#[trigger] stats[i]).count
                >= 1 by {
                let pair = pair_view(stats[i].pair);
                assert(stat_pairs(stats@)[i] == pair);
                assert(distinct_pairs(table).contains(pair));
                lemma_pair_frequency_positive(table, pair);
            }
        }
        stats
    }

    /// The pair that a round of training selects from the word table: of its
    /// distinct adjacent pairs, in the order in which they first occur, the
    /// first one of greatest frequency. `None` when the table has no pair left.
    pub fn select_pair(&self) -> (pair: Option<Pair>)
        ensures
            match pair {
                Some(p) => best_pair(self.table()) == Some(pair_view(p)),
                None => best_pair(self.table()) == None::<SymbolPair>,
            },
    {
        let stats = self.get_pair_stats();
        let ghost table = self.table();
        proof {
            lemma_first_occurrences(table_pairs(table));
            lemma_best_pair(table);
        }
        match select_best(&stats) {
            Some(m) => {
                proof {
                    let candidates = distinct_pairs(table);
                    assert forall|j: int| 0 <= j < candidates.len() implies pair_frequency(
                        table,
                        #[trigger] candidates[j],
                    ) <= pair_frequency(table, candidates[m as int]) by {
                        assert(candidates[j] == pair_view(stats[j].pair));
                        assert(stats[j].count <= stats[m as int].count);
                    }
                    assert forall|j: int| 0 <= j < m implies pair_frequency(
                        table,
                        #[trigger] candidates[j],
                    ) < pair_frequency(table, candidates[m as int]) by {
                        assert(candidates[j] == pair_view(stats[j].pair));
                        assert(stats[j].count < stats[m as int].count);
                    }
                    assert(is_first_greatest(table, candidates, m as int));
                    assert(candidates[m as int] == pair_view(stats[m as int].pair));
                    assert(is_best_pair(table, pair_view(stats[m as int].pair)));
                }
                Some((stats[m].pair.0.clone(), stats[m].pair.1.clone()))
            },
            None => {
                proof {
                    assert(distinct_pairs(table).len() == 0);
                    if table_pairs(table).len() > 0 {
                        assert(table_pairs(table).contains(table_pairs(table)[0]));
                    }
                }
                None
            },
        }
    }

    /// The word table after a merge: every entry rewritten with `best_pair`
    /// merged, its count unchanged.
    pub fn get_new_vocabulary(&self, best_pair: &Pair) -> (table: Vec<WordCount>)
        ensures
            table_view(table@) == rewritten(self.table(), pair_view(*best_pair)),
            total_count(table_view(table@)) == total_count(self.table()),
            counts_are_positive(table_view(table@)),
    {
        proof {
            use_type_invariant(self);
        }
        let mut table: Vec<WordCount> = Vec::new();
        let mut i: usize = 0;
        while i < self.vocabulary.len()
            invariant
                i <= self.vocabulary.len(),
                table.len() == i,
                forall|j: int|
                    0 <= j < i ==> (#[trigger] table[j]).symbols.deep_view() == merged(
                        self.vocabulary[j].symbols.deep_view(),
                        pair_view(*best_pair),
                    ) && table[j].count == self.vocabulary[j].count,
            decreases self.vocabulary.len() - i,
        {
            let symbols = merge_pair(&self.vocabulary[i].symbols, best_pair);
            table.push(WordCount { symbols, count: self.vocabulary[i].count });
            i += 1;
        }
        proof {
            assert(table_view(table@) =~= rewritten(self.table(), pair_view(*best_pair)));
            assert(counts_of(table_view(table@)) =~= counts_of(self.table()));
        }
        table
    }

    /// Trains on `corpus`: the word table is built from its space-separated
    /// words (an empty corpus has none), then up to `k` rounds each select the best pair, record it at the
    /// next rank and rewrite the table. Training stops early when no pair is
    /// left. What an earlier training left is replaced.
    pub fn fit(&mut self, corpus: &str)
        ensures
            final(self).limit() == old(self).limit(),
            (final(self).merges(), final(self).table()) == trained(
                word_table(corpus_words(corpus@)),
                Seq::empty(),
                old(self).limit(),
            ),
            final(self).merges().len() <= old(self).limit(),
            final(self).merges().len() < old(self).limit() ==> table_pairs(
                final(self).table(),
            ).len() == 0,
            corpus@.len() == 0 ==> final(self).merges().len() == 0 && final(self).table().len()
                == 0,
    {
        let ghost start = word_table(corpus_words(corpus@));
        let ghost rounds = self.limit();
        let table = self.get_words_count(corpus);
        self.vocabulary = table;
        let mut codes: Vec<Pair> = Vec::new();
        assert(pairs_view(codes@) =~= Seq::<SymbolPair>::empty());
        let mut index: u32 = 0;
        while index < self.k
            invariant
                index <= self.k,
                self.limit() == rounds,
                rounds == old(self).limit(),
                start == word_table(corpus_words(corpus@)),
                trained(self.table(), pairs_view(codes@), (self.k - index) as nat) == trained(
                    start,
                    Seq::empty(),
                    rounds,
                ),
            decreases self.k - index,
        {
            match self.select_pair() {
                None => {
                    proof {
                        use_type_invariant(&*self);
                        lemma_trained_bounds(start, Seq::empty(), rounds);
                        lemma_trained_on_nothing(rounds);
                    }
                    self.bpe_codes = codes;
                    return ;
                },
                Some(pair) => {
                    let ghost merges = pairs_view(codes@);
                    let table = self.get_new_vocabulary(&pair);
                    proof {
                        use_type_invariant(&*self);
                    }
                    self.vocabulary = table;
                    codes.push(pair);
                    assert(pairs_view(codes@) =~= merges.push(pair_view(pair)));
                },
            }
            index += 1;
        }
        proof {
            use_type_invariant(&*self);
            lemma_trained_bounds(start, Seq::empty(), rounds);
            lemma_trained_on_nothing(rounds);
        }
        self.bpe_codes = codes;
    }

    /// Encodes every space-separated word of `corpus` on its own. An empty
    /// corpus has no word and gives an empty result.
    pub fn transform(&self, corpus: &str) -> (encoding: Vec<Vec<String>>)
        ensures
            encoding.len() == corpus_words(corpus@).len(),
            corpus@.len() == 0 ==> encoding.len() == 0,
            forall|i: int|
                0 <= i < encoding.len() ==> (#[trigger] encoding[i]).deep_view() == encoded(
                    initial_symbols(corpus_words(corpus@)[i]),
                    self.merges(),
                ),
    {
        let words = split_words(corpus);
        let mut encoding: Vec<Vec<String>> = Vec::new();
        let mut i: usize = 0;
        while i < words.len()
            invariant
                i <= words.len(),
                words.deep_view() == corpus_words(corpus@),
                encoding.len() == i,
                forall|j: int|
                    0 <= j < i ==> (#[trigger] encoding[j]).deep_view() == encoded(
                        initial_symbols(words[j]@),
                        self.merges(),
                    ),
            decreases words.len() - i,
        {
            encoding.push(self.tokenize(words[i].as_str()));
            i += 1;
        }
        assert forall|i: int| 0 <= i < encoding.len() implies (#[trigger] encoding[i]).deep_view()
            == encoded(initial_symbols(corpus_words(corpus@)[i]), self.merges()) by {
            assert(words.deep_view()[i] == words[i]@);
        }
        encoding
    }

    /// The rank of a pair: the first position at which it stands in the merge
    /// table, or `None` when it was never learned.
    pub fn rank_of(&self, pair: &Pair) -> (rank: Option<usize>)
        ensures
            match rank {
                Some(r) => {
                    &&& r < self.merges().len()
                    &&& self.merges()[r as int] == pair_view(*pair)
                    &&& forall|q: int| 0 <= q < r ==> self.merges()[q] != pair_view(*pair)
                },
                None => forall|q: int|
                    0 <= q < self.merges().len() ==> self.merges()[q] != pair_view(*pair),
            },
    {
        let mut r: usize = 0;
        while r < self.bpe_codes.len()
            invariant
                r <= self.bpe_codes.len(),
                forall|q: int| 0 <= q < r ==> self.merges()[q] != pair_view(*pair),
            decreases self.bpe_codes.len() - r,
        {
            if self.bpe_codes[r].0 == pair.0 && self.bpe_codes[r].1 == pair.1 {
                return Some(r);
            }
            r += 1;
        }
        None
    }

    /// The merge that encoding applies next to `word`: among the adjacent
    /// pairs that the table knows, the one of lowest rank.
    pub fn select_merge(&self, word: &Vec<String>) -> (rank: Option<usize>)
        ensures
            match rank {
                Some(r) => is_next_merge(word.deep_view(), self.merges(), r as int),
                None => forall|r: int| !applicable(word.deep_view(), self.merges(), r),
            },
            rank is Some <==> next_merge(word.deep_view(), self.merges()) is Some,
            rank is Some ==> next_merge(word.deep_view(), self.merges()) == Some(rank->0 as int),
    {
        let ghost symbols = word.deep_view();
        let pairs = self.get_pairs(word);
        let mut best: Option<usize> = None;
        let mut i: usize = 0;
        assert(pairs_view(pairs@).len() == pairs.len());
        while i < pairs.len()
            invariant
                i <= pairs.len(),
                symbols == word.deep_view(),
                pairs_view(pairs@) == adjacent_pairs(symbols),
                pairs.len() == adjacent_pairs(symbols).len(),
                match best {
                    Some(b) => {
                        &&& b < self.merges().len()
                        &&& occurs(symbols, self.merges()[b as int])
                        &&& forall|p: int, q: int|
                            0 <= p < i && 0 <= q < b ==> self.merges()[q] != adjacent_pairs(
                                symbols,
                            )[p]
                    },
                    None => forall|p: int, q: int|
                        0 <= p < i && 0 <= q < self.merges().len() ==> self.merges()[q]
                            != adjacent_pairs(symbols)[p],
                },
            decreases pairs.len() - i,
        {
            let found = self.rank_of(&pairs[i]);
            proof {
                assert(pair_view(pairs[i as int]) == pairs_view(pairs@)[i as int]);
                assert(pair_view(pairs[i as int]) == adjacent_pairs(symbols)[i as int]);
            }
            match found {
                Some(r) => {
                    let better = match best {
                        Some(b) => r < b,
                        None => true,
                    };
                    if better {
                        proof {
                            assert(pair_at(symbols, i as int, self.merges()[r as int]));
                        }
                        best = Some(r);
                    }
                },
                None => {},
            }
            i += 1;
        }
        proof {
            match best {
                Some(b) => {
                    assert forall|lower: int| 0 <= lower < b implies !applicable(
                        symbols,
                        self.merges(),
                        lower,
                    ) by {
                        if occurs(symbols, self.merges()[lower]) {
                            let p = choose|p: int| pair_at(symbols, p, self.merges()[lower]);
                            assert(adjacent_pairs(symbols)[p] == self.merges()[lower]);
                        }
                    }
                },
                None => {
                    assert forall|r: int| !applicable(symbols, self.merges(), r) by {
                        if applicable(symbols, self.merges(), r) {
                            let p = choose|p: int| pair_at(symbols, p, self.merges()[r]);
                            assert(adjacent_pairs(symbols)[p] == self.merges()[r]);
                        }
                    }
                },
            }
            lemma_next_merge(symbols, self.merges());
        }
        best
    }

    /// Encodes one word: its characters between the two sentinels, merged by
    /// the table until no pair of the table stands in the sequence. The engine
    /// is left as it is.
    pub fn tokenize(&self, word: &str) -> (symbols: Vec<String>)
        ensures
            symbols.deep_view() == encoded(initial_symbols(word@), self.merges()),
            concatenated(symbols.deep_view()) == SOW@ + word@ + EOW@,
            forall|rank: int| !applicable(symbols.deep_view(), self.merges(), rank),
    {
        let mut symbols = wrap_word(split_chars(word));
        loop
            invariant
                encoded(symbols.deep_view(), self.merges()) == encoded(
                    initial_symbols(word@),
                    self.merges(),
                ),
            decreases symbols.len(),
        {
            match self.select_merge(&symbols) {
                None => {
                    proof {
                        lemma_encoding_spells_the_word(word@, self.merges());
                        lemma_encoded_is_final(initial_symbols(word@), self.merges());
                    }
                    return symbols;
                },
                Some(rank) => {
                    proof {
                        lemma_merged_shorter(symbols.deep_view(), self.merges()[rank as int]);
                    }
                    symbols = self.create_new_word(symbols, &self.bpe_codes[rank]);
                },
            }
        }
    }
}

/// Encoding is repeatable: what a word is encoded to depends on the word and
/// the merge table alone, so two engines with the same table, or one engine
/// asked twice, encode a word alike.
pub proof fn lemma_encoding_is_repeatable(first: &BPE, second: &BPE, word: Seq<char>)
    requires
        first.merges() == second.merges(),
    ensures
        encoded(initial_symbols(word), first.merges()) == encoded(
            initial_symbols(word),
            second.merges(),
        ),
{
}

} // verus!
