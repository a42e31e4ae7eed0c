use dante::tokenization::tokenizers::bpe::{
    find_pair, merge_pair, select_best, split_chars, split_words, wrap_word, PairCount, BPE,
};
use dante::utils::text::find_word;

fn strings(items: &[&str]) -> Vec<String> {
    items.iter().map(|s| s.to_string()).collect()
}

fn pair(left: &str, right: &str) -> (String, String) {
    (left.to_string(), right.to_string())
}

fn table(bpe: &BPE) -> Vec<(Vec<String>, usize)> {
    bpe.word_counts().into_iter().map(|entry| (entry.symbols, entry.count)).collect()
}

fn stats(bpe: &BPE) -> Vec<((String, String), u128)> {
    bpe.get_pair_stats().into_iter().map(|stat| (stat.pair, stat.count)).collect()
}

#[test]
fn word_is_wrapped_in_the_word_sentinels() {
    assert_eq!(wrap_word(strings(&["a", "b"])), strings(&["<w>", "a", "b", "</w>"]));
    assert_eq!(wrap_word(strings(&[])), strings(&["<w>", "</w>"]));
}

#[test]
fn corpus_is_split_on_single_spaces() {
    assert_eq!(split_words("a bc d"), strings(&["a", "bc", "d"]));
    assert_eq!(split_words(""), strings(&[]));
    assert_eq!(split_words(" "), strings(&["", ""]));
    assert_eq!(split_words(" a  b "), strings(&["", "a", "", "b", ""]));
    assert_eq!(split_words("a\tb\nc"), strings(&["a\tb\nc"]));
}

#[test]
fn word_is_split_into_characters() {
    assert_eq!(split_chars("héé"), strings(&["h", "é", "é"]));
    assert_eq!(split_chars(""), strings(&[]));
}

#[test]
fn new_engine_has_learned_nothing() {
    let bpe = BPE::new(7);
    assert_eq!(bpe.max_merges(), 7);
    assert!(bpe.learned_merges().is_empty());
    assert!(table(&bpe).is_empty());
    assert!(stats(&bpe).is_empty());
    assert_eq!(bpe.select_pair(), None);
}

#[test]
fn untrained_engine_encodes_at_character_level() {
    let bpe = BPE::new(3);
    assert_eq!(bpe.tokenize("abc"), strings(&["<w>", "a", "b", "c", "</w>"]));
    assert_eq!(bpe.tokenize(""), strings(&["<w>", "</w>"]));
}

#[test]
fn zero_merges_leave_the_character_level() {
    let mut bpe = BPE::new(0);
    bpe.fit("aa aa ab");
    assert!(bpe.learned_merges().is_empty());
    assert_eq!(
        table(&bpe),
        vec![(strings(&["<w>", "a", "a", "</w>"]), 2), (strings(&["<w>", "a", "b", "</w>"]), 1)]
    );
    assert_eq!(bpe.tokenize("aa"), strings(&["<w>", "a", "a", "</w>"]));
    assert_eq!(
        bpe.transform("ab ba"),
        vec![strings(&["<w>", "a", "b", "</w>"]), strings(&["<w>", "b", "a", "</w>"])]
    );
}

#[test]
fn word_table_counts_words_in_first_occurrence_order() {
    let bpe = BPE::new(0);
    let counted: Vec<(Vec<String>, usize)> = bpe
        .get_words_count("b a b  b")
        .into_iter()
        .map(|entry| (entry.symbols, entry.count))
        .collect();
    assert_eq!(
        counted,
        vec![
            (strings(&["<w>", "b", "</w>"]), 3),
            (strings(&["<w>", "a", "</w>"]), 1),
            (strings(&["<w>", "</w>"]), 1),
        ]
    );
}

#[test]
fn pair_statistics_weigh_occurrences_by_word_count() {
    let mut bpe = BPE::new(0);
    bpe.fit("aa aa ab");
    assert_eq!(
        stats(&bpe),
        vec![
            (pair("<w>", "a"), 3),
            (pair("a", "a"), 2),
            (pair("a", "</w>"), 2),
            (pair("a", "b"), 1),
            (pair("b", "</w>"), 1),
        ]
    );
    assert_eq!(bpe.select_pair(), Some(pair("<w>", "a")));
}

#[test]
fn pair_statistics_count_overlapping_occurrences() {
    let mut bpe = BPE::new(0);
    bpe.fit("aaa");
    assert_eq!(
        stats(&bpe),
        vec![(pair("<w>", "a"), 1), (pair("a", "a"), 2), (pair("a", "</w>"), 1)]
    );
    assert_eq!(bpe.select_pair(), Some(pair("a", "a")));
}

#[test]
fn training_learns_the_most_frequent_pair_first() {
    let mut bpe = BPE::new(2);
    bpe.fit("aa aa ab");
    assert_eq!(bpe.learned_merges(), vec![pair("<w>", "a"), pair("<w>a", "a")]);
    assert_eq!(
        table(&bpe),
        vec![(strings(&["<w>aa", "</w>"]), 2), (strings(&["<w>a", "b", "</w>"]), 1)]
    );
    assert_eq!(bpe.rank_of(&pair("<w>", "a")), Some(0));
    assert_eq!(bpe.rank_of(&pair("<w>a", "a")), Some(1));
    assert_eq!(bpe.rank_of(&pair("a", "a")), None);
}

#[test]
fn ties_go_to_the_pair_that_occurs_first() {
    let mut bpe = BPE::new(1);
    bpe.fit("xy");
    assert_eq!(bpe.learned_merges(), vec![pair("<w>", "x")]);
    let mut other = BPE::new(1);
    other.fit("ba ab");
    assert_eq!(other.learned_merges(), vec![pair("<w>", "b")]);
}

#[test]
fn encoding_applies_merges_by_rank() {
    let mut bpe = BPE::new(2);
    bpe.fit("aa aa ab");
    assert_eq!(bpe.tokenize("aa"), strings(&["<w>aa", "</w>"]));
    assert_eq!(bpe.tokenize("ab"), strings(&["<w>a", "b", "</w>"]));
    assert_eq!(bpe.tokenize("ba"), strings(&["<w>", "b", "a", "</w>"]));
    assert_eq!(bpe.tokenize("aaa"), strings(&["<w>aa", "a", "</w>"]));
    assert_eq!(bpe.select_merge(&strings(&["<w>", "a", "a", "</w>"])), Some(0));
    assert_eq!(bpe.select_merge(&strings(&["<w>a", "a", "</w>"])), Some(1));
    assert_eq!(bpe.select_merge(&strings(&["<w>aa", "</w>"])), None);
}

#[test]
fn lower_rank_is_preferred_over_a_higher_one() {
    let mut bpe = BPE::new(3);
    bpe.fit("ab ab ab cd cd");
    assert_eq!(
        bpe.learned_merges(),
        vec![pair("<w>", "a"), pair("<w>a", "b"), pair("<w>ab", "</w>")]
    );
    let mut second = BPE::new(5);
    second.fit("ab ab ab cd cd");
    assert_eq!(
        second.learned_merges(),
        vec![
            pair("<w>", "a"),
            pair("<w>a", "b"),
            pair("<w>ab", "</w>"),
            pair("<w>", "c"),
            pair("<w>c", "d"),
        ]
    );
    let word = strings(&["<w>", "c", "<w>", "a"]);
    assert_eq!(second.select_merge(&word), Some(0));
    assert_eq!(second.create_new_word(word, &pair("<w>", "a")), strings(&["<w>", "c", "<w>a"]));
}

#[test]
fn encoding_is_repeatable() {
    let mut bpe = BPE::new(4);
    bpe.fit("low low lower lowest");
    let once = bpe.tokenize("lowly");
    let again = bpe.tokenize("lowly");
    assert_eq!(once, again);
    assert_eq!(bpe.transform("low lowly"), vec![bpe.tokenize("low"), bpe.tokenize("lowly")]);
    assert_eq!(bpe.learned_merges().len(), 4);
}

#[test]
fn encoding_an_unseen_character_falls_back_to_characters() {
    let mut bpe = BPE::new(2);
    bpe.fit("aa aa ab");
    assert_eq!(bpe.tokenize("zq"), strings(&["<w>", "z", "q", "</w>"]));
    assert_eq!(bpe.tokenize("za"), strings(&["<w>", "z", "a", "</w>"]));
}

#[test]
fn encoding_spells_the_wrapped_word() {
    let mut bpe = BPE::new(10);
    bpe.fit("the theme then");
    for word in ["the", "then", "hen", "", "tthhee"] {
        assert_eq!(bpe.tokenize(word).concat(), format!("<w>{}</w>", word));
    }
}

#[test]
fn single_character_words_stop_training_early() {
    let mut bpe = BPE::new(10);
    bpe.fit("a b a");
    assert_eq!(
        bpe.learned_merges(),
        vec![pair("<w>", "a"), pair("<w>a", "</w>"), pair("<w>", "b"), pair("<w>b", "</w>")]
    );
    assert_eq!(table(&bpe), vec![(strings(&["<w>a</w>"]), 2), (strings(&["<w>b</w>"]), 1)]);
    assert!(stats(&bpe).is_empty());
    assert_eq!(bpe.tokenize("a"), strings(&["<w>a</w>"]));
}

#[test]
fn empty_corpus_trains_nothing_and_encodes_to_nothing() {
    let mut bpe = BPE::new(5);
    bpe.fit("");
    assert!(bpe.learned_merges().is_empty());
    assert!(table(&bpe).is_empty());
    assert!(stats(&bpe).is_empty());
    assert!(bpe.get_words_count("").is_empty());
    let nothing: Vec<Vec<String>> = Vec::new();
    assert_eq!(bpe.transform(""), nothing);
    let mut trained = BPE::new(2);
    trained.fit("aa aa ab");
    assert_eq!(trained.transform(""), nothing);
    trained.fit("");
    assert!(trained.learned_merges().is_empty());
    assert!(table(&trained).is_empty());
}

#[test]
fn empty_words_between_spaces_are_words() {
    let mut bpe = BPE::new(1);
    bpe.fit(" ");
    assert_eq!(table(&bpe), vec![(strings(&["<w></w>"]), 2)]);
    assert_eq!(bpe.learned_merges(), vec![pair("<w>", "</w>")]);
    assert_eq!(bpe.transform(" "), vec![strings(&["<w></w>"]), strings(&["<w></w>"])]);
}

#[test]
fn pair_statistics_hold_no_pair_twice_and_no_zero() {
    let mut bpe = BPE::new(0);
    bpe.fit("abab abab ba");
    let counted = stats(&bpe);
    for (i, (found, count)) in counted.iter().enumerate() {
        assert!(*count >= 1);
        for (other, _) in counted.iter().skip(i + 1) {
            assert!(found != other);
        }
    }
    assert_eq!(counted[1], (pair("a", "b"), 4));
}

#[test]
fn fitting_again_replaces_what_was_learned() {
    let mut bpe = BPE::new(1);
    bpe.fit("aa");
    assert_eq!(bpe.learned_merges(), vec![pair("<w>", "a")]);
    bpe.fit("bb");
    assert_eq!(bpe.learned_merges(), vec![pair("<w>", "b")]);
    assert_eq!(table(&bpe), vec![(strings(&["<w>b", "b", "</w>"]), 1)]);
    assert_eq!(bpe.max_merges(), 1);
}

#[test]
fn merge_replaces_every_occurrence_from_the_left() {
    let ab = pair("a", "b");
    assert_eq!(merge_pair(&strings(&["a", "b", "c", "a", "b"]), &ab), strings(&["ab", "c", "ab"]));
    let aa = pair("a", "a");
    assert_eq!(merge_pair(&strings(&["a", "a", "a"]), &aa), strings(&["aa", "a"]));
    assert_eq!(merge_pair(&strings(&["a", "a", "a", "a"]), &aa), strings(&["aa", "aa"]));
    assert_eq!(merge_pair(&strings(&["b", "a"]), &ab), strings(&["b", "a"]));
    assert_eq!(merge_pair(&strings(&["a"]), &ab), strings(&["a"]));
    assert_eq!(merge_pair(&strings(&[]), &ab), strings(&[]));
}

#[test]
fn merge_matches_whole_symbols_only() {
    let ab = pair("a", "b");
    assert_eq!(merge_pair(&strings(&["xa", "b"]), &ab), strings(&["xa", "b"]));
    assert_eq!(merge_pair(&strings(&["a", "bx"]), &ab), strings(&["a", "bx"]));
}

#[test]
fn adjacent_pairs_are_listed_left_to_right() {
    let bpe = BPE::new(0);
    assert_eq!(
        bpe.get_pairs(&strings(&["a", "b", "c"])),
        vec![pair("a", "b"), pair("b", "c")]
    );
    assert!(bpe.get_pairs(&strings(&["a"])).is_empty());
    assert!(bpe.get_pairs(&strings(&[])).is_empty());
}

#[test]
fn rewritten_table_keeps_the_counts() {
    let mut bpe = BPE::new(0);
    bpe.fit("ab ab b");
    let rewritten: Vec<(Vec<String>, usize)> = bpe
        .get_new_vocabulary(&pair("a", "b"))
        .into_iter()
        .map(|entry| (entry.symbols, entry.count))
        .collect();
    assert_eq!(
        rewritten,
        vec![(strings(&["<w>", "ab", "</w>"]), 2), (strings(&["<w>", "b", "</w>"]), 1)]
    );
}

#[test]
fn helpers_find_the_first_position() {
    let words = strings(&["a", "b", "a"]);
    assert_eq!(find_word(&words, &"a".to_string()), Some(0));
    assert_eq!(find_word(&words, &"c".to_string()), None);
    let counts = vec![
        PairCount { pair: pair("a", "b"), count: 2 },
        PairCount { pair: pair("b", "c"), count: 5 },
        PairCount { pair: pair("c", "d"), count: 5 },
    ];
    assert_eq!(find_pair(&counts, &"b".to_string(), &"c".to_string()), Some(1));
    let twice = vec![
        PairCount { pair: pair("a", "b"), count: 1 },
        PairCount { pair: pair("b", "c"), count: 2 },
        PairCount { pair: pair("b", "c"), count: 3 },
    ];
    assert_eq!(find_pair(&twice, &"b".to_string(), &"c".to_string()), Some(1));
    assert_eq!(find_pair(&counts, &"c".to_string(), &"b".to_string()), None);
    assert_eq!(select_best(&counts), Some(1));
    assert_eq!(select_best(&Vec::new()), None);
}
