use dante::models::language::mle::{
    find_candidate, find_context, first_words, last_words, pick_word, ContextCount, WordWeight,
    MLE,
};
use dante::tokenization::special_tokens::{EOS, SOS, UNK};
use dante::utils::text::{copy_words, same_words};

fn words(words: &[&str]) -> Vec<String> {
    words.iter().map(|w| w.to_string()).collect()
}

fn weighted(model: &MLE, sentence: &[&str]) -> Vec<(String, usize)> {
    model.candidates(&words(sentence)).into_iter().map(|c| (c.word, c.weight)).collect()
}

#[test]
fn new_model_has_seen_nothing() {
    let model = MLE::new(2);
    assert_eq!(model.n(), 2);
    assert_eq!(model.ngram_count(), 0);
    assert_eq!(model.contexts_seen(), 0);
    assert_eq!(model.context_count(&words(&["a"])), 0);
    assert_eq!(model.count_of_ngram(&words(&["a", "b"])), 0);
    assert!(model.vocabulary().is_empty());
    assert_eq!(model.generate_word(words(&["a"])), UNK);
}

#[test]
fn fit_stores_the_padded_ngrams_and_counts_contexts() {
    let mut model = MLE::new_(2);
    model.fit_(&words(&["a", "b", "a", "c"]), &words(&["a", "b", "c"]));
    assert_eq!(model.ngram_count(), 5);
    assert_eq!(model.contexts_seen(), 5);
    assert_eq!(model.vocabulary(), words(&["a", "b", "c"]));
    assert_eq!(model.count_of_ngram(&words(&[SOS, "a"])), 1);
    assert_eq!(model.count_of_ngram(&words(&["a", "b"])), 1);
    assert_eq!(model.count_of_ngram(&words(&["c", EOS])), 1);
    assert_eq!(model.count_of_ngram(&words(&["b", "c"])), 0);
    assert_eq!(model.count_of_ngram(&words(&["a"])), 0);
    assert_eq!(model.context_count(&words(&["a"])), 2);
    assert_eq!(model.context_count(&words(&["b"])), 1);
    assert_eq!(model.context_count(&words(&[SOS])), 1);
    assert_eq!(model.context_count(&words(&[EOS])), 0);
}

#[test]
fn trigram_contexts_have_two_words() {
    let mut model = MLE::new(3);
    model.fit(words(&["a", "b"]), words(&[]));
    assert_eq!(model.ngram_count(), 4);
    assert_eq!(model.count_of_ngram(&words(&[SOS, SOS, "a"])), 1);
    assert_eq!(model.count_of_ngram(&words(&["b", EOS, EOS])), 1);
    assert_eq!(model.context_count(&words(&[SOS, SOS])), 1);
    assert_eq!(model.context_count(&words(&["a", "b"])), 1);
    assert_eq!(model.context_count(&words(&["a"])), 0);
}

#[test]
fn refit_replaces_the_ngrams_and_keeps_the_context_counts() {
    let mut model = MLE::new(2);
    model.fit(words(&["a", "b"]), words(&["a", "b"]));
    model.fit(words(&["a", "c"]), words(&["c"]));
    assert_eq!(model.ngram_count(), 3);
    assert_eq!(model.contexts_seen(), 6);
    assert_eq!(model.vocabulary(), words(&["c"]));
    assert_eq!(model.count_of_ngram(&words(&["a", "b"])), 0);
    assert_eq!(model.count_of_ngram(&words(&["a", "c"])), 1);
    assert_eq!(model.context_count(&words(&["a"])), 2);
    assert_eq!(model.context_count(&words(&["b"])), 1);
    assert_eq!(model.context_count(&words(&["c"])), 1);
    assert_eq!(model.context_count(&words(&[SOS])), 2);
}

#[test]
fn candidates_are_weighted_by_their_occurrences() {
    let mut model = MLE::new(2);
    model.fit(words(&["a", "b", "a", "c", "a", "b"]), words(&[]));
    assert_eq!(weighted(&model, &["a"]), vec![("b".to_string(), 2), ("c".to_string(), 1)]);
    assert_eq!(weighted(&model, &["x", "b"]), vec![("a".to_string(), 1), (EOS.to_string(), 1)]);
    assert_eq!(weighted(&model, &["z"]), vec![]);
}

#[test]
fn generated_word_followed_the_context() {
    let mut model = MLE::new(2);
    model.fit(words(&["a", "b", "a", "c", "a", "b"]), words(&[]));
    for _ in 0..50 {
        let word = model.generate_word(words(&["a"]));
        assert!(word == "b" || word == "c");
    }
    assert_eq!(model.generate_word(words(&["c"])), "a");
    assert_eq!(model.generate_word_(&words(&["unseen"])), UNK);
}

#[test]
fn generation_reads_the_last_words_only() {
    let mut model = MLE::new(3);
    model.fit(words(&["a", "b", "c"]), words(&[]));
    assert_eq!(model.generate_word(words(&["x", "y", "a", "b"])), "c");
    assert_eq!(model.generate_word(words(&["a", "b"])), "c");
    assert_eq!(model.generate_word(words(&["b", "a"])), UNK);
}

#[test]
fn picked_word_is_the_one_drawn() {
    let candidates = vec![
        WordWeight { word: "a".to_string(), weight: 1 },
        WordWeight { word: "b".to_string(), weight: 2 },
    ];
    assert_eq!(pick_word(&candidates, Some(0)), "a");
    assert_eq!(pick_word(&candidates, Some(1)), "b");
    assert_eq!(pick_word(&candidates, Some(2)), UNK);
    assert_eq!(pick_word(&candidates, None), UNK);
    assert_eq!(find_candidate(&candidates, &"b".to_string()), Some(1));
    assert_eq!(find_candidate(&candidates, &"c".to_string()), None);
}

#[test]
fn word_sequences_are_compared_and_cut() {
    let all = words(&["a", "b", "c"]);
    assert!(same_words(&all, &words(&["a", "b", "c"])));
    assert!(!same_words(&all, &words(&["a", "b"])));
    assert!(!same_words(&all, &words(&["a", "b", "d"])));
    assert!(same_words(&words(&[]), &words(&[])));
    assert_eq!(copy_words(&all), all);
    assert_eq!(first_words(&all, 2), words(&["a", "b"]));
    assert_eq!(first_words(&all, 0), words(&[]));
    assert_eq!(last_words(&all, 1), words(&["b", "c"]));
    assert_eq!(last_words(&all, 3), words(&[]));
    let table = vec![
        ContextCount { context: words(&["a"]), count: 2 },
        ContextCount { context: words(&["a", "b"]), count: 1 },
    ];
    assert_eq!(find_context(&table, &words(&["a", "b"])), Some(1));
    assert_eq!(find_context(&table, &words(&["b"])), None);
}
