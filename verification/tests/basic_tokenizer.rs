use dante::tokenization::pre_tokenizers::PreTokenizerKind;
use dante::tokenization::special_tokens::UNK;
use dante::tokenization::token::Token;
use dante::tokenization::tokenizers::basic::BasicTokenizer;
use dante::tokenization::tokenizers::noop::NoopTokenizer;
use dante::tokenization::tokenizers::tokenizer::Tokenizer;

fn tokens(words: &[&str]) -> Vec<Token> {
    words.iter().map(|w| Token { word: w.to_string() }).collect()
}

#[test]
fn fitted_vocabulary() {
    let mut tokenizer = BasicTokenizer::new_(None, None);

    tokenizer.fit("Hello World!");
    assert_eq!(tokenizer.vocabulary, vec!["Hello", "World!"]);
}

#[test]
fn custom_vocabulary() {
    let mut tokenizer = BasicTokenizer::new_(Some(&vec!["Lucas".to_string()]), None);

    tokenizer.fit("Hello World!");
    assert_eq!(tokenizer.vocabulary, vec!["Lucas", "Hello", "World!"]);
}

#[test]
fn pre_tokenizers_are_applied() {
    let mut tokenizer = BasicTokenizer::new_(None, Some(&vec![PreTokenizerKind::WhiteSpace]));

    tokenizer.fit("Hello World!");
    assert_eq!(tokenizer.vocabulary, vec!["Hello", "World!"]);
}

#[test]
fn transformation() {
    let mut tokenizer = BasicTokenizer::new_(
        None,
        Some(&vec![PreTokenizerKind::WhiteSpace, PreTokenizerKind::Punctuation]),
    );

    tokenizer.fit("Hello World!");
    let result: Vec<Token> = tokenizer.transform("Hello Lucas!");
    assert_eq!(
        result,
        vec![
            Token { word: "Hello".to_string() },
            Token { word: UNK.to_string() },
            Token { word: "!".to_string() },
        ]
    );
}

#[test]
fn seed_is_not_deduplicated_against_the_corpus() {
    let mut tokenizer = BasicTokenizer::new(
        vec!["Hello".to_string(), "Hello".to_string()],
        vec![PreTokenizerKind::WhiteSpace],
    );
    tokenizer.fit("Hello World Hello");
    assert_eq!(tokenizer.vocabulary, vec!["Hello", "Hello", "Hello", "World"]);
    assert_eq!(tokenizer.vocabulary(), tokenizer.vocabulary);
}

#[test]
fn fitting_twice_appends_twice() {
    let mut tokenizer = BasicTokenizer::new_(None, Some(&vec![PreTokenizerKind::WhiteSpace]));
    tokenizer.fit("a b a");
    tokenizer.fit("b c");
    assert_eq!(tokenizer.vocabulary, vec!["a", "b", "b", "c"]);
}

#[test]
fn empty_corpus_without_stages_has_no_token() {
    let mut tokenizer = BasicTokenizer::new_(Some(&vec!["seed".to_string()]), None);
    assert_eq!(tokenizer.pre_process(""), tokens(&[]));
    assert_eq!(tokenizer.transform(""), tokens(&[]));
    tokenizer.fit("");
    assert_eq!(tokenizer.vocabulary, vec!["seed"]);
    assert_eq!(tokenizer.fit_transform(" \t\n"), tokens(&[]));
    assert_eq!(tokenizer.vocabulary, vec!["seed"]);
}

#[test]
fn splitter_runs_before_the_chain() {
    let none = BasicTokenizer::new_(None, None);
    assert_eq!(none.pre_process("  Hello,  World!\n"), tokens(&["Hello,", "World!"]));
    let punctuation = BasicTokenizer::new_(None, Some(&vec![PreTokenizerKind::Punctuation]));
    assert_eq!(punctuation.pre_process("Hello, World!"), tokens(&["Hello", ",", "World", "!"]));
    let mut folded = BasicTokenizer::new_(None, Some(&vec![PreTokenizerKind::CaseFold]));
    folded.fit("The the THE cat");
    assert_eq!(folded.vocabulary, vec!["the", "cat"]);
    assert_eq!(folded.transform("A Cat"), tokens(&[UNK, "cat"]));
}

#[test]
fn empty_corpus_with_a_splitting_stage_is_empty() {
    let mut tokenizer = BasicTokenizer::new_(None, Some(&vec![PreTokenizerKind::WhiteSpace]));
    assert_eq!(tokenizer.fit_transform(""), tokens(&[]));
    assert!(tokenizer.vocabulary.is_empty());
}

#[test]
fn fit_transform_is_fit_then_transform() {
    let stages = vec![PreTokenizerKind::WhiteSpace, PreTokenizerKind::CaseFold];
    let mut once = BasicTokenizer::new_(Some(&vec!["x".to_string()]), Some(&stages));
    let mut twice = BasicTokenizer::new_(Some(&vec!["x".to_string()]), Some(&stages));
    let result = once.fit_transform("The cat the Dog");
    twice.fit("The cat the Dog");
    assert_eq!(result, twice.transform("The cat the Dog"));
    assert_eq!(result, tokens(&["the", "cat", "the", "dog"]));
    assert_eq!(once.vocabulary, vec!["x", "the", "cat", "dog"]);
}

#[test]
fn trait_methods_agree_with_the_inherent_ones() {
    let stages = vec![PreTokenizerKind::WhiteSpace];
    let mut by_trait = BasicTokenizer::new_(None, Some(&stages));
    let mut direct = BasicTokenizer::new_(None, Some(&stages));
    by_trait.fit_("a b");
    direct.fit("a b");
    assert_eq!(by_trait.vocabulary, direct.vocabulary);
    assert_eq!(by_trait.transform_("a c"), direct.transform("a c"));
    assert_eq!(by_trait.fit_transform_("c"), tokens(&["c"]));
    assert_eq!(by_trait.vocabulary, vec!["a", "b", "c"]);
}

#[test]
fn noop_tokenizer_passes_the_corpus_through() {
    let mut noop = NoopTokenizer;
    noop.fit_("Hello World!");
    assert_eq!(noop.transform_("Hello World!"), tokens(&["Hello World!"]));
    assert_eq!(noop.fit_transform_(""), tokens(&[]));
    assert_eq!(noop.transform_(""), tokens(&[]));
}
