use dante::tokenization::pipeline::TokenizationPipeline;
use dante::tokenization::pre_tokenizers::PreTokenizerKind;
use dante::tokenization::special_tokens::UNK;
use dante::tokenization::splitters::splitter::Splitter;
use dante::tokenization::splitters::whitespace::Whitespace;
use dante::tokenization::token::Token;
use dante::tokenization::tokenizers::basic::BasicTokenizer;
use dante::tokenization::tokenizers::noop::NoopTokenizer;

fn tokens(words: &[&str]) -> Vec<Token> {
    words.iter().map(|w| Token { word: w.to_string() }).collect()
}

type Pipeline = TokenizationPipeline<Whitespace, PreTokenizerKind, NoopTokenizer>;

#[test]
fn splitter_gives_the_runs_between_whitespace() {
    assert_eq!(Whitespace.split("Hello  World!\n\tBye"), tokens(&["Hello", "World!", "Bye"]));
    assert_eq!(Whitespace.split("  padded  "), tokens(&["padded"]));
}

#[test]
fn splitter_gives_nothing_for_an_empty_or_blank_corpus() {
    assert_eq!(Whitespace.split(""), tokens(&[]));
    assert_eq!(Whitespace.split(" \t\r\n"), tokens(&[]));
}

#[test]
fn splitter_handles_characters_of_several_bytes() {
    assert_eq!(Whitespace.split("été\u{a0}là 日本"), tokens(&["été", "là", "日本"]));
}

#[test]
fn pipeline_starts_with_an_empty_vocabulary() {
    let pipeline = Pipeline::new(Whitespace, None, None);
    assert!(pipeline.vocabulary.is_empty());
    assert!(pipeline.pre_tokenizers.is_empty());
    assert_eq!(pipeline.transform("a b"), tokens(&[UNK, UNK]));
}

#[test]
fn pipeline_fit_extracts_the_vocabulary() {
    let mut pipeline = Pipeline::new(
        Whitespace,
        Some(vec![PreTokenizerKind::Punctuation, PreTokenizerKind::CaseFold]),
        None,
    );
    pipeline.fit("The cat. The dog!");
    assert_eq!(pipeline.vocabulary, vec!["the", "cat", ".", "dog", "!"]);
}

#[test]
fn pipeline_fit_replaces_the_vocabulary() {
    let mut pipeline = Pipeline::new(Whitespace, None, None);
    pipeline.fit("a b");
    pipeline.fit("c");
    assert_eq!(pipeline.vocabulary, vec!["c"]);
    pipeline.fit("");
    assert!(pipeline.vocabulary.is_empty());
}

#[test]
fn pipeline_transform_looks_up_in_the_vocabulary() {
    let mut pipeline = Pipeline::new(Whitespace, Some(vec![PreTokenizerKind::Punctuation]), None);
    pipeline.fit("Hello World!");
    assert_eq!(pipeline.transform("Hello Lucas!"), tokens(&["Hello", UNK, "!"]));
    assert_eq!(pipeline.transform(""), tokens(&[]));
}

#[test]
fn pipeline_fit_transform_returns_the_preprocessed_tokens() {
    let mut pipeline = Pipeline::new(Whitespace, Some(vec![PreTokenizerKind::CaseFold]), None);
    assert_eq!(pipeline.fit_transform("A b a B"), tokens(&["a", "b", "a", "b"]));
    assert_eq!(pipeline.vocabulary, vec!["a", "b"]);
    assert_eq!(pipeline.pre_process("X  y"), tokens(&["x", "y"]));
}

#[test]
fn pipeline_with_a_tokenizer_uses_its_own_vocabulary() {
    let held = BasicTokenizer::new_(Some(&vec!["ignored".to_string()]), None);
    let mut pipeline: TokenizationPipeline<Whitespace, PreTokenizerKind, BasicTokenizer> =
        TokenizationPipeline::new(Whitespace, None, Some(held));
    pipeline.fit("ignored words");
    assert_eq!(pipeline.vocabulary, vec!["ignored", "words"]);
    assert_eq!(pipeline.transform("more words"), tokens(&[UNK, "words"]));
}
