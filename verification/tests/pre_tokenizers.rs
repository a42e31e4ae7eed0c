use dante::tokenization::pre_tokenizers::case_fold::CaseFold;
use dante::tokenization::pre_tokenizers::pre_tokenizer::PreTokenizer;
use dante::tokenization::pre_tokenizers::punctuation::Punctuation;
use dante::tokenization::pre_tokenizers::utils::split_token;
use dante::tokenization::pre_tokenizers::whitespace::WhiteSpace;
use dante::tokenization::pre_tokenizers::{run_chain, PreTokenizerKind};
use dante::tokenization::token::Token;

fn tokens(words: &[&str]) -> Vec<Token> {
    words.iter().map(|w| Token { word: w.to_string() }).collect()
}

#[test]
fn tokenization() {
    let case_fold: CaseFold = CaseFold {};

    let input: Vec<Token> = vec![Token { word: "HeLlO".to_string() }];
    let expected: Vec<Token> = vec![Token { word: "hello".to_string() }];

    let result: Vec<Token> = case_fold.pre_tokenize(&input);
    assert_eq!(result, expected);
}

#[test]
fn tokenization_exclamation() {
    let punctuation: Punctuation = Punctuation {};

    let input: Vec<Token> = vec![Token { word: "Hello!".to_string() }];
    let expected: Vec<Token> =
        vec![Token { word: "Hello".to_string() }, Token { word: "!".to_string() }];

    let result: Vec<Token> = punctuation.pre_tokenize(&input);
    assert_eq!(result, expected);
}

#[test]
fn tokenization_ellipsis() {
    let punctuation: Punctuation = Punctuation {};

    let input: Vec<Token> = vec![Token { word: "Hello...".to_string() }];
    let expected: Vec<Token> =
        vec![Token { word: "Hello".to_string() }, Token { word: "...".to_string() }];

    let result: Vec<Token> = punctuation.pre_tokenize(&input);
    assert_eq!(result, expected);
}

#[test]
fn tokenization_between_words() {
    let punctuation: Punctuation = Punctuation {};

    let input: Vec<Token> = vec![Token { word: "Hello,Lucas".to_string() }];
    let expected: Vec<Token> = vec![
        Token { word: "Hello".to_string() },
        Token { word: ",".to_string() },
        Token { word: "Lucas".to_string() },
    ];

    let result: Vec<Token> = punctuation.pre_tokenize(&input);
    assert_eq!(result, expected);
}

#[test]
fn whitespace() {
    let whitespace: WhiteSpace = WhiteSpace {};

    let input: Vec<Token> = vec![Token { word: "Hello World!".to_string() }];
    let expected: Vec<Token> =
        vec![Token { word: "Hello".to_string() }, Token { word: "World!".to_string() }];

    let result: Vec<Token> = whitespace.pre_tokenize(&input);
    assert_eq!(result, expected);
}

#[test]
fn case_fold_keeps_token_count_and_order() {
    let result = CaseFold.pre_tokenize(&tokens(&["A", "b", "ÉCOLE", "A"]));
    assert_eq!(result, tokens(&["a", "b", "école", "a"]));
}

#[test]
fn mixed_punctuation_run_is_one_token() {
    let result = Punctuation.pre_tokenize(&tokens(&["Hello...,"]));
    assert_eq!(result, tokens(&["Hello", "...,"]));
}

#[test]
fn every_punctuation_character_separates() {
    let result = Punctuation.pre_tokenize(&tokens(&["a.b,c:d;e-f!g?h"]));
    assert_eq!(
        result,
        tokens(&["a", ".", "b", ",", "c", ":", "d", ";", "e", "-", "f", "!", "g", "?", "h"])
    );
}

#[test]
fn leading_punctuation_gives_no_empty_token() {
    let result = Punctuation.pre_tokenize(&tokens(&["?!what", "..."]));
    assert_eq!(result, tokens(&["?!", "what", "..."]));
}

#[test]
fn punctuation_leaves_other_tokens_whole() {
    let result = Punctuation.pre_tokenize(&tokens(&["Hello", "World"]));
    assert_eq!(result, tokens(&["Hello", "World"]));
}

#[test]
fn punctuation_splits_each_token_in_order() {
    let result = Punctuation.pre_tokenize(&tokens(&["a,b", "c", "d!"]));
    assert_eq!(result, tokens(&["a", ",", "b", "c", "d", "!"]));
}

#[test]
fn whitespace_run_is_dropped_whole() {
    let result = WhiteSpace.pre_tokenize(&tokens(&["  a \t\n b  "]));
    assert_eq!(result, tokens(&["a", "b"]));
}

#[test]
fn whitespace_only_token_gives_nothing() {
    let result = WhiteSpace.pre_tokenize(&tokens(&["   ", "x"]));
    assert_eq!(result, tokens(&["x"]));
}

#[test]
fn stages_accept_no_tokens() {
    let none: Vec<Token> = Vec::new();
    assert_eq!(CaseFold.pre_tokenize(&none), none);
    assert_eq!(Punctuation.pre_tokenize(&none), none);
    assert_eq!(WhiteSpace.pre_tokenize(&none), none);
}

#[test]
fn empty_word_gives_no_token() {
    assert_eq!(Punctuation.pre_tokenize(&tokens(&[""])), tokens(&[]));
    assert_eq!(WhiteSpace.pre_tokenize(&tokens(&[""])), tokens(&[]));
}

#[test]
fn splitting_handles_characters_of_several_bytes() {
    let result = Punctuation.pre_tokenize(&tokens(&["héllo,wörld…ok!"]));
    assert_eq!(result, tokens(&["héllo", ",", "wörld…ok", "!"]));
    let result = WhiteSpace.pre_tokenize(&tokens(&["日本 語\u{3000}です"]));
    assert_eq!(result, tokens(&["日本", "語", "です"]));
}

#[test]
fn split_token_keeps_or_drops_the_separator() {
    let token = Token { word: "a1b22c".to_string() };
    assert_eq!(split_token(&token, "[0-9]+", true), tokens(&["a", "1", "b", "22", "c"]));
    assert_eq!(split_token(&token, "[0-9]+", false), tokens(&["a", "b", "c"]));
}

#[test]
fn split_token_leaves_the_token_whole_on_a_refused_pattern() {
    let token = Token { word: "a(b".to_string() };
    assert_eq!(split_token(&token, "(", true), tokens(&["a(b"]));
}

#[test]
fn split_token_keeps_an_empty_match_only_as_separator() {
    let token = Token { word: "ab".to_string() };
    assert_eq!(split_token(&token, "x*", false), tokens(&["a", "b"]));
    assert_eq!(split_token(&token, "x*", true), tokens(&["", "a", "", "b", ""]));
}

#[test]
fn kinds_stand_for_their_stages() {
    let input = tokens(&["Hello World!"]);
    assert_eq!(
        PreTokenizerKind::CaseFold.get_processor().pre_tokenize(&input),
        CaseFold.pre_tokenize(&input)
    );
    assert_eq!(
        PreTokenizerKind::Punctuation.get_processor().pre_tokenize(&input),
        Punctuation.pre_tokenize(&input)
    );
    assert_eq!(
        PreTokenizerKind::WhiteSpace.get_processor().pre_tokenize(&input),
        WhiteSpace.pre_tokenize(&input)
    );
    assert_eq!(PreTokenizerKind::WhiteSpace.pre_tokenize(&input), tokens(&["Hello", "World!"]));
}

#[test]
fn chain_applies_stages_in_the_order_given() {
    let stages = vec![
        PreTokenizerKind::WhiteSpace,
        PreTokenizerKind::Punctuation,
        PreTokenizerKind::CaseFold,
    ];
    let result = run_chain(&stages, tokens(&["Hello, World!"]));
    assert_eq!(result, tokens(&["hello", ",", "world", "!"]));
    let no_stage: Vec<PreTokenizerKind> = Vec::new();
    assert_eq!(run_chain(&no_stage, tokens(&["Hello, World!"])), tokens(&["Hello, World!"]));
}

#[test]
fn stages_never_merge_tokens() {
    let input = tokens(&["a b", "c,d", "E"]);
    for kind in [PreTokenizerKind::CaseFold, PreTokenizerKind::Punctuation, PreTokenizerKind::WhiteSpace] {
        assert!(kind.pre_tokenize(&input).len() >= input.len());
    }
}
