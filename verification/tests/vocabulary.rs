use dante::tokenization::special_tokens::{EOS, EOW, SOS, SOW, UNK};
use dante::tokenization::token::Token;
use dante::tokenization::tokenizers::noop::NoopTokenizer;
use dante::tokenization::tokenizers::tokenizer::{distinct_words, look_up, Tokenizer};
use dante::utils::text::find_word;

fn tokens(words: &[&str]) -> Vec<Token> {
    words.iter().map(|w| Token { word: w.to_string() }).collect()
}

fn words(words: &[&str]) -> Vec<String> {
    words.iter().map(|w| w.to_string()).collect()
}

#[test]
fn vocabulary_has_each_word_once_in_first_occurrence_order() {
    let input = tokens(&["b", "a", "b", "c", "a", "b", "d"]);
    assert_eq!(distinct_words(&input), words(&["b", "a", "c", "d"]));
    assert_eq!(NoopTokenizer.extract_vocabulary(&input), words(&["b", "a", "c", "d"]));
}

#[test]
fn vocabulary_of_nothing_is_empty() {
    assert_eq!(distinct_words(&tokens(&[])), words(&[]));
}

#[test]
fn vocabulary_of_distinct_words_is_the_words() {
    assert_eq!(distinct_words(&tokens(&["x", "y", "z"])), words(&["x", "y", "z"]));
}

#[test]
fn vocabulary_tells_words_apart_by_case_and_space() {
    assert_eq!(distinct_words(&tokens(&["a", "A", "a ", "a"])), words(&["a", "A", "a "]));
}

#[test]
fn lookup_is_identity_on_known_words() {
    let vocabulary = words(&["a", "b", "c"]);
    let input = tokens(&["c", "a", "a", "b"]);
    assert_eq!(look_up(&vocabulary, &input), input);
    assert_eq!(NoopTokenizer.tokenize(&vocabulary, &input), input);
}

#[test]
fn lookup_keeps_length_and_order() {
    let vocabulary = words(&["a"]);
    let input = tokens(&["x", "a", "y", "a", "z"]);
    let result = look_up(&vocabulary, &input);
    assert_eq!(result.len(), input.len());
    assert_eq!(result, tokens(&[UNK, "a", UNK, "a", UNK]));
}

#[test]
fn lookup_replaces_unknown_words_only() {
    let vocabulary = words(&["Hello", "!"]);
    let result = look_up(&vocabulary, &tokens(&["Hello", "Lucas", "!"]));
    assert_eq!(result, tokens(&["Hello", "<unk>", "!"]));
}

#[test]
fn lookup_against_an_empty_vocabulary_is_all_unknown() {
    let result = look_up(&words(&[]), &tokens(&["a", "b"]));
    assert_eq!(result, tokens(&[UNK, UNK]));
    assert_eq!(look_up(&words(&["a"]), &tokens(&[])), tokens(&[]));
}

#[test]
fn lookup_in_own_vocabulary_changes_nothing() {
    let input = tokens(&["to", "be", "or", "not", "to", "be"]);
    let vocabulary = distinct_words(&input);
    assert_eq!(look_up(&vocabulary, &input), input);
}

#[test]
fn member_is_found_at_its_first_position() {
    let vocabulary = words(&["a", "b", "a"]);
    assert_eq!(find_word(&vocabulary, &"a".to_string()), Some(0));
    assert_eq!(find_word(&vocabulary, &"b".to_string()), Some(1));
    assert_eq!(find_word(&vocabulary, &"c".to_string()), None);
}

#[test]
fn sentinels_are_distinct() {
    let all = [UNK, SOS, EOS, SOW, EOW];
    for i in 0..all.len() {
        for j in 0..all.len() {
            assert_eq!(all[i] == all[j], i == j);
        }
    }
    assert_eq!(SOW, "<w>");
    assert_eq!(EOW, "</w>");
}

#[test]
fn token_displays_as_its_word() {
    let token = Token::new("word");
    assert_eq!(token.to_string(), "word");
    assert_eq!(token.duplicate(), token);
    assert_eq!(token, Token { word: "word".to_string() });
}
