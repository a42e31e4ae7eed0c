use dante::tokenization::pre_tokenizers::utils::{cut_token, cut_tokens};
use dante::tokenization::token::Token;
use dante::utils::runs::{check_marked, check_runs, keep_pieces, white, CharClass, Keep};

fn tokens(words: &[&str]) -> Vec<Token> {
    words.iter().map(|w| Token { word: w.to_string() }).collect()
}

#[test]
fn punctuation_class_has_seven_characters() {
    for c in ['.', ',', ':', ';', '-', '!', '?'] {
        assert!(CharClass::Punctuation.holds(c));
    }
    for c in ['a', ' ', '"', '\'', '(', ')', '_', '/', '…', '¡', '+'] {
        assert!(!CharClass::Punctuation.holds(c));
    }
}

#[test]
fn whitespace_class_agrees_with_the_standard_library() {
    for code in 0u32..0x11_0000 {
        if let Some(c) = char::from_u32(code) {
            assert_eq!(white(c), c.is_whitespace());
            assert_eq!(CharClass::Whitespace.holds(c), c.is_whitespace());
            assert_eq!(CharClass::NonWhitespace.holds(c), !c.is_whitespace());
        }
    }
}

#[test]
fn patterns_name_the_runs_of_their_classes() {
    assert_eq!(CharClass::Punctuation.pattern(), "[.,:;\\-!?]+");
    assert_eq!(CharClass::Whitespace.pattern(), "\\s+");
    assert_eq!(CharClass::NonWhitespace.pattern(), "\\S+");
}

#[test]
fn pieces_are_checked_to_be_runs() {
    let class = CharClass::Punctuation;
    assert!(check_runs(&tokens(&["Hello", ",", "Lucas"]), class));
    assert!(check_runs(&tokens(&["...", "a", "!?"]), class));
    assert!(check_runs(&tokens(&["a"]), class));
    assert!(check_runs(&tokens(&[]), class));
    assert!(!check_runs(&tokens(&["Hello", ""]), class));
    assert!(!check_runs(&tokens(&["Hel", "lo"]), class));
    assert!(!check_runs(&tokens(&[".", "."]), class));
    assert!(!check_runs(&tokens(&["a.", "b"]), class));
    assert!(!check_runs(&tokens(&["a", ".b"]), class));
}

#[test]
fn characters_are_checked_against_a_class() {
    assert!(check_marked("...", CharClass::Punctuation, true));
    assert!(check_marked("abc", CharClass::Punctuation, false));
    assert!(!check_marked("a.c", CharClass::Punctuation, false));
    assert!(!check_marked("a.c", CharClass::Punctuation, true));
    assert!(check_marked("", CharClass::Punctuation, true));
    assert!(check_marked("", CharClass::Punctuation, false));
}

#[test]
fn kept_pieces_are_all_or_the_members_or_the_others() {
    let class = CharClass::Whitespace;
    let pieces = tokens(&["a", " ", "b", "\t\n"]);
    assert_eq!(keep_pieces(tokens(&["a", " ", "b", "\t\n"]), class, Keep::All), pieces);
    assert_eq!(keep_pieces(tokens(&["a", " ", "b", "\t\n"]), class, Keep::Others), tokens(&["a", "b"]));
    assert_eq!(
        keep_pieces(tokens(&["a", " ", "b", "\t\n"]), class, Keep::Members),
        tokens(&[" ", "\t\n"])
    );
    assert_eq!(keep_pieces(tokens(&["", "a"]), class, Keep::Others), tokens(&["a"]));
    assert_eq!(keep_pieces(tokens(&["", "a"]), class, Keep::All), tokens(&["", "a"]));
}

#[test]
fn token_is_cut_into_its_runs() {
    let token = Token { word: "ab, cd!".to_string() };
    assert_eq!(
        cut_token(&token, CharClass::Punctuation, Keep::All),
        tokens(&["ab", ",", " cd", "!"])
    );
    assert_eq!(cut_token(&token, CharClass::Punctuation, Keep::Members), tokens(&[",", "!"]));
    assert_eq!(cut_token(&token, CharClass::Punctuation, Keep::Others), tokens(&["ab", " cd"]));
    assert_eq!(cut_token(&token, CharClass::Whitespace, Keep::Others), tokens(&["ab,", "cd!"]));
    assert_eq!(cut_token(&token, CharClass::NonWhitespace, Keep::Members), tokens(&["ab,", "cd!"]));
    assert_eq!(cut_token(&token, CharClass::NonWhitespace, Keep::All), tokens(&["ab,", " ", "cd!"]));
}

#[test]
fn tokens_are_cut_one_by_one() {
    let input = tokens(&["a b", "", " ", "c"]);
    assert_eq!(cut_tokens(&input, CharClass::Whitespace, Keep::Others), tokens(&["a", "b", "c"]));
    assert_eq!(cut_tokens(&input, CharClass::Whitespace, Keep::All), tokens(&["a", " ", "b", " ", "c"]));
}

fn every_character_below(limit: u32) -> String {
    (0..limit).filter_map(char::from_u32).collect()
}

#[test]
fn whitespace_runs_of_all_characters_agree_with_the_standard_library() {
    let text = every_character_below(0x3100);
    let expected: Vec<Token> = text
        .split(char::is_whitespace)
        .filter(|piece| !piece.is_empty())
        .map(|piece| Token { word: piece.to_string() })
        .collect();
    assert!(expected.len() > 10);
    let token = Token { word: text };
    assert_eq!(cut_token(&token, CharClass::Whitespace, Keep::Others), expected);
    assert_eq!(cut_token(&token, CharClass::NonWhitespace, Keep::Members), expected);
}

#[test]
fn punctuation_runs_of_all_characters_are_found() {
    let text = every_character_below(0x3100);
    let punctuation = ['.', ',', ':', ';', '-', '!', '?'];
    let mut expected: Vec<Token> = Vec::new();
    let mut current = String::new();
    let mut inside = false;
    for c in text.chars() {
        let member = punctuation.contains(&c);
        if !current.is_empty() && member != inside {
            expected.push(Token { word: current.clone() });
            current.clear();
        }
        inside = member;
        current.push(c);
    }
    expected.push(Token { word: current });
    assert_eq!(expected.len(), 9);
    let token = Token { word: text };
    assert_eq!(cut_token(&token, CharClass::Punctuation, Keep::All), expected);
}
