use dante::tokenization::token::Token;
use dante::utils::patterns::{slice_between, split_at_spans};

fn tokens(words: &[&str]) -> Vec<Token> {
    words.iter().map(|w| Token { word: w.to_string() }).collect()
}

#[test]
fn split_at_one_span() {
    let spans = vec![(5usize, 6usize)];
    assert_eq!(split_at_spans("Hello,Lucas", &spans, true), tokens(&["Hello", ",", "Lucas"]));
    assert_eq!(split_at_spans("Hello,Lucas", &spans, false), tokens(&["Hello", "Lucas"]));
}

#[test]
fn split_at_no_span_is_the_word() {
    let spans: Vec<(usize, usize)> = Vec::new();
    assert_eq!(split_at_spans("Hello", &spans, true), tokens(&["Hello"]));
    assert_eq!(split_at_spans("", &spans, true), tokens(&[]));
}

#[test]
fn split_at_spans_at_the_ends() {
    let spans = vec![(0usize, 2usize), (4usize, 6usize)];
    assert_eq!(split_at_spans("..ab!!", &spans, true), tokens(&["..", "ab", "!!"]));
    assert_eq!(split_at_spans("..ab!!", &spans, false), tokens(&["ab"]));
}

#[test]
fn split_at_adjacent_spans() {
    let spans = vec![(1usize, 2usize), (2usize, 3usize)];
    assert_eq!(split_at_spans("a,;b", &spans, true), tokens(&["a", ",", ";", "b"]));
    assert_eq!(split_at_spans("a,;b", &spans, false), tokens(&["a", "b"]));
}

#[test]
fn split_at_a_span_that_covers_the_word() {
    let spans = vec![(0usize, 3usize)];
    assert_eq!(split_at_spans("...", &spans, true), tokens(&["..."]));
    assert_eq!(split_at_spans("...", &spans, false), tokens(&[]));
}

#[test]
fn spans_are_byte_offsets() {
    let spans = vec![(3usize, 4usize)];
    assert_eq!(split_at_spans("éa,b", &spans, true), tokens(&["éa", ",", "b"]));
    assert_eq!(slice_between("éa,b", 0, 2), "é");
    assert_eq!(slice_between("éa,b", 2, 2), "");
    assert_eq!(slice_between("éa,b", 2, 5), "a,b");
}
