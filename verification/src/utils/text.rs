//! String operations of the standard library that the verifier has no
//! specification for, each behind a contract that is believed, not proved.

use vstd::prelude::*;

verus! {

/// Calls `char::to_string`. The contract claims that the string holds the
/// character and nothing else.
#[verifier::external_body]
pub(crate) fn char_to_string(c: char) -> (text: String)
    ensures
        text@ == seq![c],
{
    c.to_string()
}

/// The lowercase form of a text as `str::to_lowercase` gives it.
pub uninterp spec fn lowercase_of(text: Seq<char>) -> Seq<char>;

/// Calls `str::to_lowercase`. The contract names the result: the standard
/// library derives it from the text alone.
#[verifier::external_body]
pub(crate) fn to_lowercase(text: &str) -> (lower: String)
    ensures
        lower@ == lowercase_of(text@),
{
    text.to_lowercase()
}

/// A copy of `words`.
pub fn copy_words(words: &Vec<String>) -> (copy: Vec<String>)
    ensures
        copy.deep_view() == words.deep_view(),
{
    let mut copy: Vec<String> = Vec::new();
    let mut i: usize = 0;
    while i < words.len()
        invariant
            i <= words.len(),
            copy.len() == i,
            forall|j: int| 0 <= j < i ==> copy[j]@ == words[j]@,
        decreases words.len() - i,
    {
        copy.push(words[i].clone());
        i += 1;
    }
    assert(copy.deep_view() =~= words.deep_view());
    copy
}

/// The first position of `word` in `words`, or `None` when it is not there.
pub fn find_word(words: &Vec<String>, word: &String) -> (found: Option<usize>)
    ensures
        match found {
            Some(i) => {
                &&& i < words.len()
                &&& words[i as int]@ == word@
                &&& forall|j: int| 0 <= j < i ==> words[j]@ != word@
            },
            None => !words.deep_view().contains(word@),
        },
        found is Some <==> words.deep_view().contains(word@),
{
    let mut i: usize = 0;
    while i < words.len()
        invariant
            i <= words.len(),
            forall|j: int| 0 <= j < i ==> words[j]@ != word@,
        decreases words.len() - i,
    {
        if words[i] == *word {
            assert(words.deep_view()[i as int] == word@);
            return Some(i);
        }
        i += 1;
    }
    assert(!words.deep_view().contains(word@)) by {
        if words.deep_view().contains(word@) {
            let j = choose|j: int| 0 <= j < words.deep_view().len() && words.deep_view()[j] == word@;
            assert(words[j]@ == word@);
        }
    }
    None
}

/// Whether two word sequences hold the same words in the same order.
pub fn same_words(first: &Vec<String>, second: &Vec<String>) -> (same: bool)
    ensures
        same == (first.deep_view() == second.deep_view()),
{
    if first.len() != second.len() {
        assert(first.deep_view().len() != second.deep_view().len());
        return false;
    }
    let mut i: usize = 0;
    while i < first.len()
        invariant
            i <= first.len(),
            first.len() == second.len(),
            forall|j: int| 0 <= j < i ==> first[j]@ == second[j]@,
        decreases first.len() - i,
    {
        if first[i] != second[i] {
            assert(first.deep_view()[i as int] != second.deep_view()[i as int]);
            return false;
        }
        i += 1;
    }
    assert(first.deep_view() =~= second.deep_view());
    true
}

} // verus!
