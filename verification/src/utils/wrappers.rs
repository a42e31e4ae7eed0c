//! Padding a sentence with the sentence-boundary sentinels.

use vstd::prelude::*;
use crate::tokenization::special_tokens::{EOS, SOS};
use crate::tokenization::token::Word;

verus! {

/// `word`, `n` times over.
pub open spec fn repeated(word: Seq<char>, n: nat) -> Seq<Seq<char>> {
    Seq::new(n, |i: int| word)
}

/// `sentence` with `n` start-of-sentence sentinels in front of it where
/// `start` is set, and `n` end-of-sentence sentinels behind it where `end` is.
pub open spec fn wrapped_sentence(sentence: Seq<Seq<char>>, n: nat, start: bool, end: bool) -> Seq<
    Seq<char>,
> {
    let front = if start {
        repeated(SOS@, n)
    } else {
        Seq::empty()
    };
    let back = if end {
        repeated(EOS@, n)
    } else {
        Seq::empty()
    };
    front + sentence + back
}

/// Pads `sentence` with `n` sentinels at the start, at the end, or at both.
pub fn wrap_sentence(sentence: &Vec<Word>, n: u32, start: bool, end: bool) -> (wrapped: Vec<Word>)
    ensures
        wrapped.deep_view() == wrapped_sentence(sentence.deep_view(), n as nat, start, end),
{
    let ghost front = if start {
        repeated(SOS@, n as nat)
    } else {
        Seq::empty()
    };
    let ghost back = if end {
        repeated(EOS@, n as nat)
    } else {
        Seq::empty()
    };
    let mut wrapped: Vec<Word> = Vec::new();
    if start {
        let mut i: u32 = 0;
        while i < n
            invariant
                i <= n,
                wrapped.deep_view() == repeated(SOS@, i as nat),
            decreases n - i,
        {
            let ghost before = wrapped.deep_view();
            wrapped.push(SOS.to_owned());
            assert(wrapped.deep_view() =~= before.push(SOS@));
            assert(before.push(SOS@) =~= repeated(SOS@, (i + 1) as nat));
            i += 1;
        }
    }
    assert(wrapped.deep_view() =~= front);
    let mut j: usize = 0;
    while j < sentence.len()
        invariant
            j <= sentence.len(),
            wrapped.deep_view() == front + sentence.deep_view().take(j as int),
        decreases sentence.len() - j,
    {
        let ghost before = wrapped.deep_view();
        wrapped.push(sentence[j].clone());
        assert(wrapped.deep_view() =~= before.push(sentence[j as int]@));
        assert(before.push(sentence[j as int]@) =~= front + sentence.deep_view().take(j + 1));
        j += 1;
    }
    assert(sentence.deep_view().take(sentence.len() as int) =~= sentence.deep_view());
    if end {
        let mut i: u32 = 0;
        while i < n
            invariant
                i <= n,
                wrapped.deep_view() == front + sentence.deep_view() + repeated(EOS@, i as nat),
            decreases n - i,
        {
            let ghost before = wrapped.deep_view();
            wrapped.push(EOS.to_owned());
            assert(wrapped.deep_view() =~= before.push(EOS@));
            assert(before.push(EOS@) =~= front + sentence.deep_view() + repeated(
                EOS@,
                (i + 1) as nat,
            ));
            i += 1;
        }
    }
    assert(wrapped.deep_view() =~= front + sentence.deep_view() + back);
    wrapped
}

} // verus!
