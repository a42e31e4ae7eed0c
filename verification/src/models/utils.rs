//! The n-grams of a word sequence.

use vstd::prelude::*;
use crate::tokenization::token::Word;
use crate::utils::wrappers::{wrap_sentence, wrapped_sentence};

verus! {

/// The windows of `n` consecutive words of `words`, from the left. A sequence
/// of fewer than `n` words has none.
pub open spec fn windows(words: Seq<Seq<char>>, n: nat) -> Seq<Seq<Seq<char>>> {
    Seq::new(
        if words.len() >= n {
            (words.len() - n + 1) as nat
        } else {
            0
        },
        |i: int| words.subrange(i, i + n),
    )
}

/// The n-grams of `words`. With `padding` the sentence is first padded with
/// `n - 1` sentinels at either end, so that every word ends one n-gram and
/// starts another.
pub fn ngrams(words: &Vec<Word>, n: u32, padding: bool) -> (grams: Vec<Vec<Word>>)
    requires
        n >= 1,
    ensures
        grams.deep_view() == windows(
            wrapped_sentence(words.deep_view(), (n - 1) as nat, padding, padding),
            n as nat,
        ),
{
    let wrapped = wrap_sentence(words, n - 1, padding, padding);
    let ghost all = wrapped.deep_view();
    let width = n as usize;
    let mut grams: Vec<Vec<Word>> = Vec::new();
    let mut i: usize = 0;
    while i < wrapped.len() && width <= wrapped.len() - i
        invariant
            i <= wrapped.len(),
            i == 0 || i + width <= wrapped.len() + 1,
            width == n,
            width >= 1,
            all == wrapped.deep_view(),
            grams.len() == i,
            forall|k: int| 0 <= k < i ==> (#[trigger] grams[k]).deep_view() == all.subrange(k, k + n),
        decreases wrapped.len() - i,
    {
        let mut gram: Vec<Word> = Vec::new();
        let mut j: usize = 0;
        while j < width
            invariant
                j <= width,
                i + width <= wrapped.len(),
                all == wrapped.deep_view(),
                gram.deep_view() == all.subrange(i as int, i + j),
            decreases width - j,
        {
            let ghost before = gram.deep_view();
            gram.push(wrapped[i + j].clone());
            assert(gram.deep_view() =~= before.push(all[i + j]));
            assert(before.push(all[i + j]) =~= all.subrange(i as int, i + j + 1));
            j += 1;
        }
        grams.push(gram);
        i += 1;
    }
    assert(grams.deep_view() =~= windows(all, n as nat));
    grams
}

} // verus!
