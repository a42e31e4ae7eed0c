//! Runs of characters: a text cut into its longest stretches of characters
//! that all belong to a class, or all do not.

use vstd::prelude::*;
use crate::tokenization::token::Token;
use crate::utils::sequences::{concatenated, lemma_concatenated_one};

verus! {

/// The classes of characters that the stages tell apart.
#[derive(Clone, Copy, Debug, PartialEq, Eq)]
pub enum CharClass {
    /// One of `. , : ; - ! ?`.
    Punctuation,
    /// A character with the Unicode property White_Space.
    Whitespace,
    /// Any other character than whitespace.
    NonWhitespace,
}

/// Which runs of a text a stage keeps.
#[derive(Clone, Copy, Debug, PartialEq, Eq)]
pub enum Keep {
    /// Every run.
    All,
    /// The runs of characters outside the class.
    Others,
    /// The runs of characters of the class.
    Members,
}

/// Whether `c` is one of the punctuation characters.
pub open spec fn is_punctuation(c: char) -> bool {
    c == '.' || c == ',' || c == ':' || c == ';' || c == '-' || c == '!' || c == '?'
}

/// Whether `c` has the Unicode property White_Space.
pub open spec fn is_whitespace(c: char) -> bool {
    ||| ('\t' <= c && c <= '\r')
    ||| c == ' '
    ||| c == '\u{85}'
    ||| c == '\u{a0}'
    ||| c == '\u{1680}'
    ||| ('\u{2000}' <= c && c <= '\u{200a}')
    ||| c == '\u{2028}'
    ||| c == '\u{2029}'
    ||| c == '\u{202f}'
    ||| c == '\u{205f}'
    ||| c == '\u{3000}'
}

/// The pattern of a run of punctuation: one or more punctuation characters.
pub const PUNCTUATION_RUN: &'static str = r"[.,:;\-!?]+";

/// The pattern of a run of whitespace: one or more whitespace characters.
pub const WHITESPACE_RUN: &'static str = r"\s+";

/// The pattern of a run of other characters than whitespace.
pub const NON_WHITESPACE_RUN: &'static str = r"\S+";

impl CharClass {
    /// The pattern that is to match the runs of the class.
    pub open spec fn run_pattern(self) -> Seq<char> {
        match self {
            CharClass::Punctuation => PUNCTUATION_RUN@,
            CharClass::Whitespace => WHITESPACE_RUN@,
            CharClass::NonWhitespace => NON_WHITESPACE_RUN@,
        }
    }

    /// The pattern that is to match the runs of the class.
    pub fn pattern(&self) -> (pattern: &'static str)
        ensures
            pattern@ == self.run_pattern(),
    {
        match self {
            CharClass::Punctuation => PUNCTUATION_RUN,
            CharClass::Whitespace => WHITESPACE_RUN,
            CharClass::NonWhitespace => NON_WHITESPACE_RUN,
        }
    }

    /// Whether `c` belongs to the class.
    pub open spec fn has(self, c: char) -> bool {
        match self {
            CharClass::Punctuation => is_punctuation(c),
            CharClass::Whitespace => is_whitespace(c),
            CharClass::NonWhitespace => !is_whitespace(c),
        }
    }

    /// Whether `c` belongs to the class.
    pub fn holds(&self, c: char) -> (belongs: bool)
        ensures
            belongs == self.has(c),
    {
        match self {
            CharClass::Punctuation => {
                c == '.' || c == ',' || c == ':' || c == ';' || c == '-' || c == '!' || c == '?'
            },
            CharClass::Whitespace => white(c),
            CharClass::NonWhitespace => !white(c),
        }
    }
}

/// Whether `c` has the Unicode property White_Space.
pub fn white(c: char) -> (belongs: bool)
    ensures
        belongs == is_whitespace(c),
{
    ('\t' <= c && c <= '\r') || c == ' ' || c == '\u{85}' || c == '\u{a0}' || c == '\u{1680}' || (
    '\u{2000}' <= c && c <= '\u{200a}') || c == '\u{2028}' || c == '\u{2029}' || c == '\u{202f}'
        || c == '\u{205f}' || c == '\u{3000}'
}

/// The runs of `text`, left to right: each is a longest stretch of characters
/// that all belong to `class` or all do not.
pub open spec fn runs(text: Seq<char>, class: CharClass) -> Seq<Seq<char>>
    decreases text.len(),
{
    if text.len() == 0 {
        Seq::empty()
    } else {
        let before = runs(text.drop_last(), class);
        let c = text.last();
        if before.len() > 0 && before.last().len() > 0 && class.has(before.last().last())
            == class.has(c) {
            before.drop_last().push(before.last().push(c))
        } else {
            before.push(seq![c])
        }
    }
}

/// Whether every character of `piece` belongs to `class`, if `member` is
/// set, or none does, if it is not.
pub open spec fn all_marked(piece: Seq<char>, class: CharClass, member: bool) -> bool {
    forall|j: int| 0 <= j < piece.len() ==> class.has(#[trigger] piece[j]) == member
}

/// Whether a run is kept: a run of the class or a run outside it.
pub open spec fn is_kept(piece: Seq<char>, class: CharClass, keep: Keep) -> bool {
    match keep {
        Keep::All => true,
        Keep::Others => piece.len() > 0 && !class.has(piece[0]),
        Keep::Members => piece.len() > 0 && class.has(piece[0]),
    }
}

/// The pieces that are kept, in order.
pub open spec fn kept(pieces: Seq<Seq<char>>, class: CharClass, keep: Keep) -> Seq<Seq<char>>
    decreases pieces.len(),
{
    if pieces.len() == 0 {
        Seq::empty()
    } else if is_kept(pieces.last(), class, keep) {
        kept(pieces.drop_last(), class, keep).push(pieces.last())
    } else {
        kept(pieces.drop_last(), class, keep)
    }
}

/// The runs of `text` that a stage keeps.
pub open spec fn kept_runs(text: Seq<char>, class: CharClass, keep: Keep) -> Seq<Seq<char>> {
    kept(runs(text, class), class, keep)
}

/// Whether `pieces` cut a text into runs: no piece is empty, the characters
/// of a piece all belong to the class or all do not, and of two neighbours
/// one is of the class and the other is not.
pub open spec fn are_runs(pieces: Seq<Seq<char>>, class: CharClass) -> bool {
    &&& forall|i: int| 0 <= i < pieces.len() ==> (#[trigger] pieces[i]).len() > 0
    &&& forall|i: int|
        0 <= i < pieces.len() ==> all_marked(#[trigger] pieces[i], class, class.has(pieces[i][0]))
    &&& forall|i: int|
        0 <= i && i + 1 < pieces.len() ==> class.has((#[trigger] pieces[i])[0]) != class.has(
            pieces[i + 1][0],
        )
}

/// The runs of a text that is not empty end with its last character.
pub proof fn lemma_runs_end(text: Seq<char>, class: CharClass)
    requires
        text.len() > 0,
    ensures
        runs(text, class).len() > 0,
        runs(text, class).last().len() > 0,
        runs(text, class).last().last() == text.last(),
{
}

/// The runs of a text that ends with a stretch of its own are the runs of
/// what stands before the stretch, and then the stretch.
pub proof fn lemma_runs_push(front: Seq<char>, stretch: Seq<char>, class: CharClass)
    requires
        stretch.len() > 0,
        all_marked(stretch, class, class.has(stretch[0])),
        front.len() > 0 ==> class.has(front.last()) != class.has(stretch[0]),
    ensures
        runs(front + stretch, class) == runs(front, class).push(stretch),
    decreases stretch.len(),
{
    let text = front + stretch;
    let c = stretch.last();
    assert(text.last() == c);
    assert(class.has(stretch[stretch.len() - 1]) == class.has(stretch[0]));
    if stretch.len() == 1 {
        assert(text.drop_last() =~= front);
        assert(stretch =~= seq![c]);
        if front.len() > 0 {
            lemma_runs_end(front, class);
        }
    } else {
        let shorter = stretch.drop_last();
        assert forall|j: int| 0 <= j < shorter.len() implies class.has(#[trigger] shorter[j])
            == class.has(shorter[0]) by {
            assert(shorter[j] == stretch[j]);
            assert(shorter[0] == stretch[0]);
        }
        assert(shorter[0] == stretch[0]);
        lemma_runs_push(front, shorter, class);
        assert(text.drop_last() =~= front + shorter);
        let before = runs(front + shorter, class);
        assert(before.last() == shorter);
        assert(shorter.last() == stretch[stretch.len() - 2]);
        assert(class.has(shorter.last()) == class.has(stretch[0]));
        assert(before.drop_last() =~= runs(front, class));
        assert(shorter.push(c) =~= stretch);
    }
}

/// The last character of pieces put together is the last character of the
/// last piece.
pub proof fn lemma_concatenated_end(pieces: Seq<Seq<char>>)
    requires
        pieces.len() > 0,
        pieces.last().len() > 0,
    ensures
        concatenated(pieces).len() > 0,
        concatenated(pieces).last() == pieces.last().last(),
{
}

/// A text is cut into runs in one way only: pieces that cut it into runs are
/// its runs.
pub proof fn lemma_runs_are_unique(pieces: Seq<Seq<char>>, class: CharClass)
    requires
        are_runs(pieces, class),
    ensures
        runs(concatenated(pieces), class) == pieces,
    decreases pieces.len(),
{
    if pieces.len() > 0 {
        let init = pieces.drop_last();
        let last = pieces.last();
        assert(are_runs(init, class)) by {
            assert forall|i: int| 0 <= i < init.len() implies (#[trigger] init[i]).len() > 0 by {
                assert(init[i] == pieces[i]);
            }
            assert forall|i: int| 0 <= i < init.len() implies all_marked(
                #[trigger] init[i],
                class,
                class.has(init[i][0]),
            ) by {
                assert(init[i] == pieces[i]);
            }
            assert forall|i: int| 0 <= i && i + 1 < init.len() implies class.has(
                (#[trigger] init[i])[0],
            ) != class.has(init[i + 1][0]) by {
                assert(init[i] == pieces[i]);
                assert(init[i + 1] == pieces[i + 1]);
            }
        }
        lemma_runs_are_unique(init, class);
        let front = concatenated(init);
        assert(pieces[pieces.len() - 1].len() > 0);
        assert(all_marked(pieces[pieces.len() - 1], class, class.has(last[0])));
        if init.len() > 0 {
            let prior = pieces[pieces.len() - 2];
            assert(init.last() == prior);
            assert(prior.len() > 0);
            lemma_concatenated_end(init);
            assert(all_marked(prior, class, class.has(prior[0])));
            assert(class.has(prior[prior.len() - 1]) == class.has(prior[0]));
            assert(class.has(prior[0]) != class.has(pieces[pieces.len() - 2 + 1][0]));
        } else {
            assert(front.len() == 0);
        }
        lemma_runs_push(front, last, class);
        assert(runs(front, class).push(last) =~= pieces);
    } else {
        assert(concatenated(pieces).len() == 0);
    }
}

/// Whether every character of `piece` belongs to `class`, if `member` is
/// set, or none does, if it is not.
pub fn check_marked(piece: &str, class: CharClass, member: bool) -> (ok: bool)
    ensures
        ok == all_marked(piece@, class, member),
{
    for c in it: piece.chars()
        invariant
            it.seq() == piece@,
            forall|j: int| 0 <= j < it.index() ==> class.has(#[trigger] piece@[j]) == member,
    {
        if class.holds(c) != member {
            assert(class.has(piece@[it.index() as int]) != member);
            return false;
        }
    }
    true
}

/// Whether `pieces` cut a text into runs; see `are_runs`.
pub fn check_runs(pieces: &Vec<Token>, class: CharClass) -> (ok: bool)
    ensures
        ok == are_runs(pieces.deep_view(), class),
{
    let ghost words = pieces.deep_view();
    let mut earlier: bool = false;
    let mut i: usize = 0;
    while i < pieces.len()
        invariant
            i <= pieces.len(),
            words == pieces.deep_view(),
            are_runs(words.take(i as int), class),
            i > 0 ==> earlier == class.has(words[i - 1][0]),
        decreases pieces.len() - i,
    {
        let piece = pieces[i].word.as_str();
        assert(words[i as int] == piece@);
        if piece.is_empty() {
            assert(!are_runs(words, class));
            return false;
        }
        let member = class.holds(piece.get_char(0));
        if i > 0 && member == earlier {
            assert(class.has(words[i - 1][0]) == class.has(words[i - 1 + 1][0]));
            assert(!are_runs(words, class));
            return false;
        }
        if !check_marked(piece, class, member) {
            assert(!all_marked(words[i as int], class, class.has(words[i as int][0])));
            assert(!are_runs(words, class));
            return false;
        }
        proof {
            let shown = words.take(i as int);
            let grown = words.take(i + 1);
            assert forall|n: int| 0 <= n < grown.len() implies (#[trigger] grown[n]).len() > 0
                && all_marked(grown[n], class, class.has(grown[n][0])) by {
                if n < i {
                    assert(grown[n] == shown[n]);
                }
            }
            assert forall|n: int| 0 <= n && n + 1 < grown.len() implies class.has(
                (#[trigger] grown[n])[0],
            ) != class.has(grown[n + 1][0]) by {
                if n + 1 < i {
                    assert(grown[n] == shown[n]);
                    assert(grown[n + 1] == shown[n + 1]);
                }
            }
        }
        earlier = member;
        i += 1;
    }
    assert(words.take(pieces.len() as int) =~= words);
    true
}

/// The pieces that are kept, in order; see `kept`.
pub fn keep_pieces(pieces: Vec<Token>, class: CharClass, keep: Keep) -> (out: Vec<Token>)
    ensures
        out.deep_view() == kept(pieces.deep_view(), class, keep),
{
    let ghost words = pieces.deep_view();
    let mut out: Vec<Token> = Vec::new();
    let mut i: usize = 0;
    assert(words.take(0) =~= Seq::<Seq<char>>::empty());
    assert(out.deep_view() =~= kept(words.take(0), class, keep));
    while i < pieces.len()
        invariant
            i <= pieces.len(),
            words == pieces.deep_view(),
            out.deep_view() == kept(words.take(i as int), class, keep),
        decreases pieces.len() - i,
    {
        let piece = pieces[i].word.as_str();
        let ghost before = out.deep_view();
        proof {
            assert(words[i as int] == piece@);
            assert(words.take(i + 1).drop_last() =~= words.take(i as int));
            assert(words.take(i + 1).last() == piece@);
        }
        let wanted = match keep {
            Keep::All => true,
            Keep::Others => !piece.is_empty() && !class.holds(piece.get_char(0)),
            Keep::Members => !piece.is_empty() && class.holds(piece.get_char(0)),
        };
        if wanted {
            out.push(pieces[i].duplicate());
            assert(out.deep_view() =~= before.push(piece@));
        }
        i += 1;
    }
    assert(words.take(pieces.len() as int) =~= words);
    out
}

/// The runs of a text cut it into runs and spell it; with every run kept,
/// nothing is dropped.
pub proof fn lemma_runs(text: Seq<char>, class: CharClass)
    ensures
        are_runs(runs(text, class), class),
        concatenated(runs(text, class)) == text,
        kept_runs(text, class, Keep::All) == runs(text, class),
    decreases text.len(),
{
    let all = runs(text, class);
    lemma_kept_all(all, class);
    if text.len() == 0 {
        assert(concatenated(all) =~= text);
    } else {
        let init = text.drop_last();
        let before = runs(init, class);
        let c = text.last();
        lemma_runs(init, class);
        if before.len() > 0 && before.last().len() > 0 && class.has(before.last().last())
            == class.has(c) {
            let grown = before.last().push(c);
            assert(all.drop_last() =~= before.drop_last());
            assert(concatenated(all) =~= concatenated(before).push(c));
            assert(concatenated(before).push(c) =~= text);
            assert(all_marked(before[before.len() - 1], class, class.has(before.last()[0])));
            assert(class.has(before.last()[before.last().len() - 1]) == class.has(
                before.last()[0],
            ));
            assert forall|i: int| 0 <= i < all.len() implies (#[trigger] all[i]).len() > 0
                && all_marked(all[i], class, class.has(all[i][0])) by {
                if i < all.len() - 1 {
                    assert(all[i] == before[i]);
                } else {
                    assert(all[i] == grown);
                    assert forall|j: int| 0 <= j < grown.len() implies class.has(
                        #[trigger] grown[j],
                    ) == class.has(grown[0]) by {
                        if j < before.last().len() {
                            assert(grown[j] == before.last()[j]);
                        }
                    }
                }
            }
            assert forall|i: int| 0 <= i && i + 1 < all.len() implies class.has(
                (#[trigger] all[i])[0],
            ) != class.has(all[i + 1][0]) by {
                assert(all[i] == before[i]);
                if i + 1 < all.len() - 1 {
                    assert(all[i + 1] == before[i + 1]);
                } else {
                    assert(all[i + 1][0] == before[i + 1][0]);
                }
            }
        } else {
            assert(all.drop_last() =~= before);
            lemma_concatenated_one(seq![c]);
            assert(concatenated(all) =~= concatenated(before).push(c));
            assert(concatenated(before).push(c) =~= text);
            if before.len() > 0 {
                lemma_runs_end(init, class);
                assert(all_marked(before[before.len() - 1], class, class.has(before.last()[0])));
                assert(class.has(before.last()[before.last().len() - 1]) == class.has(
                    before.last()[0],
                ));
            }
            assert forall|i: int| 0 <= i < all.len() implies (#[trigger] all[i]).len() > 0
                && all_marked(all[i], class, class.has(all[i][0])) by {
                if i < all.len() - 1 {
                    assert(all[i] == before[i]);
                }
            }
            assert forall|i: int| 0 <= i && i + 1 < all.len() implies class.has(
                (#[trigger] all[i])[0],
            ) != class.has(all[i + 1][0]) by {
                assert(all[i] == before[i]);
                if i + 1 < all.len() - 1 {
                    assert(all[i + 1] == before[i + 1]);
                }
            }
        }
    }
}

/// With every piece kept, nothing is dropped.
pub proof fn lemma_kept_all(pieces: Seq<Seq<char>>, class: CharClass)
    ensures
        kept(pieces, class, Keep::All) == pieces,
    decreases pieces.len(),
{
    if pieces.len() > 0 {
        lemma_kept_all(pieces.drop_last(), class);
        assert(pieces.drop_last().push(pieces.last()) =~= pieces);
    }
}

} // verus!
