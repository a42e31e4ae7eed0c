//! The n-gram language model by maximum likelihood estimation: the counts
//! that it keeps, and the word that it draws after a context.
//!
//! The model stores the n-grams of the text it was last fitted to, and counts
//! how often each context (an n-gram without its last word) was seen. The
//! likelihood of a word after a context is the quotient of two of these counts.

use vstd::prelude::*;
use rand::distributions::{Distribution, WeightedIndex};
use rand::thread_rng;
use crate::models::utils::{ngrams, windows};
use crate::tokenization::special_tokens::UNK;
use crate::tokenization::token::Word;
use crate::utils::sequences::{
    as_nats, count_of, first_occurrences, lemma_count_of, lemma_first_occurrences,
    lemma_sum_of_bump, lemma_sum_of_push, sum_of,
};
use crate::utils::text::{copy_words, same_words};
use crate::utils::wrappers::wrapped_sentence;

verus! {

/// An n-gram, or a context: a sequence of words.
pub type Gram = Seq<Seq<char>>;

/// A context with the number of times it was seen.
pub struct ContextCount {
    pub context: Vec<Word>,
    pub count: usize,
}

/// A word that may follow a context, with the number of times it did.
pub struct WordWeight {
    pub word: Word,
    pub weight: usize,
}

/// What a stored list of context counts stands for.
pub open spec fn contexts_view(table: Seq<ContextCount>) -> Seq<(Gram, nat)> {
    Seq::new(table.len(), |i: int| (table[i].context.deep_view(), table[i].count as nat))
}

/// The words of a list of weighted words.
pub open spec fn weighted_words(candidates: Seq<WordWeight>) -> Seq<Seq<char>> {
    Seq::new(candidates.len(), |i: int| candidates[i].word@)
}

/// The weights of a list of weighted words.
pub open spec fn weights_of(candidates: Seq<WordWeight>) -> Seq<nat> {
    Seq::new(candidates.len(), |i: int| candidates[i].weight as nat)
}

/// The context of each n-gram: the n-gram without its last word.
pub open spec fn contexts_of(grams: Seq<Gram>) -> Seq<Gram> {
    Seq::new(grams.len(), |i: int| grams[i].drop_last())
}

/// The number that a list of counts holds for `context`: the sum over its
/// entries for that context.
pub open spec fn counted_for(table: Seq<(Gram, nat)>, context: Gram) -> nat
    decreases table.len(),
{
    if table.len() == 0 {
        0
    } else {
        counted_for(table.drop_last(), context) + if table.last().0 == context {
            table.last().1
        } else {
            0
        }
    }
}

/// The counts of a list of context counts, entry by entry.
pub open spec fn counts_in(table: Seq<(Gram, nat)>) -> Seq<nat> {
    Seq::new(table.len(), |i: int| table[i].1)
}

/// Whether no context stands twice in the list.
pub open spec fn distinct_contexts(table: Seq<(Gram, nat)>) -> bool {
    forall|i: int, j: int| 0 <= i < j < table.len() ==> table[i].0 != table[j].0
}

/// The words that followed `context` in `grams`, in the order of the n-grams.
pub open spec fn followers(grams: Seq<Gram>, context: Gram) -> Seq<Seq<char>>
    decreases grams.len(),
{
    if grams.len() == 0 {
        Seq::empty()
    } else {
        let before = followers(grams.drop_last(), context);
        let gram = grams.last();
        if gram.len() > 0 && gram.drop_last() == context {
            before.push(gram.last())
        } else {
            before
        }
    }
}

/// The context that generation reads from a sentence: its last `order - 1` words.
pub open spec fn last_context(sentence: Seq<Seq<char>>, order: nat) -> Gram {
    sentence.skip(sentence.len() + 1 - order)
}

/// What one more entry adds to the number held for a context.
pub proof fn lemma_counted_for_push(table: Seq<(Gram, nat)>, entry: (Gram, nat), context: Gram)
    ensures
        counted_for(table.push(entry), context) == counted_for(table, context) + if entry.0
            == context {
            entry.1
        } else {
            0
        },
{
    assert(table.push(entry).drop_last() =~= table);
}

/// What raising one entry by one adds to the number held for a context.
pub proof fn lemma_counted_for_bump(table: Seq<(Gram, nat)>, at: int, context: Gram)
    requires
        0 <= at < table.len(),
    ensures
        counted_for(table.update(at, (table[at].0, table[at].1 + 1)), context) == counted_for(
            table,
            context,
        ) + if table[at].0 == context {
            1nat
        } else {
            0nat
        },
    decreases table.len(),
{
    let bumped = table.update(at, (table[at].0, table[at].1 + 1));
    if at == table.len() - 1 {
        assert(bumped.drop_last() =~= table.drop_last());
    } else {
        lemma_counted_for_bump(table.drop_last(), at, context);
        assert(bumped.drop_last() =~= table.drop_last().update(at, (table[at].0, table[at].1 + 1)));
    }
}

/// Where no context stands twice, the number held for a context is the count
/// of its one entry, or zero where it has none.
pub proof fn lemma_counted_for_entry(table: Seq<(Gram, nat)>, context: Gram)
    requires
        distinct_contexts(table),
    ensures
        forall|i: int|
            0 <= i < table.len() && (#[trigger] table[i]).0 == context ==> counted_for(
                table,
                context,
            ) == table[i].1,
        (forall|i: int| 0 <= i < table.len() ==> (#[trigger] table[i]).0 != context)
            ==> counted_for(table, context) == 0,
    decreases table.len(),
{
    if table.len() > 0 {
        let init = table.drop_last();
        let last = table.len() - 1;
        assert(distinct_contexts(init)) by {
            assert forall|i: int, j: int| 0 <= i < j < init.len() implies init[i].0 != init[j].0 by {
                assert(table[i].0 != table[j].0);
            }
        }
        lemma_counted_for_entry(init, context);
        if table[last].0 == context {
            assert forall|i: int| 0 <= i < init.len() implies (#[trigger] init[i]).0 != context by {
                assert(init[i] == table[i]);
                assert(table[i].0 != table[last].0);
            }
            assert(counted_for(init, context) == 0);
        }
        assert forall|i: int| 0 <= i < table.len() && (#[trigger] table[i]).0 == context implies counted_for(
            table,
            context,
        ) == table[i].1 by {
            if i < last {
                assert(init[i] == table[i]);
                assert(table[i].0 != table[last].0);
                assert(counted_for(init, context) == init[i].1);
            }
        }
        if forall|i: int| 0 <= i < table.len() ==> (#[trigger] table[i]).0 != context {
            assert forall|i: int| 0 <= i < init.len() implies (#[trigger] init[i]).0 != context by {
                assert(init[i] == table[i]);
            }
            assert(table[last].0 != context);
        }
    }
}

/// Draws an index with `WeightedIndex::new` over the weights and
/// `Distribution::sample` on `thread_rng()`. The contract claims what holds of
/// every draw: the index lies within the weights. It also claims that a draw
/// is made whenever there is a weight and not all weights are zero, which are
/// the only cases in which the crate refuses unsigned weights.
#[verifier::external_body]
pub(crate) fn draw_index(weights: &Vec<usize>) -> (drawn: Option<usize>)
    requires
        sum_of(as_nats(weights@)) <= usize::MAX,
    ensures
        drawn matches Some(i) ==> i < weights.len(),
        weights.len() > 0 && sum_of(as_nats(weights@)) > 0 ==> drawn is Some,
{
    match WeightedIndex::new(weights) {
        Ok(distribution) => Some(distribution.sample(&mut thread_rng())),
        Err(_) => None,
    }
}

/// The word at the index drawn, or the unknown-token sentinel where nothing
/// was drawn or the index lies outside the candidates.
pub fn pick_word(candidates: &Vec<WordWeight>, drawn: Option<usize>) -> (word: Word)
    ensures
        word@ == match drawn {
            Some(i) => if i < candidates.len() {
                candidates[i as int].word@
            } else {
                UNK@
            },
            None => UNK@,
        },
{
    match drawn {
        Some(i) => {
            if i < candidates.len() {
                candidates[i].word.clone()
            } else {
                UNK.to_owned()
            }
        },
        None => UNK.to_owned(),
    }
}

/// The first `n` words of `words`.
pub fn first_words(words: &Vec<Word>, n: usize) -> (front: Vec<Word>)
    requires
        n <= words.len(),
    ensures
        front.deep_view() == words.deep_view().take(n as int),
{
    let mut front: Vec<Word> = Vec::new();
    let mut i: usize = 0;
    while i < n
        invariant
            i <= n <= words.len(),
            front.len() == i,
            forall|j: int| 0 <= j < i ==> front[j]@ == words[j]@,
        decreases n - i,
    {
        front.push(words[i].clone());
        i += 1;
    }
    assert(front.deep_view() =~= words.deep_view().take(n as int));
    front
}

/// The words of `words` from position `from` on.
pub fn last_words(words: &Vec<Word>, from: usize) -> (back: Vec<Word>)
    requires
        from <= words.len(),
    ensures
        back.deep_view() == words.deep_view().skip(from as int),
{
    let mut back: Vec<Word> = Vec::new();
    let mut i: usize = from;
    while i < words.len()
        invariant
            from <= i <= words.len(),
            back.len() == i - from,
            forall|j: int| 0 <= j < i - from ==> back[j]@ == words[from + j]@,
        decreases words.len() - i,
    {
        back.push(words[i].clone());
        i += 1;
    }
    assert(back.deep_view() =~= words.deep_view().skip(from as int));
    back
}

/// The position of `context` in `table`, or `None` when it has no entry.
pub fn find_context(table: &Vec<ContextCount>, context: &Vec<Word>) -> (found: Option<usize>)
    ensures
        match found {
            Some(i) => i < table.len() && table[i as int].context.deep_view()
                == context.deep_view(),
            None => forall|i: int|
                0 <= i < table.len() ==> (#[trigger] table[i]).context.deep_view()
                    != context.deep_view(),
        },
{
    let mut i: usize = 0;
    while i < table.len()
        invariant
            i <= table.len(),
            forall|j: int|
                0 <= j < i ==> (#[trigger] table[j]).context.deep_view() != context.deep_view(),
        decreases table.len() - i,
    {
        if same_words(&table[i].context, context) {
            return Some(i);
        }
        i += 1;
    }
    None
}

/// The position of `word` among `candidates`, or `None` when it is not one.
pub fn find_candidate(candidates: &Vec<WordWeight>, word: &Word) -> (found: Option<usize>)
    ensures
        match found {
            Some(i) => i < candidates.len() && candidates[i as int].word@ == word@,
            None => !weighted_words(candidates@).contains(word@),
        },
{
    let mut i: usize = 0;
    while i < candidates.len()
        invariant
            i <= candidates.len(),
            forall|j: int| 0 <= j < i ==> weighted_words(candidates@)[j] != word@,
        decreases candidates.len() - i,
    {
        if candidates[i].word == *word {
            return Some(i);
        }
        i += 1;
    }
    None
}

/// The n-gram model.
pub struct MLE {
    /// The number of words in an n-gram.
    n: u32,
    /// The n-grams of the text that the model was last fitted to.
    ngrams: Vec<Vec<Word>>,
    /// How often each context was seen, over all fits.
    contexts_count: Vec<ContextCount>,
    /// The sum of the counts in `contexts_count`.
    counted: usize,
    /// The vocabulary that the model was last fitted with.
    vocabulary: Vec<Word>,
}

impl MLE {
    /// The number of words in an n-gram.
    pub closed spec fn order(&self) -> nat {
        self.n as nat
    }

    /// The n-grams of the text that the model was last fitted to.
    pub closed spec fn grams(&self) -> Seq<Gram> {
        self.ngrams.deep_view()
    }

    /// The vocabulary that the model was last fitted with.
    pub closed spec fn known_words(&self) -> Seq<Seq<char>> {
        self.vocabulary.deep_view()
    }

    /// How often `context` was seen, over all fits.
    pub closed spec fn context_count_of(&self, context: Gram) -> nat {
        counted_for(contexts_view(self.contexts_count@), context)
    }

    /// How many contexts were seen, over all fits.
    pub closed spec fn counted(&self) -> nat {
        self.counted as nat
    }

    /// An n-gram has at least two words; every stored n-gram has exactly
    /// `n`; no context has two entries; the total is the sum of the counts.
    #[verifier::type_invariant]
    spec fn well_formed(&self) -> bool {
        &&& self.n >= 2
        &&& forall|i: int| 0 <= i < self.ngrams.len() ==> (#[trigger] self.ngrams[i]).len() == self.n
        &&& distinct_contexts(contexts_view(self.contexts_count@))
        &&& sum_of(counts_in(contexts_view(self.contexts_count@))) == self.counted
    }

    /// A model of n-grams of `n` words that has seen nothing.
    pub fn new_(n: u32) -> (model: Self)
        requires
            n >= 2,
        ensures
            model.order() == n,
            model.grams() == Seq::<Gram>::empty(),
            model.known_words() == Seq::<Seq<char>>::empty(),
            model.counted() == 0,
            forall|context: Gram| model.context_count_of(context) == 0,
    {
        let contexts_count: Vec<ContextCount> = Vec::new();
        assert(counts_in(contexts_view(contexts_count@)) =~= Seq::<nat>::empty());
        let model = MLE {
            n,
            ngrams: Vec::new(),
            contexts_count,
            counted: 0,
            vocabulary: Vec::new(),
        };
        assert(model.grams() =~= Seq::<Gram>::empty());
        assert(model.known_words() =~= Seq::<Seq<char>>::empty());
        model
    }

    /// A model of n-grams of `n` words that has seen nothing.
    pub fn new(n: u32) -> (model: Self)
        requires
            n >= 2,
        ensures
            model.order() == n,
            model.grams() == Seq::<Gram>::empty(),
            model.known_words() == Seq::<Seq<char>>::empty(),
            model.counted() == 0,
            forall|context: Gram| model.context_count_of(context) == 0,
    {
        MLE::new_(n)
    }

    /// The number of words in an n-gram.
    pub fn n(&self) -> (n: u32)
        ensures
            n == self.order(),
            n >= 2,
    {
        proof {
            use_type_invariant(self);
        }
        self.n
    }

    /// How many contexts were seen, over all fits.
    pub fn contexts_seen(&self) -> (total: usize)
        ensures
            total == self.counted(),
    {
        self.counted
    }

    /// How many n-grams the model stores.
    pub fn ngram_count(&self) -> (count: usize)
        ensures
            count == self.grams().len(),
    {
        self.ngrams.len()
    }

    /// A copy of the vocabulary that the model was last fitted with.
    pub fn vocabulary(&self) -> (words: Vec<Word>)
        ensures
            words.deep_view() == self.known_words(),
    {
        copy_words(&self.vocabulary)
    }

    /// Fits the model to `text`: the stored n-grams become those of the
    /// padded text, the context of each is counted once more, and the
    /// vocabulary is replaced. The counts of earlier fits stay.
    pub fn fit_(&mut self, text: &Vec<Word>, vocabulary: &Vec<Word>)
        requires
            old(self).counted() + text.len() + old(self).order() - 1 <= usize::MAX,
        ensures
            final(self).order() == old(self).order(),
            final(self).grams() == windows(
                wrapped_sentence(text.deep_view(), (old(self).order() - 1) as nat, true, true),
                old(self).order(),
            ),
            final(self).grams().len() == text.len() + old(self).order() - 1,
            final(self).known_words() == vocabulary.deep_view(),
            final(self).counted() == old(self).counted() + final(self).grams().len(),
            forall|context: Gram|
                #[trigger] final(self).context_count_of(context) == old(self).context_count_of(
                    context,
                ) + count_of(contexts_of(final(self).grams()), context),
    {
        proof {
            use_type_invariant(&*self);
        }
        let grams = ngrams(text, self.n, true);
        let ghost all = grams.deep_view();
        let ghost before = contexts_view(self.contexts_count@);
        let width = (self.n - 1) as usize;
        let mut table: Vec<ContextCount> = Vec::new();
        let mut k: usize = 0;
        while k < self.contexts_count.len()
            invariant
                k <= self.contexts_count.len(),
                before == contexts_view(self.contexts_count@),
                contexts_view(table@) == before.take(k as int),
            decreases self.contexts_count.len() - k,
        {
            let ghost prior = contexts_view(table@);
            table.push(
                ContextCount {
                    context: copy_words(&self.contexts_count[k].context),
                    count: self.contexts_count[k].count,
                },
            );
            proof {
                assert(before[k as int] == (
                    self.contexts_count[k as int].context.deep_view(),
                    self.contexts_count[k as int].count as nat,
                ));
                assert(contexts_view(table@) =~= prior.push(before[k as int]));
                assert(prior.push(before[k as int]) =~= before.take(k + 1));
            }
            k += 1;
        }
        assert(before.take(self.contexts_count.len() as int) =~= before);
        let mut counted = self.counted;
        let mut i: usize = 0;
        assert(contexts_of(all).take(0) =~= Seq::<Gram>::empty());
        assert forall|g: int| 0 <= g < grams.len() implies (#[trigger] grams[g]).len()
            == self.n by {
            assert(all[g].len() == self.n);
            assert(all[g] == grams[g].deep_view());
        }
        while i < grams.len()
            invariant
                i <= grams.len(),
                all == grams.deep_view(),
                width == self.n - 1,
                self.n >= 2,
                forall|g: int| 0 <= g < grams.len() ==> (#[trigger] grams[g]).len() == self.n,
                distinct_contexts(contexts_view(table@)),
                sum_of(counts_in(contexts_view(table@))) == counted,
                counted == old(self).counted() + i,
                old(self).counted() + grams.len() <= usize::MAX,
                forall|context: Gram|
                    #[trigger] counted_for(contexts_view(table@), context) == counted_for(
                        before,
                        context,
                    ) + count_of(contexts_of(all).take(i as int), context),
            decreases grams.len() - i,
        {
            let context = first_words(&grams[i], width);
            let ghost key = context.deep_view();
            let ghost seen = contexts_of(all).take(i as int);
            let ghost longer = contexts_of(all).take(i + 1);
            let ghost entries = contexts_view(table@);
            proof {
                assert(grams[i as int].len() == self.n);
                assert(all[i as int] == grams[i as int].deep_view());
                assert(all[i as int].drop_last() =~= all[i as int].take(width as int));
                assert(longer.drop_last() =~= seen);
                assert(longer.last() == key);
            }
            match find_context(&table, &context) {
                Some(at) => {
                    proof {
                        lemma_sum_of_bump(counts_in(entries), at as int);
                        assert(entries[at as int].0 == key);
                    }
                    table[at].count = table[at].count + 1;
                    proof {
                        let bumped = contexts_view(table@);
                        assert(bumped =~= entries.update(
                            at as int,
                            (entries[at as int].0, entries[at as int].1 + 1),
                        ));
                        assert(counts_in(bumped) =~= counts_in(entries).update(
                            at as int,
                            counts_in(entries)[at as int] + 1,
                        ));
                        assert forall|context: Gram| #[trigger]
                            counted_for(bumped, context) == counted_for(before, context)
                                + count_of(longer, context) by {
                            lemma_counted_for_bump(entries, at as int, context);
                        }
                        assert(distinct_contexts(bumped)) by {
                            assert forall|a: int, b: int| 0 <= a < b < bumped.len() implies bumped[a].0
                                != bumped[b].0 by {
                                assert(entries[a].0 != entries[b].0);
                            }
                        }
                    }
                },
                None => {
                    table.push(ContextCount { context, count: 1 });
                    proof {
                        let pushed = contexts_view(table@);
                        assert(pushed =~= entries.push((key, 1nat)));
                        assert(counts_in(pushed) =~= counts_in(entries).push(1nat));
                        lemma_sum_of_push(counts_in(entries), 1);
                        assert forall|context: Gram| #[trigger]
                            counted_for(pushed, context) == counted_for(before, context)
                                + count_of(longer, context) by {
                            lemma_counted_for_push(entries, (key, 1nat), context);
                        }
                        assert(distinct_contexts(pushed)) by {
                            assert forall|a: int, b: int| 0 <= a < b < pushed.len() implies pushed[a].0
                                != pushed[b].0 by {
                                if b < entries.len() {
                                    assert(entries[a].0 != entries[b].0);
                                } else {
                                    assert(table[a].context.deep_view() != key);
                                }
                            }
                        }
                    }
                },
            }
            counted = counted + 1;
            i += 1;
        }
        assert(contexts_of(all).take(grams.len() as int) =~= contexts_of(all));
        let n = self.n;
        *self = MLE {
            n,
            ngrams: grams,
            contexts_count: table,
            counted,
            vocabulary: copy_words(vocabulary),
        };
    }

    /// Fits the model to `text`; see `fit_`.
    pub fn fit(&mut self, text: Vec<Word>, vocabulary: Vec<Word>)
        requires
            old(self).counted() + text.len() + old(self).order() - 1 <= usize::MAX,
        ensures
            final(self).order() == old(self).order(),
            final(self).grams() == windows(
                wrapped_sentence(text.deep_view(), (old(self).order() - 1) as nat, true, true),
                old(self).order(),
            ),
            final(self).known_words() == vocabulary.deep_view(),
            final(self).counted() == old(self).counted() + final(self).grams().len(),
            forall|context: Gram|
                #[trigger] final(self).context_count_of(context) == old(self).context_count_of(
                    context,
                ) + count_of(contexts_of(final(self).grams()), context),
    {
        self.fit_(&text, &vocabulary)
    }

    /// How many of the stored n-grams are `ngram`.
    pub fn count_of_ngram(&self, ngram: &Vec<Word>) -> (count: usize)
        ensures
            count == count_of(self.grams(), ngram.deep_view()),
    {
        let ghost all = self.ngrams.deep_view();
        let mut count: usize = 0;
        let mut i: usize = 0;
        while i < self.ngrams.len()
            invariant
                i <= self.ngrams.len(),
                all == self.ngrams.deep_view(),
                count == count_of(all.take(i as int), ngram.deep_view()),
                count <= i,
            decreases self.ngrams.len() - i,
        {
            proof {
                assert(all.take(i + 1).drop_last() =~= all.take(i as int));
                assert(all.take(i + 1).last() == self.ngrams[i as int].deep_view());
            }
            if same_words(&self.ngrams[i], ngram) {
                count += 1;
            }
            i += 1;
        }
        assert(all.take(self.ngrams.len() as int) =~= all);
        count
    }

    /// How often `context` was seen, over all fits.
    pub fn context_count(&self, context: &Vec<Word>) -> (count: usize)
        ensures
            count == self.context_count_of(context.deep_view()),
    {
        proof {
            use_type_invariant(self);
            lemma_counted_for_entry(contexts_view(self.contexts_count@), context.deep_view());
        }
        match find_context(&self.contexts_count, context) {
            Some(at) => {
                assert(contexts_view(self.contexts_count@)[at as int].0 == context.deep_view());
                self.contexts_count[at].count
            },
            None => {
                assert forall|i: int| 0 <= i < self.contexts_count.len() implies (
                #[trigger] contexts_view(self.contexts_count@)[i]).0 != context.deep_view() by {
                    assert(self.contexts_count[i].context.deep_view() != context.deep_view());
                }
                0
            },
        }
    }

    /// The words that may follow the last words of `sentence`: the distinct
    /// words that followed that context in the stored n-grams, in the order in
    /// which they first did, each with the number of times it did.
    pub fn candidates(&self, sentence: &Vec<Word>) -> (candidates: Vec<WordWeight>)
        requires
            sentence.len() + 1 >= self.order(),
        ensures
            weighted_words(candidates@) == first_occurrences(
                followers(self.grams(), last_context(sentence.deep_view(), self.order())),
            ),
            forall|i: int|
                0 <= i < candidates.len() ==> (#[trigger] candidates[i]).weight == count_of(
                    followers(self.grams(), last_context(sentence.deep_view(), self.order())),
                    candidates[i].word@,
                ),
            sum_of(weights_of(candidates@)) == followers(
                self.grams(),
                last_context(sentence.deep_view(), self.order()),
            ).len(),
            sum_of(weights_of(candidates@)) <= usize::MAX,
    {
        proof {
            use_type_invariant(self);
        }
        let width = (self.n - 1) as usize;
        let context = last_words(sentence, sentence.len() - width);
        let ghost key = last_context(sentence.deep_view(), self.order());
        let ghost all = self.ngrams.deep_view();
        let mut candidates: Vec<WordWeight> = Vec::new();
        let mut i: usize = 0;
        assert(all.take(0) =~= Seq::<Gram>::empty());
        assert(weighted_words(candidates@) =~= Seq::<Seq<char>>::empty());
        assert(weights_of(candidates@) =~= Seq::<nat>::empty());
        while i < self.ngrams.len()
            invariant
                i <= self.ngrams.len(),
                all == self.ngrams.deep_view(),
                key == context.deep_view(),
                width == self.n - 1,
                self.n >= 2,
                forall|g: int|
                    0 <= g < self.ngrams.len() ==> (#[trigger] self.ngrams[g]).len() == self.n,
                weighted_words(candidates@) == first_occurrences(
                    followers(all.take(i as int), key),
                ),
                forall|c: int|
                    0 <= c < candidates.len() ==> (#[trigger] candidates[c]).weight == count_of(
                        followers(all.take(i as int), key),
                        candidates[c].word@,
                    ),
                sum_of(weights_of(candidates@)) == followers(all.take(i as int), key).len(),
                followers(all.take(i as int), key).len() <= i,
            decreases self.ngrams.len() - i,
        {
            let gram = &self.ngrams[i];
            let ghost seen = followers(all.take(i as int), key);
            let ghost words = weighted_words(candidates@);
            let ghost weights = weights_of(candidates@);
            let ghost old_candidates = candidates@;
            proof {
                assert(gram.len() == self.n);
                assert(all.take(i + 1).drop_last() =~= all.take(i as int));
                assert(all.take(i + 1).last() == gram.deep_view());
                assert(gram.deep_view().drop_last() =~= gram.deep_view().take(width as int));
                lemma_first_occurrences(seen);
            }
            let front = first_words(gram, width);
            if same_words(&front, &context) {
                let word = &gram[width];
                let ghost longer = seen.push(word@);
                proof {
                    assert(gram.deep_view().last() == word@);
                    assert(followers(all.take(i + 1), key) == longer);
                    assert(longer.drop_last() =~= seen);
                }
                match find_candidate(&candidates, word) {
                    Some(at) => {
                        proof {
                            lemma_count_of(seen, word@);
                            lemma_sum_of_bump(weights, at as int);
                            assert(words[at as int] == word@);
                        }
                        candidates[at].weight = candidates[at].weight + 1;
                        proof {
                            assert(weighted_words(candidates@) =~= words);
                            assert(weights_of(candidates@) =~= weights.update(
                                at as int,
                                weights[at as int] + 1,
                            ));
                            assert forall|c: int| 0 <= c < candidates.len() implies (
                            #[trigger] candidates[c]).weight == count_of(
                                longer,
                                candidates[c].word@,
                            ) by {
                                if c != at {
                                    assert(candidates[c] == old_candidates[c]);
                                    assert(words[c] != words[at as int]);
                                }
                            }
                        }
                    },
                    None => {
                        candidates.push(WordWeight { word: word.clone(), weight: 1 });
                        proof {
                            lemma_count_of(seen, word@);
                            lemma_sum_of_push(weights, 1);
                            assert(weighted_words(candidates@) =~= words.push(word@));
                            assert(weights_of(candidates@) =~= weights.push(1nat));
                            assert forall|c: int| 0 <= c < candidates.len() implies (
                            #[trigger] candidates[c]).weight == count_of(
                                longer,
                                candidates[c].word@,
                            ) by {
                                if c < old_candidates.len() {
                                    assert(candidates[c] == old_candidates[c]);
                                    assert(words[c] == candidates[c].word@);
                                    assert(words.contains(candidates[c].word@));
                                }
                            }
                        }
                    },
                }
            } else {
                assert(followers(all.take(i + 1), key) == seen);
            }
            i += 1;
        }
        assert(all.take(self.ngrams.len() as int) =~= all);
        candidates
    }

    /// Draws a word to follow `sentence`: one of the words that followed its
    /// last words in the stored n-grams, with a chance proportional to the
    /// number of times it did; the unknown-token sentinel where none did.
    pub fn generate_word_(&self, sentence: &Vec<Word>) -> (word: Word)
        requires
            sentence.len() + 1 >= self.order(),
        ensures
            followers(self.grams(), last_context(sentence.deep_view(), self.order())).len() == 0
                ==> word@ == UNK@,
            followers(self.grams(), last_context(sentence.deep_view(), self.order())).len() > 0
                ==> followers(
                self.grams(),
                last_context(sentence.deep_view(), self.order()),
            ).contains(word@),
    {
        let candidates = self.candidates(sentence);
        let ghost possible = followers(
            self.grams(),
            last_context(sentence.deep_view(), self.order()),
        );
        proof {
            lemma_first_occurrences(possible);
        }
        if candidates.len() == 0 {
            proof {
                if possible.len() > 0 {
                    assert(possible.contains(possible[0]));
                    assert(weighted_words(candidates@).contains(possible[0]));
                }
            }
            return UNK.to_owned();
        }
        let mut weights: Vec<usize> = Vec::new();
        let mut i: usize = 0;
        while i < candidates.len()
            invariant
                i <= candidates.len(),
                as_nats(weights@) == weights_of(candidates@).take(i as int),
            decreases candidates.len() - i,
        {
            let ghost before = as_nats(weights@);
            weights.push(candidates[i].weight);
            assert(as_nats(weights@) =~= before.push(candidates[i as int].weight as nat));
            assert(before.push(candidates[i as int].weight as nat) =~= weights_of(
                candidates@,
            ).take(i + 1));
            i += 1;
        }
        proof {
            assert(weights_of(candidates@).take(candidates.len() as int) =~= weights_of(
                candidates@,
            ));
            assert(weighted_words(candidates@).contains(weighted_words(candidates@)[0]));
            assert(possible.len() > 0);
        }
        let drawn = draw_index(&weights);
        let word = pick_word(&candidates, drawn);
        proof {
            let at = drawn->0 as int;
            assert(weighted_words(candidates@)[at] == word@);
            assert(weighted_words(candidates@).contains(word@));
        }
        word
    }

    /// Draws a word to follow `sentence`; see `generate_word_`.
    pub fn generate_word(&self, sentence: Vec<Word>) -> (word: Word)
        requires
            sentence.len() + 1 >= self.order(),
        ensures
            followers(self.grams(), last_context(sentence.deep_view(), self.order())).len() == 0
                ==> word@ == UNK@,
            followers(self.grams(), last_context(sentence.deep_view(), self.order())).len() > 0
                ==> followers(
                self.grams(),
                last_context(sentence.deep_view(), self.order()),
            ).contains(word@),
    {
        self.generate_word_(&sentence)
    }
}

} // verus!
