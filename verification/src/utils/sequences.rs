//! Two notions on sequences that the tokenizers share: the distinct items of a
//! sequence in the order in which they first occur, and how often an item occurs.

use vstd::prelude::*;

verus! {

/// The distinct items of `items`, each at the place of its first occurrence.
pub open spec fn first_occurrences<A>(items: Seq<A>) -> Seq<A>
    decreases items.len(),
{
    if items.len() == 0 {
        Seq::empty()
    } else {
        let before = first_occurrences(items.drop_last());
        if before.contains(items.last()) {
            before
        } else {
            before.push(items.last())
        }
    }
}

/// How often `item` occurs in `items`.
pub open spec fn count_of<A>(items: Seq<A>, item: A) -> nat
    decreases items.len(),
{
    if items.len() == 0 {
        0
    } else {
        count_of(items.drop_last(), item) + if items.last() == item {
            1nat
        } else {
            0nat
        }
    }
}

/// `first_occurrences` holds every item of the sequence, no other, and none twice;
/// it is no longer than the sequence.
pub proof fn lemma_first_occurrences<A>(items: Seq<A>)
    ensures
        first_occurrences(items).no_duplicates(),
        forall|item: A| first_occurrences(items).contains(item) <==> items.contains(item),
        first_occurrences(items).len() <= items.len(),
    decreases items.len(),
{
    let firsts = first_occurrences(items);
    if items.len() == 0 {
        assert forall|item: A| !items.contains(item) by {}
    } else {
        let init = items.drop_last();
        let before = first_occurrences(init);
        lemma_first_occurrences(init);
        assert forall|item: A| firsts.contains(item) <==> items.contains(item) by {
            if firsts.contains(item) {
                let i = choose|i: int| 0 <= i < firsts.len() && firsts[i] == item;
                if i < before.len() {
                    assert(before[i] == item);
                    assert(before.contains(item));
                    assert(init.contains(item));
                    let j = choose|j: int| 0 <= j < init.len() && init[j] == item;
                    assert(items[j] == item);
                } else {
                    assert(items[items.len() - 1] == item);
                }
            }
            if items.contains(item) {
                let j = choose|j: int| 0 <= j < items.len() && items[j] == item;
                if j < init.len() {
                    assert(init[j] == item);
                    assert(init.contains(item));
                    assert(before.contains(item));
                    let i = choose|i: int| 0 <= i < before.len() && before[i] == item;
                    assert(firsts[i] == item);
                } else if !before.contains(item) {
                    assert(firsts[before.len() as int] == item);
                }
            }
        }
    }
}

/// `first_occurrences` keeps the order of first occurrence: of two of its
/// items, the earlier one occurs in the sequence at a place up to which the
/// later one does not occur.
pub proof fn lemma_first_occurrences_order<A>(items: Seq<A>, i: int, j: int)
    requires
        0 <= i < j < first_occurrences(items).len(),
    ensures
        exists|at: int|
            0 <= at < items.len() && items[at] == first_occurrences(items)[i] && !items.take(
                at + 1,
            ).contains(first_occurrences(items)[j]),
    decreases items.len(),
{
    let firsts = first_occurrences(items);
    let init = items.drop_last();
    let before = first_occurrences(init);
    lemma_first_occurrences(init);
    if j < before.len() {
        lemma_first_occurrences_order(init, i, j);
        let at = choose|at: int|
            0 <= at < init.len() && init[at] == before[i] && !init.take(at + 1).contains(before[j]);
        assert(items.take(at + 1) =~= init.take(at + 1));
        assert(items[at] == firsts[i]);
    } else {
        let earlier = before[i];
        assert(before.contains(earlier));
        assert(init.contains(earlier));
        let at = choose|at: int| 0 <= at < init.len() && init[at] == earlier;
        assert(items[at] == firsts[i]);
        assert(firsts[j] == items.last());
        let taken = items.take(at + 1);
        if taken.contains(items.last()) {
            let k = choose|k: int| 0 <= k < taken.len() && taken[k] == items.last();
            assert(init[k] == items.last());
            assert(init.contains(items.last()));
        }
    }
}

/// An item that occurs is counted at least once, and no item is counted more
/// often than the sequence is long.
pub proof fn lemma_count_of<A>(items: Seq<A>, item: A)
    ensures
        count_of(items, item) <= items.len(),
        count_of(items, item) > 0 <==> items.contains(item),
    decreases items.len(),
{
    if items.len() > 0 {
        let init = items.drop_last();
        lemma_count_of(init, item);
        if init.contains(item) {
            let j = choose|j: int| 0 <= j < init.len() && init[j] == item;
            assert(items[j] == item);
        }
        if items.contains(item) && items.last() != item {
            let j = choose|j: int| 0 <= j < items.len() && items[j] == item;
            assert(init[j] == item);
        }
        if items.last() == item {
            assert(items[items.len() - 1] == item);
        }
    }
}

/// The sum of the numbers in `counts`.
pub open spec fn sum_of(counts: Seq<nat>) -> nat
    decreases counts.len(),
{
    if counts.len() == 0 {
        0
    } else {
        sum_of(counts.drop_last()) + counts.last()
    }
}

/// Appending a number adds it to the sum.
pub proof fn lemma_sum_of_push(counts: Seq<nat>, count: nat)
    ensures
        sum_of(counts.push(count)) == sum_of(counts) + count,
{
    assert(counts.push(count).drop_last() =~= counts);
}

/// Raising one number by one raises the sum by one.
pub proof fn lemma_sum_of_bump(counts: Seq<nat>, i: int)
    requires
        0 <= i < counts.len(),
    ensures
        sum_of(counts.update(i, counts[i] + 1)) == sum_of(counts) + 1,
        counts[i] <= sum_of(counts),
    decreases counts.len(),
{
    let bumped = counts.update(i, counts[i] + 1);
    if i == counts.len() - 1 {
        assert(bumped.drop_last() =~= counts.drop_last());
    } else {
        lemma_sum_of_bump(counts.drop_last(), i);
        assert(bumped.drop_last() =~= counts.drop_last().update(i, counts[i] + 1));
    }
}

/// The sum of a prefix is at most the sum of the whole.
pub proof fn lemma_sum_of_prefix(counts: Seq<nat>, n: int)
    requires
        0 <= n <= counts.len(),
    ensures
        sum_of(counts.take(n)) <= sum_of(counts),
    decreases counts.len(),
{
    if n == counts.len() {
        assert(counts.take(n) =~= counts);
    } else {
        lemma_sum_of_prefix(counts.drop_last(), n);
        assert(counts.drop_last().take(n) =~= counts.take(n));
    }
}

/// The numbers of `counts` as natural numbers.
pub open spec fn as_nats(counts: Seq<usize>) -> Seq<nat> {
    Seq::new(counts.len(), |i: int| counts[i] as nat)
}

/// The parts of `parts` one after the other, as one text.
pub open spec fn concatenated<A>(parts: Seq<Seq<A>>) -> Seq<A>
    decreases parts.len(),
{
    if parts.len() == 0 {
        Seq::empty()
    } else {
        concatenated(parts.drop_last()) + parts.last()
    }
}

/// One part alone is the whole text.
pub proof fn lemma_concatenated_one<A>(part: Seq<A>)
    ensures
        concatenated(seq![part]) == part,
{
    let none = seq![part].drop_last();
    assert(none.len() == 0);
    assert(concatenated(none) =~= Seq::<A>::empty());
    assert(seq![part].last() == part);
    assert(concatenated(seq![part]) =~= concatenated(none) + part);
}

/// Concatenation goes through `+`.
pub proof fn lemma_concatenated_add<A>(front: Seq<Seq<A>>, back: Seq<Seq<A>>)
    ensures
        concatenated(front + back) == concatenated(front) + concatenated(back),
    decreases back.len(),
{
    if back.len() == 0 {
        assert(front + back =~= front);
        assert(concatenated(front) + concatenated(back) =~= concatenated(front));
    } else {
        lemma_concatenated_add(front, back.drop_last());
        assert((front + back).drop_last() =~= front + back.drop_last());
        assert(concatenated(front + back) =~= concatenated(front) + concatenated(back));
    }
}

} // verus!
