//! Applying a function to every item of a sequence in order, up to the first that fails.

use vstd::prelude::*;

verus! {

/// The results of `f` on all of `items` in order, or the error of the first item on which
/// `f` fails.
pub open spec fn collect<T, U, E>(items: Seq<T>, f: spec_fn(T) -> Result<U, E>) -> Result<Seq<U>, E>
    decreases items.len(),
{
    if items.len() == 0 {
        Ok(Seq::empty())
    } else {
        match collect(items.drop_last(), f) {
            Err(error) => Err(error),
            Ok(results) => match f(items.last()) {
                Err(error) => Err(error),
                Ok(result) => Ok(results.push(result)),
            },
        }
    }
}

/// One more item.
pub(crate) proof fn lemma_collect_next<T, U, E>(items: Seq<T>, f: spec_fn(T) -> Result<U, E>, i: int)
    requires
        0 <= i < items.len(),
    ensures
        collect(items.take(i + 1), f) == match collect(items.take(i), f) {
            Err(error) => Err(error),
            Ok(results) => match f(items[i]) {
                Err(error) => Err(error),
                Ok(result) => Ok(results.push(result)),
            },
        },
{
    assert(items.take(i + 1).drop_last() =~= items.take(i));
}

/// An error among the first items is the error of the whole.
pub(crate) proof fn lemma_collect_error<T, U, E>(items: Seq<T>, f: spec_fn(T) -> Result<U, E>, i: int)
    requires
        0 <= i <= items.len(),
        collect(items.take(i), f) is Err,
    ensures
        collect(items, f) == collect(items.take(i), f),
    decreases items.len(),
{
    if i < items.len() {
        assert(items.drop_last().take(i) =~= items.take(i));
        lemma_collect_error(items.drop_last(), f, i);
    } else {
        assert(items.take(i) =~= items);
    }
}

/// Where no item fails, the results are those of the items, one for one.
pub(crate) proof fn lemma_collect_ok<T, U, E>(items: Seq<T>, f: spec_fn(T) -> Result<U, E>)
    requires
        collect(items, f) is Ok,
    ensures
        collect(items, f)->Ok_0.len() == items.len(),
        forall|i: int| #![trigger items[i]]
            0 <= i < items.len() ==> f(items[i]) == Ok::<U, E>(collect(items, f)->Ok_0[i]),
    decreases items.len(),
{
    if items.len() > 0 {
        lemma_collect_ok(items.drop_last(), f);
        let results = collect(items, f)->Ok_0;
        let before = collect(items.drop_last(), f)->Ok_0;
        assert forall|i: int| #![trigger items[i]] 0 <= i < items.len() implies f(items[i]) == Ok::<
            U,
            E,
        >(results[i]) by {
            if i < items.len() - 1 {
                assert(items.drop_last()[i] == items[i]);
            }
        }
    }
}

/// What `f` finds first in `items`, each given with its index.
pub open spec fn first_found<T, E>(items: Seq<T>, f: spec_fn(int, T) -> Option<E>) -> Option<E>
    decreases items.len(),
{
    if items.len() == 0 {
        None
    } else {
        match first_found(items.drop_last(), f) {
            Some(found) => Some(found),
            None => f(items.len() - 1, items.last()),
        }
    }
}

/// What is found among the first items is found first of all.
pub(crate) proof fn lemma_first_found<T, E>(
    items: Seq<T>,
    f: spec_fn(int, T) -> Option<E>,
    i: int,
)
    requires
        0 <= i <= items.len(),
        first_found(items.take(i), f) is Some,
    ensures
        first_found(items, f) == first_found(items.take(i), f),
    decreases items.len(),
{
    if i < items.len() {
        assert(items.drop_last().take(i) =~= items.take(i));
        lemma_first_found(items.drop_last(), f, i);
    } else {
        assert(items.take(i) =~= items);
    }
}

/// Collecting succeeds exactly where the function succeeds on every item, with its results one
/// for one; else it gives the error of the first item on which it fails.
pub proof fn law_collecting_stops_at_the_first_error<T, U, E>(
    items: Seq<T>,
    f: spec_fn(T) -> Result<U, E>,
)
    ensures
        match collect(items, f) {
            Ok(results) => results.len() == items.len() && forall|i: int|
                0 <= i < items.len() ==> f(#[trigger] items[i]) == Ok::<U, E>(results[i]),
            Err(error) => exists|i: int|
                0 <= i < items.len() && f(#[trigger] items[i]) == Err::<U, E>(error) && forall|
                    j: int,
                |
                    0 <= j < i ==> f(#[trigger] items[j]) is Ok,
        },
    decreases items.len(),
{
    if items.len() > 0 {
        let before = items.drop_last();
        law_collecting_stops_at_the_first_error(before, f);
        match collect(before, f) {
            Err(error) => {
                let i = choose|i: int|
                    0 <= i < before.len() && f(#[trigger] before[i]) == Err::<U, E>(error)
                        && forall|j: int| 0 <= j < i ==> f(#[trigger] before[j]) is Ok;
                assert(f(items[i]) == Err::<U, E>(error));
                assert forall|j: int| 0 <= j < i implies f(#[trigger] items[j]) is Ok by {
                    assert(before[j] == items[j]);
                }
            },
            Ok(results) => {
                let last = items.len() - 1;
                assert forall|j: int| 0 <= j < last implies f(#[trigger] items[j]) == Ok::<U, E>(
                    results[j],
                ) by {
                    assert(before[j] == items[j]);
                }
                assert(items[last] == items.last());
            },
        }
    }
}

/// What is found first is found on some item, and on none in front of it; and nothing is found
/// exactly where nothing is found on any item.
pub proof fn law_first_found_is_first<T, E>(items: Seq<T>, f: spec_fn(int, T) -> Option<E>)
    ensures
        match first_found(items, f) {
            None => forall|i: int| 0 <= i < items.len() ==> f(i, #[trigger] items[i]) is None,
            Some(found) => exists|i: int|
                0 <= i < items.len() && f(i, #[trigger] items[i]) == Some(found) && forall|j: int|
                    0 <= j < i ==> f(j, #[trigger] items[j]) is None,
        },
    decreases items.len(),
{
    if items.len() > 0 {
        let before = items.drop_last();
        law_first_found_is_first(before, f);
        match first_found(before, f) {
            Some(found) => {
                let i = choose|i: int|
                    0 <= i < before.len() && f(i, #[trigger] before[i]) == Some(found) && forall|
                        j: int,
                    |
                        0 <= j < i ==> f(j, #[trigger] before[j]) is None;
                assert(f(i, items[i]) == Some(found));
                assert forall|j: int| 0 <= j < i implies f(j, #[trigger] items[j]) is None by {
                    assert(before[j] == items[j]);
                }
            },
            None => {
                let last = items.len() - 1;
                assert forall|j: int| 0 <= j < last implies f(j, #[trigger] items[j]) is None by {
                    assert(before[j] == items[j]);
                }
                assert(items[last] == items.last());
            },
        }
    }
}

} // verus!
