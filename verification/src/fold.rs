//! What it means to run a caller's step over a sequence of items, first to
//! last.
//!
//! The library never adds or multiplies scalars itself. An evaluation hands
//! the caller's `step` the running value and the next item, and takes what
//! comes back as the new running value. `step` is an ordinary closure: to
//! the verifier it may return any value that its own postcondition allows.
//! So the result of a run is stated as a relation, [`folds_to`], and not as
//! a function of the items.
use vstd::prelude::*;

verus! {

/// `out` is a value that `step` can reach from `init` by taking the items of
/// `items` in order: there are running values, one after each item, each of
/// which `step` may return for the running value before it and that item.
pub open spec fn folds_to<A, X, F: Fn(A, X) -> A>(step: F, init: A, items: Seq<X>, out: A) -> bool
    decreases items.len(),
{
    if items.len() == 0 {
        out == init
    } else {
        exists|mid: A|
            folds_to(step, init, items.drop_last(), mid) && #[trigger] step.ensures(
                (mid, items.last()),
                out,
            )
    }
}

/// `step` accepts every call that a run over `items` from `init` makes:
/// each item together with any running value that the items before it can
/// lead to.
pub open spec fn fold_requires<A, X, F: Fn(A, X) -> A>(step: F, init: A, items: Seq<X>) -> bool {
    forall|i: int, acc: A|
        0 <= i < items.len() && #[trigger] folds_to(step, init, items.take(i), acc)
            ==> step.requires((acc, items[i]))
}

/// One more step extends a run by one item.
pub proof fn lemma_fold_step<A, X, F: Fn(A, X) -> A>(
    step: F,
    init: A,
    items: Seq<X>,
    mid: A,
    item: X,
    out: A,
)
    requires
        folds_to(step, init, items, mid),
        step.ensures((mid, item), out),
    ensures
        folds_to(step, init, items.push(item), out),
{
    let longer = items.push(item);
    assert(longer.drop_last() == items);
    assert(longer.last() == item);
    assert(longer.len() > 0);
    assert(folds_to(step, init, longer.drop_last(), mid) && step.ensures((mid, longer.last()), out));
    assert(exists|m: A| folds_to(step, init, longer.drop_last(), m) && step.ensures((m, longer.last()), out));
}

/// Where `step` computes a function, a run computes the left fold of that
/// function: if `f(acc, item)` is the only value that `step` returns for
/// `acc` and `item`, then the only value that a run over `items` reaches is
/// `items.fold_left(init, f)`.
pub proof fn lemma_fold_of_function<A, X, F: Fn(A, X) -> A>(
    step: F,
    f: spec_fn(A, X) -> A,
    init: A,
    items: Seq<X>,
    out: A,
)
    requires
        folds_to(step, init, items, out),
        forall|acc: A, i: int, next: A|
            0 <= i < items.len() && #[trigger] step.ensures((acc, items[i]), next) ==> next == f(
                acc,
                items[i],
            ),
    ensures
        out == items.fold_left(init, f),
    decreases items.len(),
{
    if items.len() > 0 {
        let shorter: Seq<X> = items.drop_last();
        let mid: A = choose|mid: A|
            folds_to(step, init, shorter, mid) && #[trigger] step.ensures(
                (mid, items.last()),
                out,
            );
        assert(items.last() == items[items.len() - 1]);
        assert forall|acc: A, i: int, next: A|
            0 <= i < shorter.len() && #[trigger] step.ensures(
                (acc, shorter[i]),
                next,
            ) implies next == f(acc, shorter[i]) by {
            assert(shorter[i] == items[i]);
        }
        lemma_fold_of_function(step, f, init, shorter, mid);
    }
}

/// A run over items that `step` passes by ends where it began: if `step`
/// hands back the running value unchanged for every item of `items`, the
/// only value it can reach is `init`.
pub proof fn lemma_fold_unchanged<A, X, F: Fn(A, X) -> A>(step: F, init: A, items: Seq<X>, out: A)
    requires
        folds_to(step, init, items, out),
        forall|acc: A, i: int, next: A|
            0 <= i < items.len() && #[trigger] step.ensures((acc, items[i]), next) ==> next == acc,
    ensures
        out == init,
    decreases items.len(),
{
    if items.len() > 0 {
        let mid: A = choose|mid: A|
            folds_to(step, init, items.drop_last(), mid) && #[trigger] step.ensures(
                (mid, items.last()),
                out,
            );
        assert(items.last() == items[items.len() - 1]);
        assert forall|acc: A, i: int, next: A|
            0 <= i < items.drop_last().len() && #[trigger] step.ensures(
                (acc, items.drop_last()[i]),
                next,
            ) implies next == acc by {
            assert(items.drop_last()[i] == items[i]);
        }
        lemma_fold_unchanged(step, init, items.drop_last(), mid);
    }
}

} // verus!
