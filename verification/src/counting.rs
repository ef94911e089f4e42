//! Counting indices that satisfy a predicate, with the lemmas the collector's
//! bookkeeping proofs need: the live-object counter and the collection
//! threshold are defined by such counts.

use vstd::prelude::*;

verus! {

/// Number of indices `i` in `[0, n)` with `f(i)`.
pub open spec fn count_upto(f: spec_fn(int) -> bool, n: int) -> int
    decreases n,
{
    if n <= 0 {
        0
    } else {
        count_upto(f, n - 1) + if f(n - 1) {
            1int
        } else {
            0int
        }
    }
}

/// A count over `[0, n)` lies between `0` and `n`.
pub proof fn lemma_count_bounds(f: spec_fn(int) -> bool, n: int)
    requires
        n >= 0,
    ensures
        0 <= count_upto(f, n) <= n,
    decreases n,
{
    if n > 0 {
        lemma_count_bounds(f, n - 1);
    }
}

/// Predicates that agree on `[0, n)` have the same count.
pub proof fn lemma_count_agree(f: spec_fn(int) -> bool, g: spec_fn(int) -> bool, n: int)
    requires
        forall|i: int| 0 <= i < n ==> #[trigger] f(i) == #[trigger] g(i),
    ensures
        count_upto(f, n) == count_upto(g, n),
    decreases n,
{
    if n > 0 {
        lemma_count_agree(f, g, n - 1);
    }
}

/// Turning one index from satisfied to unsatisfied lowers the count by one.
pub proof fn lemma_count_drop_one(f: spec_fn(int) -> bool, g: spec_fn(int) -> bool, k: int, n: int)
    requires
        0 <= k < n,
        f(k),
        !g(k),
        forall|i: int| 0 <= i < n && i != k ==> #[trigger] f(i) == #[trigger] g(i),
    ensures
        count_upto(g, n) == count_upto(f, n) - 1,
    decreases n,
{
    if k == n - 1 {
        lemma_count_agree(f, g, n - 1);
    } else {
        lemma_count_drop_one(f, g, k, n - 1);
    }
}

/// If `f` implies `g` on `[0, n)`, the count of `f` is at most that of `g`.
pub proof fn lemma_count_subset(f: spec_fn(int) -> bool, g: spec_fn(int) -> bool, n: int)
    requires
        forall|i: int| 0 <= i < n && #[trigger] f(i) ==> #[trigger] g(i),
    ensures
        count_upto(f, n) <= count_upto(g, n),
    decreases n,
{
    if n > 0 {
        lemma_count_subset(f, g, n - 1);
    }
}

/// A satisfied index below `n` makes the count positive.
pub proof fn lemma_count_pos(f: spec_fn(int) -> bool, k: int, n: int)
    requires
        0 <= k < n,
        f(k),
    ensures
        count_upto(f, n) >= 1,
    decreases n,
{
    if k == n - 1 {
        lemma_count_bounds(f, n - 1);
    } else {
        lemma_count_pos(f, k, n - 1);
    }
}

} // verus!
