//! Iterating a step from a start until nothing changes.

use vstd::prelude::*;

verus! {

/// `x` after `k` steps of `f`.
pub open spec fn iterate<T>(f: spec_fn(T) -> T, x: T, k: nat) -> T
    decreases k,
{
    if k == 0 {
        x
    } else {
        f(iterate(f, x, (k - 1) as nat))
    }
}

/// Whether one more step changes nothing after `k` steps of `f` from `x`.
pub open spec fn settles<T>(f: spec_fn(T) -> T, x: T, k: nat) -> bool {
    f(iterate(f, x, k)) == iterate(f, x, k)
}

/// Where the steps of `f` from `x` come to rest, if they do.
pub open spec fn limit<T>(f: spec_fn(T) -> T, x: T) -> T {
    iterate(f, x, choose|k: nat| settles(f, x, k))
}

/// Once the steps have come to rest they stay where they are.
pub proof fn lemma_settled_stays<T>(f: spec_fn(T) -> T, x: T, k: nat, j: nat)
    requires
        settles(f, x, k),
        k <= j,
    ensures
        iterate(f, x, j) == iterate(f, x, k),
        settles(f, x, j),
    decreases j,
{
    if j > k {
        lemma_settled_stays(f, x, k, (j - 1) as nat);
    }
}

/// The steps come to rest at one place only, whenever it is reached.
pub proof fn lemma_limit<T>(f: spec_fn(T) -> T, x: T, k: nat)
    requires
        settles(f, x, k),
    ensures
        limit(f, x) == iterate(f, x, k),
        f(limit(f, x)) == limit(f, x),
{
    let c = choose|c: nat| settles(f, x, c);
    if c <= k {
        lemma_settled_stays(f, x, c, k);
    } else {
        lemma_settled_stays(f, x, k, c);
    }
}

} // verus!
