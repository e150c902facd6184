//! The first index satisfying a predicate, as a spec function with its characterisation.

use vstd::prelude::*;

verus! {

/// The least `i < n` with `p(i)`, if there is one.
pub open spec fn first_index(n: nat, p: spec_fn(int) -> bool) -> Option<int>
    decreases n,
{
    if n == 0 {
        None
    } else {
        match first_index((n - 1) as nat, p) {
            Some(i) => Some(i),
            None => if p(n - 1) {
                Some(n - 1)
            } else {
                None
            },
        }
    }
}

/// `first_index` finds the least satisfying index, and finds none exactly when none satisfies.
pub proof fn lemma_first_index(n: nat, p: spec_fn(int) -> bool)
    ensures
        first_index(n, p) matches Some(i) ==> 0 <= i < n && p(i) && forall|k: int|
            0 <= k < i ==> !#[trigger] p(k),
        first_index(n, p) is None <==> forall|k: int| 0 <= k < n ==> !#[trigger] p(k),
    decreases n,
{
    if n > 0 {
        lemma_first_index((n - 1) as nat, p);
    }
}

/// Scanning past an index that does not satisfy `p` keeps `first_index` at `None`;
/// reaching one that does makes it that index.
pub proof fn lemma_first_index_step(n: nat, p: spec_fn(int) -> bool)
    requires
        first_index(n, p) is None,
    ensures
        p(n as int) ==> first_index(n + 1, p) == Some(n as int),
        !p(n as int) ==> first_index(n + 1, p) is None,
{
}

} // verus!
