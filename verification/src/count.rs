//! Counting what has a property.

use vstd::prelude::*;

verus! {

/// The numbers below a bound that have a property.
pub open spec fn those(n: int, p: spec_fn(int) -> bool) -> Set<int> {
    Set::new(|i: int| 0 <= i < n && p(i))
}

/// One number more.
pub proof fn lemma_those(n: int, p: spec_fn(int) -> bool)
    requires
        n >= 0,
    ensures
        those(n, p).finite(),
        those(n, p).len() <= n,
        n > 0 ==> those(n, p).len() == those(n - 1, p).len() + (if p(n - 1) {
            1int
        } else {
            0int
        }),
    decreases n,
{
    if n <= 0 {
        assert(those(n, p) =~= Set::<int>::empty());
    } else {
        lemma_those(n - 1, p);
        if p(n - 1) {
            assert(those(n, p) =~= those(n - 1, p).insert(n - 1));
        } else {
            assert(those(n, p) =~= those(n - 1, p));
        }
    }
}

/// Properties that agree below a bound are counted the same.
pub proof fn lemma_those_agree(n: int, p: spec_fn(int) -> bool, q: spec_fn(int) -> bool)
    requires
        forall|i: int| 0 <= i < n ==> #[trigger] p(i) == q(i),
    ensures
        those(n, p) == those(n, q),
{
    assert(those(n, p) =~= those(n, q));
}

/// What has a property and what has it not make up all.
pub proof fn lemma_those_others(n: int, p: spec_fn(int) -> bool)
    requires
        n >= 0,
    ensures
        those(n, p).len() + those(n, |i: int| !p(i)).len() == n,
    decreases n,
{
    let q = |i: int| !p(i);
    lemma_those(n, p);
    lemma_those(n, q);
    if n > 0 {
        lemma_those_others(n - 1, p);
    }
}

/// A property that implies another one is not counted more often.
pub proof fn lemma_those_fewer(n: int, p: spec_fn(int) -> bool, q: spec_fn(int) -> bool)
    requires
        n >= 0,
        forall|i: int| 0 <= i < n && #[trigger] p(i) ==> q(i),
    ensures
        those(n, p).len() <= those(n, q).len(),
{
    lemma_those(n, p);
    lemma_those(n, q);
    vstd::set_lib::lemma_len_subset(those(n, p), those(n, q));
}

} // verus!
