//! Sorting identifiers by a key.

use vstd::prelude::*;

verus! {

/// A number to sort by.
pub trait Key: Copy {
    /// The number.
    spec fn value(&self) -> int;

    /// Tells whether the number is smaller than another one.
    fn is_below(&self, other: &Self) -> (r: bool)
        ensures
            r == (self.value() < other.value()),
    ;

    /// Keys of the same number are the same.
    proof fn lemma_unique(a: Self, b: Self)
        requires
            a.value() == b.value(),
        ensures
            a == b,
    ;
}

impl Key for i128 {
    open spec fn value(&self) -> int {
        *self as int
    }

    fn is_below(&self, other: &Self) -> (r: bool) {
        *self < *other
    }

    proof fn lemma_unique(a: Self, b: Self) {
    }
}

/// A key and the identifier that it belongs to.
pub type Keyed = (i128, u64);

/// Whether an entry may stand before another: by key, and by identifier where the keys
/// are equal.
pub open spec fn ordered<K: Key>(a: (K, u64), b: (K, u64)) -> bool {
    a.0.value() < b.0.value() || (a.0.value() == b.0.value() && a.1 <= b.1)
}

/// Whether a list is in order.
pub open spec fn sorted<K: Key>(list: Seq<(K, u64)>) -> bool {
    forall|i: int, j: int| 0 <= i <= j < list.len() ==> ordered(#[trigger] list[i], #[trigger] list[j])
}

/// Puts two sorted lists together.
fn merge<K: Key>(a: &Vec<(K, u64)>, b: &Vec<(K, u64)>) -> (r: Vec<(K, u64)>)
    requires
        sorted(a@),
        sorted(b@),
    ensures
        sorted(r@),
        r@.to_multiset() == a@.to_multiset().add(b@.to_multiset()),
{
    broadcast use vstd::seq_lib::group_to_multiset_ensures;

    let mut list: Vec<(K, u64)> = Vec::new();
    let mut i: usize = 0;
    let mut j: usize = 0;
    assert(list@.to_multiset() =~= a@.take(0).to_multiset().add(b@.take(0).to_multiset()));
    while i < a.len() || j < b.len()
        invariant
            i <= a@.len(),
            j <= b@.len(),
            sorted(a@),
            sorted(b@),
            sorted(list@),
            forall|x: int, y: int|
                0 <= x < list@.len() && i <= y < a@.len() ==> ordered(
                    #[trigger] list@[x],
                    #[trigger] a@[y],
                ),
            forall|x: int, y: int|
                0 <= x < list@.len() && j <= y < b@.len() ==> ordered(
                    #[trigger] list@[x],
                    #[trigger] b@[y],
                ),
            list@.to_multiset() == a@.take(i as int).to_multiset().add(
                b@.take(j as int).to_multiset(),
            ),
        decreases a@.len() - i + b@.len() - j,
    {
        let from_a = if i >= a.len() {
            false
        } else if j >= b.len() {
            true
        } else {
            a[i].0.is_below(&b[j].0) || (!b[j].0.is_below(&a[i].0) && a[i].1 <= b[j].1)
        };
        let ghost before = list@;
        let ghost m = a@.take(i as int).to_multiset();
        let ghost n = b@.take(j as int).to_multiset();
        if from_a {
            assert(a@.take(i as int + 1) =~= a@.take(i as int).push(a@[i as int]));
            list.push(a[i]);
            proof {
                vstd::seq_lib::to_multiset_build(before, a@[i as int]);
                vstd::seq_lib::to_multiset_build(a@.take(i as int), a@[i as int]);
            }
            assert(list@.to_multiset() =~= before.to_multiset().insert(a@[i as int]));
            assert(m.insert(a@[i as int]).add(n) =~= m.add(n).insert(a@[i as int]));
            i = i + 1;
        } else {
            assert(b@.take(j as int + 1) =~= b@.take(j as int).push(b@[j as int]));
            list.push(b[j]);
            proof {
                vstd::seq_lib::to_multiset_build(before, b@[j as int]);
                vstd::seq_lib::to_multiset_build(b@.take(j as int), b@[j as int]);
            }
            assert(list@.to_multiset() =~= before.to_multiset().insert(b@[j as int]));
            assert(m.add(n.insert(b@[j as int])) =~= m.add(n).insert(b@[j as int]));
            j = j + 1;
        }
    }
    assert(a@.take(i as int) =~= a@);
    assert(b@.take(j as int) =~= b@);
    list
}

/// Sorts a list.
pub fn sort_keyed<K: Key>(list: Vec<(K, u64)>) -> (r: Vec<(K, u64)>)
    ensures
        sorted(r@),
        r@.to_multiset() == list@.to_multiset(),
        r@.len() == list@.len(),
    decreases list@.len(),
{
    broadcast use vstd::seq_lib::group_to_multiset_ensures;

    if list.len() < 2 {
        return list;
    }
    let half: usize = list.len() / 2;
    let mut front: Vec<(K, u64)> = Vec::new();
    let mut back: Vec<(K, u64)> = Vec::new();
    let mut i: usize = 0;
    while i < list.len()
        invariant
            i <= list@.len(),
            half <= list@.len(),
            front@ == list@.take(if i <= half {
                i as int
            } else {
                half as int
            }),
            back@ == list@.subrange(half as int, if i <= half {
                half as int
            } else {
                i as int
            }),
        decreases list@.len() - i,
    {
        if i < half {
            front.push(list[i]);
        } else {
            back.push(list[i]);
        }
        i = i + 1;
        assert(front@ =~= list@.take(if i <= half {
            i as int
        } else {
            half as int
        }));
        assert(back@ =~= list@.subrange(half as int, if i <= half {
            half as int
        } else {
            i as int
        }));
    }
    proof {
        assert(front@ + back@ =~= list@);
        vstd::seq_lib::lemma_multiset_commutative(front@, back@);
    }
    let front = sort_keyed(front);
    let back = sort_keyed(back);
    let r = merge(&front, &back);
    assert(r@.len() == r@.to_multiset().len());
    assert(list@.len() == list@.to_multiset().len());
    r
}

/// A list that has been reordered has the same entries, and none twice if there was none.
pub proof fn lemma_reordered<K: Key>(a: Seq<(K, u64)>, b: Seq<(K, u64)>)
    requires
        a.to_multiset() == b.to_multiset(),
    ensures
        forall|x: (K, u64)| #[trigger] a.contains(x) == b.contains(x),
        a.no_duplicates() ==> b.no_duplicates(),
        a.len() == b.len(),
{
    broadcast use vstd::seq_lib::group_to_multiset_ensures;

    assert(a.len() == a.to_multiset().len());
    assert(b.len() == b.to_multiset().len());
    assert forall|x: (K, u64)| #[trigger] a.contains(x) == b.contains(x) by {
        assert(a.contains(x) <==> a.to_multiset().count(x) > 0);
        assert(b.contains(x) <==> b.to_multiset().count(x) > 0);
    }
    if a.no_duplicates() {
        a.lemma_multiset_has_no_duplicates();
        b.lemma_multiset_has_no_duplicates_conv();
    }
}

/// There is only one way to sort a list.
pub proof fn law_sorting_is_determined<K: Key>(a: Seq<(K, u64)>, b: Seq<(K, u64)>)
    requires
        sorted(a),
        sorted(b),
        a.to_multiset() == b.to_multiset(),
    ensures
        a == b,
    decreases a.len(),
{
    broadcast use vstd::seq_lib::group_to_multiset_ensures;

    assert(a.len() == a.to_multiset().len());
    assert(b.len() == b.to_multiset().len());
    if a.len() == 0 {
        assert(a =~= b);
    } else {
        let n = a.len() as int;
        let x = a.last();
        let y = b.last();
        assert(a.contains(x));
        assert(a.to_multiset().count(x) > 0);
        assert(b.contains(x));
        let i = choose|i: int| 0 <= i < b.len() && b[i] == x;
        assert(ordered(b[i], b[n - 1]));
        assert(b.contains(y));
        assert(b.to_multiset().count(y) > 0);
        assert(a.contains(y));
        let j = choose|j: int| 0 <= j < a.len() && a[j] == y;
        assert(ordered(a[j], a[n - 1]));
        K::lemma_unique(x.0, y.0);
        assert(x == y);
        assert(a.drop_last() =~= a.remove(n - 1));
        assert(b.drop_last() =~= b.remove(n - 1));
        assert(a.drop_last().to_multiset() =~= b.drop_last().to_multiset());
        law_sorting_is_determined(a.drop_last(), b.drop_last());
        assert(a =~= a.drop_last().push(x));
        assert(b =~= b.drop_last().push(y));
    }
}

} // verus!
