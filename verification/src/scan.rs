//! Counting and dividing samples by a split.

use crate::sample::{
    lemma_insert_parts, lemma_rows, lemma_rows_empty, lemma_rows_exchange, lemma_rows_push, plus,
    rows, side, splittable, Rows, Sample, SampleData,
};
use crate::split::Split;
use crate::split_stats::{gini, SplitStats};
use vstd::multiset::Multiset;
use vstd::prelude::*;

verus! {

/// Whether statistics hold the class counts on both sides of a split.
pub open spec fn tallies(stats: SplitStats, m: Rows, split: Split) -> bool {
    &&& stats.num_plus_left == plus(side(m, split, true)).len()
    &&& stats.num_plus_right == plus(side(m, split, false)).len()
    &&& stats.num_plus_left + stats.num_minus_left == side(m, split, true).len()
    &&& stats.num_plus_right + stats.num_minus_right == side(m, split, false).len()
}

/// Whether statistics carry no score yet.
pub open spec fn unscored(stats: SplitStats) -> bool {
    stats.score is None && stats.impurity_left == gini(0, 0) && stats.impurity_right == gini(0, 0)
}

/// What one sample more does to the class counts of a split.
proof fn lemma_tally_step(m: Rows, d: SampleData, split: Split)
    ensures
        ({
            let left = split.routes_left(d.values);
            let l: int = if left { 1 } else { 0 };
            let p: int = if d.label { 1 } else { 0 };
            &&& side(m.insert(d), split, true).len() == side(m, split, true).len() + l
            &&& side(m.insert(d), split, false).len() == side(m, split, false).len() + 1 - l
            &&& plus(side(m.insert(d), split, true)).len() == plus(side(m, split, true)).len() + l
                * p
            &&& plus(side(m.insert(d), split, false)).len() == plus(side(m, split, false)).len()
                + (1 - l) * p
        }),
{
    lemma_insert_parts(m, d, split);
    lemma_insert_parts(side(m, split, true), d, split);
    lemma_insert_parts(side(m, split, false), d, split);
}

/// Nothing is counted among no samples.
proof fn lemma_tally_empty(split: Split)
    ensures
        ({
            let none = Multiset::<SampleData>::empty();
            &&& side(none, split, true).len() == 0
            &&& side(none, split, false).len() == 0
            &&& plus(side(none, split, true)).len() == 0
            &&& plus(side(none, split, false)).len() == 0
        }),
{
    let none = Multiset::<SampleData>::empty();
    assert(side(none, split, true) =~= none);
    assert(side(none, split, false) =~= none);
    assert(plus(none) =~= none);
}

/// Counts the classes on both sides of a split.
pub fn scan<S: Sample>(samples: &[S], split: &Split) -> (r: SplitStats)
    requires
        samples@.len() <= u32::MAX,
        splittable(rows(samples@), *split),
    ensures
        tallies(r, rows(samples@), *split),
        unscored(r),
        r.total() == samples@.len(),
{
    let mut num_plus_left: u32 = 0;
    let mut num_minus_left: u32 = 0;
    let mut num_plus_right: u32 = 0;
    let mut num_minus_right: u32 = 0;
    let mut i: usize = 0;
    proof {
        lemma_rows(samples@);
        lemma_rows_empty(samples@.take(0));
        lemma_tally_empty(*split);
    }
    while i < samples.len()
        invariant
            i <= samples@.len() <= u32::MAX,
            forall|j: int|
                0 <= j < samples@.len() ==> split.applies((#[trigger] samples@[j].data()).values),
            num_plus_left + num_minus_left + num_plus_right + num_minus_right == i,
            num_plus_left == plus(side(rows(samples@.take(i as int)), *split, true)).len(),
            num_plus_right == plus(side(rows(samples@.take(i as int)), *split, false)).len(),
            num_plus_left + num_minus_left == side(
                rows(samples@.take(i as int)),
                *split,
                true,
            ).len(),
            num_plus_right + num_minus_right == side(
                rows(samples@.take(i as int)),
                *split,
                false,
            ).len(),
        decreases samples@.len() - i,
    {
        proof {
            lemma_rows_push(samples@, i as int);
            lemma_tally_step(rows(samples@.take(i as int)), samples@[i as int].data(), *split);
        }
        let is_left = samples[i].is_left_of(split);
        let is_plus = samples[i].label();
        if is_left {
            if is_plus {
                num_plus_left = num_plus_left + 1;
            } else {
                num_minus_left = num_minus_left + 1;
            }
        } else if is_plus {
            num_plus_right = num_plus_right + 1;
        } else {
            num_minus_right = num_minus_right + 1;
        }
        i = i + 1;
    }
    assert(samples@.take(i as int) =~= samples@);
    SplitStats::new(num_plus_left, num_minus_left, num_plus_right, num_minus_right)
}

/// Counts the classes on both sides of a split without branching on each sample.
pub fn scan_branchless<S: Sample>(samples: &[S], split: &Split) -> (r: SplitStats)
    requires
        samples@.len() <= u32::MAX,
        splittable(rows(samples@), *split),
    ensures
        tallies(r, rows(samples@), *split),
        unscored(r),
        r.total() == samples@.len(),
{
    let mut num_left: u32 = 0;
    let mut num_plus_left: u32 = 0;
    let mut num_plus_right: u32 = 0;
    let mut i: usize = 0;
    proof {
        lemma_rows(samples@);
        lemma_rows_empty(samples@.take(0));
        lemma_tally_empty(*split);
    }
    while i < samples.len()
        invariant
            i <= samples@.len() <= u32::MAX,
            forall|j: int|
                0 <= j < samples@.len() ==> split.applies((#[trigger] samples@[j].data()).values),
            num_plus_left <= num_left,
            num_left + num_plus_right <= i,
            num_plus_left == plus(side(rows(samples@.take(i as int)), *split, true)).len(),
            num_plus_right == plus(side(rows(samples@.take(i as int)), *split, false)).len(),
            num_left == side(rows(samples@.take(i as int)), *split, true).len(),
            i - num_left == side(rows(samples@.take(i as int)), *split, false).len(),
        decreases samples@.len() - i,
    {
        proof {
            lemma_rows_push(samples@, i as int);
            lemma_tally_step(rows(samples@.take(i as int)), samples@[i as int].data(), *split);
        }
        let is_left = samples[i].is_left_of(split);
        let is_plus = samples[i].label();
        num_left = num_left + is_left as u32;
        num_plus_left = num_plus_left + (is_left && is_plus) as u32;
        num_plus_right = num_plus_right + (!is_left && is_plus) as u32;
        i = i + 1;
    }
    assert(samples@.take(i as int) =~= samples@);
    let num_minus_left: u32 = num_left - num_plus_left;
    let num_right: u32 = samples.len() as u32 - num_left;
    let num_minus_right: u32 = num_right - num_plus_right;
    SplitStats::new(num_plus_left, num_minus_left, num_plus_right, num_minus_right)
}

/// Counts the classes on both sides of a split, in the way that suits the number of
/// samples.
pub fn scan_auto<S: Sample>(samples: &[S], split: &Split) -> (r: SplitStats)
    requires
        samples@.len() <= u32::MAX,
        splittable(rows(samples@), *split),
    ensures
        tallies(r, rows(samples@), *split),
        unscored(r),
        r.total() == samples@.len(),
{
    if samples.len() < 32 {
        scan(samples, split)
    } else {
        scan_branchless(samples, split)
    }
}

/// Counts the classes of borrowed samples on both sides of a split.
pub fn scan_refs<S: Sample>(samples: &[&S], split: &Split) -> (r: SplitStats)
    requires
        samples@.len() <= u32::MAX,
        splittable(rows(samples@), *split),
    ensures
        tallies(r, rows(samples@), *split),
        unscored(r),
        r.total() == samples@.len(),
{
    scan(samples, split)
}

/// The class counts of a split are determined: whichever way of counting is used, the
/// same samples give the same counts.
pub proof fn law_counting_agrees(a: SplitStats, b: SplitStats, m: Rows, split: Split)
    requires
        tallies(a, m, split),
        tallies(b, m, split),
    ensures
        a.same_counts(&b),
{
}

/// Exchanges two elements.
fn exchange<T>(items: &mut [T], i: usize, j: usize)
    requires
        i <= j < old(items)@.len(),
    ensures
        final(items)@ == old(items)@.update(i as int, old(items)@[j as int]).update(
            j as int,
            old(items)@[i as int],
        ),
{
    if i < j {
        let ghost before = items@;
        let (a, b) = items.split_at_mut(j);
        core::mem::swap(&mut a[i], &mut b[0]);
        assert(a@ + b@ =~= before.update(i as int, before[j as int]).update(
            j as int,
            before[i as int],
        ));
    } else {
        assert(items@.update(i as int, items@[j as int]).update(j as int, items@[i as int])
            =~= items@);
    }
}

/// The samples that go left, in order.
pub open spec fn lefts<S: Sample>(samples: Seq<S>, split: Split) -> Seq<S> {
    samples.filter(|s: S| split.routes_left(s.data().values))
}

/// Moves the samples that go left in front of those that go right, and says how many
/// go left. Those that go left keep their order.
pub fn partition_in_place<S: Sample>(samples: &mut [S], split: &Split) -> (r: usize)
    requires
        splittable(rows(old(samples)@), *split),
    ensures
        r <= final(samples)@.len(),
        final(samples)@.len() == old(samples)@.len(),
        final(samples)@.take(r as int) == lefts(old(samples)@, *split),
        rows(final(samples)@) == rows(old(samples)@),
        rows(final(samples)@.take(r as int)) == side(rows(old(samples)@), *split, true),
        rows(final(samples)@.skip(r as int)) == side(rows(old(samples)@), *split, false),
{
    let mut write_idx: usize = 0;
    let mut read_idx: usize = 0;
    let n: usize = samples.len();
    let ghost all = rows(samples@);
    let ghost start = samples@;
    let ghost goes_left = |s: S| split.routes_left(s.data().values);
    proof {
        assert(start.take(0) =~= Seq::<S>::empty());
        assert(start.take(0).filter(goes_left) =~= Seq::<S>::empty());
        assert(samples@.take(0) =~= Seq::<S>::empty());
    }
    while read_idx < n
        invariant
            write_idx <= read_idx <= n,
            samples@.len() == n == start.len(),
            goes_left == (|s: S| split.routes_left(s.data().values)),
            samples@.take(write_idx as int) == start.take(read_idx as int).filter(goes_left),
            forall|j: int| read_idx <= j < n ==> #[trigger] samples@[j] == start[j],
            rows(samples@) == all,
            splittable(all, *split),
            forall|j: int|
                0 <= j < write_idx ==> split.routes_left((#[trigger] samples@[j].data()).values),
            forall|j: int|
                write_idx <= j < read_idx ==> !split.routes_left(
                    (#[trigger] samples@[j].data()).values,
                ),
        decreases n - read_idx,
    {
        proof {
            lemma_rows(samples@);
        }
        let ghost before = samples@;
        if samples[read_idx].is_left_of(split) {
            proof {
                lemma_rows_exchange(before, write_idx as int, read_idx as int);
            }
            exchange(samples, write_idx, read_idx);
            assert forall|j: int| 0 <= j < write_idx + 1 implies split.routes_left(
                (#[trigger] samples@[j].data()).values,
            ) by {
                assert(j < write_idx ==> samples@[j] == before[j]);
                assert(j == write_idx ==> samples@[j] == before[read_idx as int]);
            }
            assert forall|j: int| write_idx + 1 <= j < read_idx + 1 implies !split.routes_left(
                (#[trigger] samples@[j].data()).values,
            ) by {
                assert(j < read_idx ==> samples@[j] == before[j]);
                assert(j == read_idx ==> samples@[j] == before[write_idx as int]);
                assert(!split.routes_left(before[if j == read_idx {
                    write_idx as int
                } else {
                    j
                }].data().values));
            }
            assert(samples@.take(write_idx as int + 1) =~= before.take(write_idx as int).push(
                before[read_idx as int],
            ));
            write_idx = write_idx + 1;
        }
        proof {
            let longer = start.take(read_idx as int + 1);
            assert(longer.drop_last() =~= start.take(read_idx as int));
            assert(longer.last() == before[read_idx as int]);
            reveal(Seq::filter);
        }
        read_idx = read_idx + 1;
    }
    proof {
        assert(start.take(n as int) =~= start);
        let l = samples@.take(write_idx as int);
        let r = samples@.skip(write_idx as int);
        assert(l + r =~= samples@);
        crate::sample::lemma_rows_concat(l, r);
        lemma_rows(l);
        lemma_rows(r);
        assert forall|d: SampleData| rows(l).count(d) > 0 implies split.routes_left(d.values) by {
            let i = choose|i: int| 0 <= i < l.len() && #[trigger] l[i].data() == d;
            assert(l[i] == samples@[i]);
        }
        assert forall|d: SampleData| rows(r).count(d) > 0 implies !split.routes_left(
            d.values,
        ) by {
            let i = choose|i: int| 0 <= i < r.len() && #[trigger] r[i].data() == d;
            assert(r[i] == samples@[i + write_idx]);
        }
        assert(rows(l) =~= side(all, *split, true));
        assert(rows(r) =~= side(all, *split, false));
    }
    write_idx
}

/// The samples at chosen places.
pub open spec fn picked<S: Sample>(samples: Seq<S>, places: Seq<usize>) -> Seq<S> {
    Seq::new(places.len(), |i: int| samples[places[i] as int])
}

/// Whether places are in order and are exactly those whose sample goes to a side.
pub open spec fn is_side<S: Sample>(
    samples: Seq<S>,
    upto: int,
    split: Split,
    left: bool,
    places: Seq<usize>,
) -> bool {
    &&& forall|i: int, j: int| 0 <= i < j < places.len() ==> places[i] < places[j]
    &&& forall|i: int|
        0 <= i < places.len() ==> #[trigger] places[i] < upto && split.routes_left(
            samples[places[i] as int].data().values,
        ) == left
    &&& forall|k: usize|
        k < upto && split.routes_left((#[trigger] samples[k as int].data()).values) == left
            ==> places.contains(k)
}

/// Finds the places of the samples that go left and of those that go right, each list
/// in order.
fn places_by_side<S: Sample>(samples: &[S], split: &Split) -> (r: (Vec<usize>, Vec<usize>))
    requires
        splittable(rows(samples@), *split),
    ensures
        is_side(samples@, samples@.len() as int, *split, true, r.0@),
        is_side(samples@, samples@.len() as int, *split, false, r.1@),
        rows(picked(samples@, r.0@)) == side(rows(samples@), *split, true),
        rows(picked(samples@, r.1@)) == side(rows(samples@), *split, false),
{
    let mut left: Vec<usize> = Vec::new();
    let mut right: Vec<usize> = Vec::new();
    let mut i: usize = 0;
    proof {
        lemma_rows(samples@);
        lemma_rows_empty(samples@.take(0));
        lemma_rows_empty(picked(samples@, left@));
        assert(side(rows(samples@.take(0)), *split, true) =~= rows(samples@.take(0)));
        assert(side(rows(samples@.take(0)), *split, false) =~= rows(samples@.take(0)));
    }
    while i < samples.len()
        invariant
            i <= samples@.len(),
            forall|j: int|
                0 <= j < samples@.len() ==> split.applies((#[trigger] samples@[j].data()).values),
            is_side(samples@, i as int, *split, true, left@),
            is_side(samples@, i as int, *split, false, right@),
            rows(picked(samples@, left@)) == side(rows(samples@.take(i as int)), *split, true),
            rows(picked(samples@, right@)) == side(rows(samples@.take(i as int)), *split, false),
        decreases samples@.len() - i,
    {
        proof {
            lemma_rows_push(samples@, i as int);
            lemma_insert_parts(
                rows(samples@.take(i as int)),
                samples@[i as int].data(),
                *split,
            );
        }
        let ghost l = left@;
        let ghost r = right@;
        if samples[i].is_left_of(split) {
            left.push(i);
            proof {
                let p = picked(samples@, left@);
                lemma_rows_push(p, l.len() as int);
                assert(p.take(l.len() as int) =~= picked(samples@, l));
                assert(p.take(l.len() as int + 1) =~= p);
                assert forall|k: usize| k < i + 1 && split.routes_left(
                    (#[trigger] samples@[k as int].data()).values,
                ) == true implies left@.contains(k) by {
                    if k < i {
                        assert(l.contains(k));
                        let x = l.index_of(k);
                        assert(left@[x] == k);
                    } else {
                        assert(left@[l.len() as int] == k);
                    }
                }
            }
        } else {
            right.push(i);
            proof {
                let p = picked(samples@, right@);
                lemma_rows_push(p, r.len() as int);
                assert(p.take(r.len() as int) =~= picked(samples@, r));
                assert(p.take(r.len() as int + 1) =~= p);
                assert forall|k: usize| k < i + 1 && split.routes_left(
                    (#[trigger] samples@[k as int].data()).values,
                ) == false implies right@.contains(k) by {
                    if k < i {
                        assert(r.contains(k));
                        let x = r.index_of(k);
                        assert(right@[x] == k);
                    } else {
                        assert(right@[r.len() as int] == k);
                    }
                }
            }
        }
        i = i + 1;
    }
    assert(samples@.take(i as int) =~= samples@);
    (left, right)
}

/// Finds the places of the borrowed samples that go left and of those that go right, each list
/// in order.
pub fn partition_indices<S: Sample>(samples: &[&S], split: &Split) -> (r: (Vec<usize>, Vec<usize>))
    requires
        splittable(rows(samples@), *split),
    ensures
        is_side(samples@, samples@.len() as int, *split, true, r.0@),
        is_side(samples@, samples@.len() as int, *split, false, r.1@),
        rows(picked(samples@, r.0@)) == side(rows(samples@), *split, true),
        rows(picked(samples@, r.1@)) == side(rows(samples@), *split, false),
{
    places_by_side(samples, split)
}

} // verus!
