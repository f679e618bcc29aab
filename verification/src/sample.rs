//! Training samples.

use crate::split::Split;
use vstd::multiset::Multiset;
use vstd::prelude::*;

verus! {

/// What a sample is: its identifier, its attribute values and its class.
pub struct SampleData {
    pub id: u64,
    pub values: Seq<i64>,
    pub label: bool,
}

/// A training sample.
pub trait Sample: Clone + Sized {
    /// What the sample is.
    spec fn data(&self) -> SampleData;

    /// The identifier of the sample.
    fn id(&self) -> (r: u64)
        ensures
            r == self.data().id,
    ;

    /// The value of an attribute.
    fn attribute_value(&self, index: u8) -> (r: i64)
        requires
            index < self.data().values.len(),
        ensures
            r == self.data().values[index as int],
    ;

    /// The class of the sample.
    fn label(&self) -> (r: bool)
        ensures
            r == self.data().label,
    ;

    /// Tells whether the sample goes left at a split.
    fn is_left_of(&self, split: &Split) -> (r: bool)
        requires
            split.applies(self.data().values),
        ensures
            r == split.routes_left(self.data().values),
    {
        let value: i64 = self.attribute_value(split.attribute_index());
        split.goes_left(value)
    }
}

/// A sample with a fixed number of attributes.
#[derive(Clone, Debug)]
pub struct ArraySample<const N: usize> {
    pub id: u64,
    pub values: [i64; N],
    pub label: bool,
}

impl<const N: usize> ArraySample<N> {
    /// Makes a sample.
    pub fn new(id: u64, values: [i64; N], label: bool) -> (r: Self)
        ensures
            r.data() == (SampleData { id, values: values@, label }),
    {
        ArraySample { id, values, label }
    }
}

impl<const N: usize> Sample for ArraySample<N> {
    open spec fn data(&self) -> SampleData {
        SampleData { id: self.id, values: self.values@, label: self.label }
    }

    fn id(&self) -> (r: u64) {
        self.id
    }

    fn attribute_value(&self, index: u8) -> (r: i64) {
        self.values[index as usize]
    }

    fn label(&self) -> (r: bool) {
        self.label
    }
}

/// A sample with any number of attributes.
#[derive(Clone, Debug)]
pub struct VecSample {
    pub id: u64,
    pub values: Vec<i64>,
    pub label: bool,
}

impl VecSample {
    /// Makes a sample.
    pub fn new(id: u64, values: Vec<i64>, label: bool) -> (r: Self)
        ensures
            r.data() == (SampleData { id, values: values@, label }),
    {
        VecSample { id, values, label }
    }
}

impl Sample for VecSample {
    open spec fn data(&self) -> SampleData {
        SampleData { id: self.id, values: self.values@, label: self.label }
    }

    fn id(&self) -> (r: u64) {
        self.id
    }

    fn attribute_value(&self, index: u8) -> (r: i64) {
        self.values[index as usize]
    }

    fn label(&self) -> (r: bool) {
        self.label
    }
}

/// A sample whose values are kept elsewhere.
#[derive(Clone, Debug)]
pub struct RefSample<'a> {
    pub id: u64,
    pub values: &'a [i64],
    pub label: bool,
}

impl<'a> RefSample<'a> {
    /// Makes a sample.
    pub fn new(id: u64, values: &'a [i64], label: bool) -> (r: Self)
        ensures
            r.data() == (SampleData { id, values: values@, label }),
    {
        RefSample { id, values, label }
    }
}

impl<'a> Sample for RefSample<'a> {
    open spec fn data(&self) -> SampleData {
        SampleData { id: self.id, values: self.values@, label: self.label }
    }

    fn id(&self) -> (r: u64) {
        self.id
    }

    fn attribute_value(&self, index: u8) -> (r: i64) {
        self.values[index as usize]
    }

    fn label(&self) -> (r: bool) {
        self.label
    }
}

/// A sample that is borrowed is a sample.
impl<'a, S: Sample> Sample for &'a S {
    open spec fn data(&self) -> SampleData {
        (**self).data()
    }

    fn id(&self) -> (r: u64) {
        (**self).id()
    }

    fn attribute_value(&self, index: u8) -> (r: i64) {
        (**self).attribute_value(index)
    }

    fn label(&self) -> (r: bool) {
        (**self).label()
    }
}

/// A collection of samples, each as often as it occurs.
pub type Rows = Multiset<SampleData>;

/// The samples of a sequence, in order.
pub open spec fn listed<S: Sample>(samples: Seq<S>) -> Seq<SampleData> {
    Seq::new(samples.len(), |i: int| samples[i].data())
}

/// The samples of a sequence, in any order.
pub open spec fn rows<S: Sample>(samples: Seq<S>) -> Rows {
    listed(samples).to_multiset()
}

/// The positive samples.
pub open spec fn plus(m: Rows) -> Rows {
    m.filter(|d: SampleData| d.label)
}

/// The samples on one side of a split.
pub open spec fn side(m: Rows, split: Split, left: bool) -> Rows {
    m.filter(|d: SampleData| split.routes_left(d.values) == left)
}

/// The identifiers of the samples.
pub open spec fn ids(m: Rows) -> Set<u64> {
    Set::new(|id: u64| exists|d: SampleData| m.count(d) > 0 && #[trigger] d.id == id)
}

/// Whether a split can decide about every sample.
pub open spec fn splittable(m: Rows, split: Split) -> bool {
    forall|d: SampleData| #[trigger] m.count(d) > 0 ==> split.applies(d.values)
}

/// Listing one more sample adds it.
pub proof fn lemma_rows_push<S: Sample>(samples: Seq<S>, i: int)
    requires
        0 <= i < samples.len(),
    ensures
        rows(samples.take(i + 1)) == rows(samples.take(i)).insert(samples[i].data()),
{
    broadcast use vstd::seq_lib::group_to_multiset_ensures;

    assert(listed(samples.take(i + 1)) =~= listed(samples.take(i)).push(samples[i].data()));
}

/// A sequence without samples has none.
pub proof fn lemma_rows_empty<S: Sample>(samples: Seq<S>)
    requires
        samples.len() == 0,
    ensures
        rows(samples) == Multiset::<SampleData>::empty(),
{
    broadcast use vstd::seq_lib::group_to_multiset_ensures;

    assert(listed(samples).to_multiset().len() == 0);
    assert(rows(samples) =~= Multiset::<SampleData>::empty());
}

/// A sequence has as many rows as samples, and each sample is a row.
pub proof fn lemma_rows<S: Sample>(samples: Seq<S>)
    ensures
        rows(samples).len() == samples.len(),
        forall|i: int|
            0 <= i < samples.len() ==> rows(samples).count(#[trigger] samples[i].data()) > 0,
        forall|d: SampleData| #[trigger]
            rows(samples).count(d) > 0 ==> exists|i: int|
                0 <= i < samples.len() && #[trigger] samples[i].data() == d,
{
    broadcast use vstd::seq_lib::group_to_multiset_ensures;

    let l = listed(samples);
    assert forall|i: int| 0 <= i < samples.len() implies rows(samples).count(
        #[trigger] samples[i].data(),
    ) > 0 by {
        assert(l[i] == samples[i].data());
        assert(l.contains(l[i]));
    }
    assert forall|d: SampleData| #[trigger] rows(samples).count(d) > 0 implies exists|i: int|
        0 <= i < samples.len() && #[trigger] samples[i].data() == d by {
        assert(l.contains(d));
        let i = choose|i: int| 0 <= i < l.len() && l[i] == d;
        assert(samples[i].data() == d);
    }
}

/// Two lists one after the other.
pub proof fn lemma_rows_concat<S: Sample>(a: Seq<S>, b: Seq<S>)
    ensures
        rows(a + b) == rows(a).add(rows(b)),
{
    assert(listed(a + b) =~= listed(a) + listed(b));
    vstd::seq_lib::lemma_multiset_commutative(listed(a), listed(b));
}

/// Exchanging two places changes nothing but the order.
pub proof fn lemma_rows_exchange<S: Sample>(samples: Seq<S>, i: int, j: int)
    requires
        0 <= i < samples.len(),
        0 <= j < samples.len(),
    ensures
        rows(samples.update(i, samples[j]).update(j, samples[i])) == rows(samples),
{
    let l = listed(samples);
    let swapped = l.update(i, l[j]).update(j, l[i]);
    assert(listed(samples.update(i, samples[j]).update(j, samples[i])) =~= swapped);
    lemma_exchange(l, i, j);
}

/// Exchanging two places of a list changes nothing but the order.
pub proof fn lemma_exchange(l: Seq<SampleData>, i: int, j: int)
    requires
        0 <= i < l.len(),
        0 <= j < l.len(),
    ensures
        l.update(i, l[j]).update(j, l[i]).to_multiset() == l.to_multiset(),
{
    broadcast use vstd::seq_lib::group_to_multiset_ensures;

    let swapped = l.update(i, l[j]).update(j, l[i]);
    if i == j {
        assert(swapped =~= l);
    } else {
        assert(l.update(i, l[j]).remove(i) =~= l.remove(i));
        assert(l.update(i, l[j]) =~= l.remove(i).insert(i, l[j]));
        let m = l.update(i, l[j]);
        assert(swapped =~= m.remove(j).insert(j, l[i]));
        assert(l.to_multiset().count(l[i]) > 0) by {
            assert(l.contains(l[i]));
        }
        assert(swapped.to_multiset() =~= l.to_multiset());
    }
}

/// One sample more, and what that does to the parts of a collection.
pub proof fn lemma_insert_parts(m: Rows, d: SampleData, split: Split)
    ensures
        plus(m.insert(d)) == (if d.label {
            plus(m).insert(d)
        } else {
            plus(m)
        }),
        side(m.insert(d), split, true) == (if split.routes_left(d.values) {
            side(m, split, true).insert(d)
        } else {
            side(m, split, true)
        }),
        side(m.insert(d), split, false) == (if split.routes_left(d.values) {
            side(m, split, false)
        } else {
            side(m, split, false).insert(d)
        }),
{
    assert(plus(m.insert(d)) =~= (if d.label {
        plus(m).insert(d)
    } else {
        plus(m)
    }));
    assert(side(m.insert(d), split, true) =~= (if split.routes_left(d.values) {
        side(m, split, true).insert(d)
    } else {
        side(m, split, true)
    }));
    assert(side(m.insert(d), split, false) =~= (if split.routes_left(d.values) {
        side(m, split, false)
    } else {
        side(m, split, false).insert(d)
    }));
}

/// The two sides of a split make up the whole.
pub proof fn lemma_sides(m: Rows, split: Split)
    ensures
        side(m, split, true).add(side(m, split, false)) == m,
        side(m, split, true).len() + side(m, split, false).len() == m.len(),
        plus(side(m, split, true)).len() + plus(side(m, split, false)).len() == plus(m).len(),
        plus(m).len() <= m.len(),
        plus(side(m, split, true)).len() <= side(m, split, true).len(),
        plus(side(m, split, false)).len() <= side(m, split, false).len(),
{
    assert(side(m, split, true).add(side(m, split, false)) =~= m);
    assert(plus(side(m, split, true)).add(plus(side(m, split, false))) =~= plus(m));
    lemma_plus(m);
    lemma_plus(side(m, split, true));
    lemma_plus(side(m, split, false));
}

/// There are no more positive samples than samples.
pub proof fn lemma_plus(m: Rows)
    ensures
        plus(m).len() <= m.len(),
{
    let minus = m.filter(|d: SampleData| !d.label);
    assert(plus(m).add(minus) =~= m);
}

/// Counts the positive samples.
pub fn count_plus<S: Sample>(samples: &[S]) -> (r: usize)
    ensures
        r == plus(rows(samples@)).len(),
        r <= samples@.len(),
{
    let mut n: usize = 0;
    let mut i: usize = 0;
    proof {
        lemma_rows_empty(samples@.take(0));
        assert(plus(rows(samples@.take(0))) =~= Multiset::<SampleData>::empty());
    }
    while i < samples.len()
        invariant
            i <= samples@.len(),
            n <= i,
            n == plus(rows(samples@.take(i as int))).len(),
        decreases samples@.len() - i,
    {
        proof {
            lemma_rows_push(samples@, i as int);
            lemma_insert_parts(
                rows(samples@.take(i as int)),
                samples@[i as int].data(),
                Split::Numerical { attribute_index: 0, threshold: 0 },
            );
        }
        if samples[i].label() {
            n = n + 1;
        }
        i = i + 1;
    }
    assert(samples@.take(i as int) =~= samples@);
    n
}

} // verus!
