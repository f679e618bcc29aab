//! Looking at a registry, and noting what becomes known of its samples.

use super::entry::{TrackedSample, TrackedView};
use super::select::age_of;
use super::{
    blank_registry, entry_views, no_evictions, of_class, BudgetConfig, EvictionStats,
    InfluenceRegistry, RegistryView, DEFAULT_MEMORY_LIMIT,
};
use crate::fraction::Fraction;
use crate::order::{lemma_reordered, ordered, sort_keyed, sorted, Keyed};
use crate::wide::{Wide, WideFraction};
use vstd::prelude::*;

verus! {

/// The life of a sample.
pub struct SampleLifecycle {
    pub id: u64,
    pub label: bool,
    /// The place in the stream at which the sample came.
    pub insertion_position: u64,
    pub influence_history: Vec<(u64, i64)>,
    pub removal_rank_history: Vec<(u64, usize)>,
    pub average_influence: Option<Fraction>,
    pub influence_trend: Option<Fraction>,
}

impl SampleLifecycle {
    /// Whether this is the life of a sample.
    pub open spec fn tells(&self, s: TrackedView) -> bool {
        &&& self.label == s.label
        &&& self.insertion_position == s.position
        &&& self.influence_history@ == s.influence_history
        &&& self.removal_rank_history@ == s.removal_rank_history
        &&& self.average_influence == s.average()
        &&& self.influence_trend == s.trend()
    }
}

/// A registry at a glance.
pub struct Diagnostics {
    pub n_samples: usize,
    pub n_benign: usize,
    pub n_attack: usize,
    pub n_with_influence: usize,
    /// The share of samples with a known influence; zero without samples.
    pub influence_coverage: Fraction,
    /// The average age of the samples with a known influence; zero if there are none.
    pub mean_age: Fraction,
    /// Their average influence; zero if there are none.
    pub mean_influence: Fraction,
    /// How age and influence go together, by rank; not told of fewer than three samples.
    pub age_influence_spearman: Option<WideFraction>,
}

/// The samples with a known influence.
pub open spec fn with_influence(v: RegistryView) -> Set<u64> {
    Set::new(|id: u64| v.kept.contains_key(id) && v.kept[id].cached_influence is Some)
}

/// The sum of the ages of the first samples of a list.
pub open spec fn age_total(v: RegistryView, ids: Seq<u64>, n: int) -> int
    decreases n,
{
    if n <= 0 {
        0
    } else {
        age_total(v, ids, n - 1) + age_of(v.place, v.kept[ids[n - 1]])
    }
}

/// The sum of the influences of the first samples of a list.
pub open spec fn influence_total(v: RegistryView, ids: Seq<u64>, n: int) -> int
    decreases n,
{
    if n <= 0 {
        0
    } else {
        influence_total(v, ids, n - 1) + v.kept[ids[n - 1]].cached_influence->0
    }
}

/// Whether numbers are ranks: distinct numbers from zero on, in the order of the keys.
pub open spec fn ranks_by(keys: Seq<i128>, ranks: Seq<usize>) -> bool {
    &&& ranks.len() == keys.len()
    &&& forall|i: int| 0 <= i < ranks.len() ==> #[trigger] ranks[i] < ranks.len()
    &&& forall|i: int, j: int|
        0 <= i < j < ranks.len() ==> #[trigger] ranks[i] != #[trigger] ranks[j]
    &&& forall|i: int, j: int|
        #![trigger keys[i], keys[j]]
        0 <= i < ranks.len() && 0 <= j < ranks.len() && keys[i] < keys[j] ==> ranks[i] < ranks[j]
}

/// Twice the distance of a rank from the middle.
pub open spec fn off_centre(rank: int, n: int) -> int {
    2 * rank - (n - 1)
}

/// How far the first ranks of two lists go the same way, in quarters.
pub open spec fn covariation(a: Seq<usize>, b: Seq<usize>, n: int, k: int) -> int
    decreases k,
{
    if k <= 0 {
        0
    } else {
        covariation(a, b, n, k - 1) + off_centre(a[k - 1] as int, n) * off_centre(
            b[k - 1] as int,
            n,
        )
    }
}

/// How far the first of all ranks lie from the middle, in quarters.
pub open spec fn rank_spread(n: int, k: int) -> int
    decreases k,
{
    if k <= 0 {
        0
    } else {
        rank_spread(n, k - 1) + off_centre(k - 1, n) * off_centre(k - 1, n)
    }
}

/// The ages and the influences of the samples of a list.
pub open spec fn ages_of(v: RegistryView, ids: Seq<u64>) -> Seq<i128> {
    Seq::new(ids.len(), |i: int| age_of(v.place, v.kept[ids[i]]) as i128)
}

/// The influences of the samples of a list.
pub open spec fn influences_of(v: RegistryView, ids: Seq<u64>) -> Seq<i128> {
    Seq::new(ids.len(), |i: int| v.kept[ids[i]].cached_influence->0 as i128)
}

/// The average of some numbers with a given sum; zero if there are none.
pub open spec fn averaged(total: int, n: int) -> Fraction {
    if n <= 0 {
        Fraction { num: 0, den: 1 }
    } else {
        Fraction { num: total as i128, den: n as u128 }
    }
}

/// Whether a report tells how age and influence go together.
pub open spec fn correlated(v: RegistryView, d: Diagnostics, ids: Seq<u64>) -> bool {
    let n = ids.len() as int;
    &&& ids.no_duplicates()
    &&& ids.to_set() == with_influence(v)
    &&& d.n_with_influence == n
    &&& d.influence_coverage == (if v.kept.len() == 0 {
        Fraction { num: 0, den: 1 }
    } else {
        Fraction { num: n as i128, den: v.kept.len() as u128 }
    })
    &&& d.mean_age == averaged(age_total(v, ids, n), n)
    &&& d.mean_influence == averaged(influence_total(v, ids, n), n)
    &&& if n < 3 {
        d.age_influence_spearman is None
    } else {
        exists|a: Seq<usize>, b: Seq<usize>|
            {
                &&& #[trigger] ranks_by(ages_of(v, ids), a)
                &&& #[trigger] ranks_by(influences_of(v, ids), b)
                &&& d.age_influence_spearman matches Some(rho)
                &&& rho.wf()
                &&& rho.over() == covariation(a, b, n, n)
                &&& rho.den.value() == rank_spread(n, n)
            }
    }
}

/// A registry after ranks of samples have been noted.
pub open spec fn ranked(v: RegistryView, ids: Seq<u64>, n: int) -> RegistryView
    decreases n,
{
    if n <= 0 {
        v
    } else {
        let before = ranked(v, ids, n - 1);
        if before.kept.contains_key(ids[n - 1]) {
            before.resized(
                ids[n - 1],
                before.kept[ids[n - 1]].with_rank(v.place, (n - 1) as usize),
            )
        } else {
            before
        }
    }
}

/// A registry in order stays in order when something else becomes known of a sample.
pub proof fn lemma_changed_wf(v: RegistryView, id: u64, s: TrackedView)
    requires
        v.wf(),
        v.kept.contains_key(id),
        s.position == v.kept[id].position,
        s.label == v.kept[id].label,
        s.wf(),
    ensures
        v.changed(id, s).wf(),
        v.resized(id, s).wf(),
        of_class(v.changed(id, s).kept, true) == of_class(v.kept, true),
        of_class(v.changed(id, s).kept, false) == of_class(v.kept, false),
{
    let w = v.changed(id, s);
    assert(w.kept.dom() =~= v.kept.dom());
    assert forall|i: int| 0 <= i < w.order.len() implies {
        let e = #[trigger] w.order[i];
        e.0 < w.place && w.kept.contains_key(e.1) && w.kept[e.1].position == e.0
    } by {
        assert(v.kept.contains_key(v.order[i].1));
    }
    assert forall|x: u64| #[trigger] w.kept.contains_key(x) implies w.order.contains(
        (w.kept[x].position, x),
    ) && w.kept[x].wf() by {
        assert(v.kept.contains_key(x));
    }
    assert(of_class(w.kept, true) =~= of_class(v.kept, true));
    assert(of_class(w.kept, false) =~= of_class(v.kept, false));
}

/// How large the product of two distances from the middle is.
proof fn lemma_off_centre(x: int, y: int, n: int)
    requires
        0 <= x < n <= u64::MAX,
        0 <= y < n,
    ensures
        -u64::MAX <= off_centre(x, n) <= u64::MAX,
        -u128::MAX <= off_centre(x, n) * off_centre(y, n) <= u128::MAX,
{
    let a = off_centre(x, n);
    let b = off_centre(y, n);
    assert(-0xffff_ffff_ffff_ffff_ffff_ffff_ffff_ffff <= a * b
        <= 0xffff_ffff_ffff_ffff_ffff_ffff_ffff_ffff) by (nonlinear_arith)
        requires
            -0xffff_ffff_ffff_ffff <= a <= 0xffff_ffff_ffff_ffff,
            -0xffff_ffff_ffff_ffff <= b <= 0xffff_ffff_ffff_ffff,
    ;
}

/// The size of the product of two distances from the middle, and whether it is below zero.
fn crossed(x: usize, y: usize, n: usize) -> (r: (u128, bool))
    requires
        x < n,
        y < n,
    ensures
        off_centre(x as int, n as int) * off_centre(y as int, n as int) == (if r.1 {
            -r.0
        } else {
            r.0 as int
        }),
{
    let middle: i128 = n as i128 - 1;
    let a: i128 = 2 * x as i128 - middle;
    let b: i128 = 2 * y as i128 - middle;
    let p: u128 = if a < 0 {
        (-a) as u128
    } else {
        a as u128
    };
    let q: u128 = if b < 0 {
        (-b) as u128
    } else {
        b as u128
    };
    proof {
        lemma_off_centre(x as int, y as int, n as int);
        assert(0 <= p * q && (p * q == a * b || p * q == -(a * b)) && ((a < 0) == (b < 0) ==> p * q
            == a * b) && ((a < 0) != (b < 0) ==> p * q == -(a * b))) by (nonlinear_arith)
            requires
                (a < 0 && p == -a) || (a >= 0 && p == a),
                (b < 0 && q == -b) || (b >= 0 && q == b),
        ;
    }
    (p * q, (a < 0) != (b < 0))
}

/// Finds ranks by keys.
fn rank(keys: &Vec<i128>) -> (r: Vec<usize>)
    ensures
        ranks_by(keys@, r@),
{
    let n: usize = keys.len();
    let mut list: Vec<Keyed> = Vec::new();
    let mut ranks: Vec<usize> = Vec::new();
    while list.len() < n
        invariant
            list@.len() <= n == keys@.len(),
            ranks@.len() == list@.len(),
            list@ == Seq::new(list@.len(), |i: int| (keys@[i], i as u64)),
        decreases n - list@.len(),
    {
        let i: usize = list.len();
        list.push((keys[i], i as u64));
        ranks.push(0);
        assert(list@ =~= Seq::new(list@.len(), |i: int| (keys@[i], i as u64)));
    }
    let ghost paired = list@;
    proof {
        assert forall|i: int, j: int| 0 <= i < j < paired.len() implies paired[i] != paired[j] by {
            assert(paired[i].1 != paired[j].1);
        }
        assert(paired.no_duplicates());
    }
    let list = sort_keyed(list);
    proof {
        lemma_reordered(paired, list@);
    }
    let mut k: usize = 0;
    while k < n
        invariant
            k <= n == keys@.len(),
            list@.len() == n,
            ranks@.len() == n,
            paired == Seq::new(n as nat, |i: int| (keys@[i], i as u64)),
            list@.no_duplicates(),
            forall|x: Keyed| #[trigger] paired.contains(x) == list@.contains(x),
            forall|j: int|
                0 <= j < k ==> (#[trigger] list@[j]).1 < n && ranks@[list@[j].1 as int] == j,
        decreases n - k,
    {
        proof {
            assert(list@.contains(list@[k as int]));
            assert(paired.contains(list@[k as int]));
            let i = paired.index_of(list@[k as int]);
            assert(paired[i] == (keys@[i], i as u64));
        }
        let ghost before = ranks@;
        let at: usize = list[k].1 as usize;
        ranks.set(at, k);
        proof {
            assert forall|j: int| 0 <= j < k + 1 implies (#[trigger] list@[j]).1 < n
                && ranks@[list@[j].1 as int] == j by {
                if j < k {
                    assert(list@[j] != list@[k as int]);
                    assert(list@.contains(list@[j]) && paired.contains(list@[j]));
                    let x = paired.index_of(list@[j]);
                    let y = paired.index_of(list@[k as int]);
                    assert(paired[x] == list@[j] && paired[y] == list@[k as int]);
                    assert(list@[j].1 != list@[k as int].1);
                }
            }
        }
        k = k + 1;
    }
    proof {
        lemma_ranks(keys@, paired, list@, ranks@);
    }
    ranks
}

/// The places in the sorted list are ranks.
proof fn lemma_ranks(keys: Seq<i128>, paired: Seq<Keyed>, list: Seq<Keyed>, ranks: Seq<usize>)
    requires
        keys.len() <= usize::MAX,
        paired == Seq::new(keys.len(), |i: int| (keys[i], i as u64)),
        list.len() == keys.len(),
        ranks.len() == keys.len(),
        sorted(list),
        forall|x: Keyed| #[trigger] paired.contains(x) == list.contains(x),
        forall|j: int|
            0 <= j < list.len() ==> (#[trigger] list[j]).1 < list.len()
                && ranks[list[j].1 as int] == j,
    ensures
        ranks_by(keys, ranks),
{
    assert forall|i: int| 0 <= i < ranks.len() implies #[trigger] ranks[i] < ranks.len()
        && list[ranks[i] as int] == (keys[i], i as u64) by {
        assert(paired.contains(paired[i]));
        assert(list.contains(paired[i]));
        let j = list.index_of(paired[i]);
        assert(list[j] == (keys[i], i as u64));
        assert(ranks[list[j].1 as int] == j);
    }
    assert forall|i: int, j: int| 0 <= i < j < ranks.len() implies #[trigger] ranks[i]
        != #[trigger] ranks[j] by {
        assert(list[ranks[i] as int] == (keys[i], i as u64));
        assert(list[ranks[j] as int] == (keys[j], j as u64));
    }
    assert forall|i: int, j: int|
        #![trigger keys[i], keys[j]]
        0 <= i < ranks.len() && 0 <= j < ranks.len() && keys[i] < keys[j] implies ranks[i]
        < ranks[j] by {
        assert(ranks[i] < ranks.len() && ranks[j] < ranks.len());
        assert(list[ranks[i] as int] == (keys[i], i as u64));
        assert(list[ranks[j] as int] == (keys[j], j as u64));
        if ranks[j] <= ranks[i] {
            assert(ordered(list[ranks[j] as int], list[ranks[i] as int]));
        }
    }
}

/// Copies a history.
fn copy_influences(list: &Vec<(u64, i64)>) -> (r: Vec<(u64, i64)>)
    ensures
        r@ == list@,
{
    let mut copy: Vec<(u64, i64)> = Vec::new();
    while copy.len() < list.len()
        invariant
            copy@.len() <= list@.len(),
            copy@ == list@.take(copy@.len() as int),
        decreases list@.len() - copy@.len(),
    {
        copy.push(list[copy.len()]);
        assert(copy@ =~= list@.take(copy@.len() as int));
    }
    assert(copy@ =~= list@);
    copy
}

/// Copies a history.
fn copy_ranks(list: &Vec<(u64, usize)>) -> (r: Vec<(u64, usize)>)
    ensures
        r@ == list@,
{
    let mut copy: Vec<(u64, usize)> = Vec::new();
    while copy.len() < list.len()
        invariant
            copy@.len() <= list@.len(),
            copy@ == list@.take(copy@.len() as int),
        decreases list@.len() - copy@.len(),
    {
        copy.push(list[copy.len()]);
        assert(copy@ =~= list@.take(copy@.len() as int));
    }
    assert(copy@ =~= list@);
    copy
}

/// A registry once the influence of a sample has been noted; the one before is remembered
/// if that is asked for.
pub open spec fn influence_set(v: RegistryView, id: u64, influence: i64) -> RegistryView {
    if v.kept.contains_key(id) {
        let s = v.kept[id];
        v.changed(
            id,
            TrackedView {
                cached_influence: Some(influence),
                prev_influence: if v.remembers {
                    s.cached_influence
                } else {
                    s.prev_influence
                },
                ..s
            },
        )
    } else {
        v
    }
}

/// A registry once the influence of a sample has been replaced.
pub open spec fn influence_replaced(v: RegistryView, id: u64, influence: i64) -> RegistryView {
    if v.kept.contains_key(id) {
        v.changed(id, TrackedView { cached_influence: Some(influence), ..v.kept[id] })
    } else {
        v
    }
}

impl InfluenceRegistry {
    /// What is kept of a sample.
    pub fn get(&self, sample_id: u64) -> (r: Option<&TrackedSample>)
        ensures
            match r {
                Some(s) => self@.kept.contains_key(sample_id) && s@ == self@.kept[sample_id],
                None => !self@.kept.contains_key(sample_id),
            },
    {
        self.samples.get(sample_id)
    }

    /// What is kept of a sample, to be changed in place.
    pub fn get_mut(&mut self, sample_id: u64) -> (r: Option<&mut TrackedSample>)
        ensures
            match r {
                Some(s) => {
                    &&& old(self)@.kept.contains_key(sample_id)
                    &&& (*s)@ == old(self)@.kept[sample_id]
                    &&& final(self)@ == old(self)@.changed(sample_id, (*final(s))@)
                },
                None => !old(self)@.kept.contains_key(sample_id) && *final(self) == *old(self),
            },
    {
        let ghost v = self@;
        let ghost samples = self.samples@;
        proof {
            assert forall|s: TrackedSample| entry_views(samples.insert(sample_id, s))
                =~= #[trigger] entry_views(samples).insert(sample_id, s@) by {}
        }
        self.samples.get_mut(sample_id)
    }

    /// Whether a sample can be forgotten: it is kept and some tree has learnt it.
    pub fn can_unlearn(&self, sample_id: u64) -> (r: bool)
        ensures
            r == (self@.kept.contains_key(sample_id) && self@.kept[sample_id].tree_indices.len()
                > 0),
    {
        match self.samples.get(sample_id) {
            Some(s) => s.tree_indices.len() > 0,
            None => false,
        }
    }

    /// The trees that have learnt a sample.
    pub fn get_tree_indices(&self, sample_id: u64) -> (r: Option<&Vec<usize>>)
        ensures
            match r {
                Some(list) => self@.kept.contains_key(sample_id) && list@
                    == self@.kept[sample_id].tree_indices,
                None => !self@.kept.contains_key(sample_id),
            },
    {
        match self.samples.get(sample_id) {
            Some(s) => Some(&s.tree_indices),
            None => None,
        }
    }

    /// Notes the trees that have learnt a sample.
    pub fn set_tree_indices(&mut self, sample_id: u64, tree_indices: Vec<usize>)
        requires
            old(self).wf(),
        ensures
            final(self).wf(),
            final(self)@ == (if old(self)@.kept.contains_key(sample_id) {
                old(self)@.resized(
                    sample_id,
                    TrackedView {
                        tree_indices: tree_indices@,
                        ..old(self)@.kept[sample_id]
                    },
                )
            } else {
                old(self)@
            }),
    {
        let ghost v = self@;
        let mut was: usize = 0;
        let mut now: usize = 0;
        match self.samples.get_mut(sample_id) {
            Some(s) => {
                was = s.memory_bytes();
                s.tree_indices = tree_indices;
                now = s.memory_bytes();
            },
            None => {},
        }
        self.current_bytes = self.current_bytes.saturating_sub(was).saturating_add(now);
        proof {
            if v.kept.contains_key(sample_id) {
                let s = TrackedView { tree_indices: tree_indices@, ..v.kept[sample_id] };
                lemma_changed_wf(v, sample_id, s);
                assert(self@.kept =~= v.kept.insert(sample_id, s));
            }
        }
    }

    /// The class of a sample.
    pub fn get_label(&self, sample_id: u64) -> (r: Option<bool>)
        ensures
            r == (if self@.kept.contains_key(sample_id) {
                Some(self@.kept[sample_id].label)
            } else {
                None
            }),
    {
        match self.samples.get(sample_id) {
            Some(s) => Some(s.label),
            None => None,
        }
    }

    /// Notes the influence of a sample; the one before is remembered if that is asked for.
    pub fn set_influence(&mut self, sample_id: u64, influence: i64)
        requires
            old(self).wf(),
        ensures
            final(self).wf(),
            final(self)@ == influence_set(old(self)@, sample_id, influence),
    {
        let ghost v = self@;
        let remember = self.influence_tracking_enabled;
        match self.samples.get_mut(sample_id) {
            Some(s) => {
                if remember {
                    s.prev_influence = s.cached_influence;
                }
                s.cached_influence = Some(influence);
            },
            None => {},
        }
        proof {
            if v.kept.contains_key(sample_id) {
                let s = v.kept[sample_id];
                let t = TrackedView {
                    cached_influence: Some(influence),
                    prev_influence: if v.remembers {
                        s.cached_influence
                    } else {
                        s.prev_influence
                    },
                    ..s
                };
                lemma_changed_wf(v, sample_id, t);
                assert(self@.kept =~= v.kept.insert(sample_id, t));
            }
        }
    }

    /// Replaces the influence of a sample; the one before is not remembered.
    pub fn replace_influence(&mut self, sample_id: u64, influence: i64)
        requires
            old(self).wf(),
        ensures
            final(self).wf(),
            final(self)@ == influence_replaced(old(self)@, sample_id, influence),
    {
        let ghost v = self@;
        match self.samples.get_mut(sample_id) {
            Some(s) => {
                s.cached_influence = Some(influence);
            },
            None => {},
        }
        proof {
            if v.kept.contains_key(sample_id) {
                let t = TrackedView { cached_influence: Some(influence), ..v.kept[sample_id] };
                lemma_changed_wf(v, sample_id, t);
                assert(self@.kept =~= v.kept.insert(sample_id, t));
            }
        }
    }

    /// The influence of a sample, if it is known.
    pub fn get_influence(&self, sample_id: u64) -> (r: Option<i64>)
        ensures
            r == (if self@.kept.contains_key(sample_id) {
                self@.kept[sample_id].cached_influence
            } else {
                None
            }),
    {
        match self.samples.get(sample_id) {
            Some(s) => s.cached_influence,
            None => None,
        }
    }

    /// The influence of a sample, if it is known.
    pub fn get_cached_influence(&self, sample_id: u64) -> (r: Option<i64>)
        ensures
            r == (if self@.kept.contains_key(sample_id) {
                self@.kept[sample_id].cached_influence
            } else {
                None
            }),
    {
        self.get_influence(sample_id)
    }

    /// Lists the samples with a known influence.
    fn list_known(&self) -> (r: Vec<u64>)
        requires
            self.wf(),
        ensures
            r@.no_duplicates(),
            r@.to_set() == with_influence(self@),
            r@.len() <= self@.kept.len(),
    {
        let ghost v = self@;
        let count: usize = self.samples.len();
        let ghost order = self.samples.order();
        let mut list: Vec<u64> = Vec::new();
        let mut i: usize = 0;
        while i < count
            invariant
                i <= count == order.len(),
                order == self.samples.order(),
                order.no_duplicates(),
                v == self@,
                list@.no_duplicates(),
                list@.len() <= i,
                forall|id: u64| #[trigger]
                    list@.contains(id) <==> order.take(i as int).contains(id) && with_influence(
                        v,
                    ).contains(id),
            decreases count - i,
        {
            let id: u64 = self.samples.key_at(i);
            let sample = self.samples.value_at(i);
            let ghost before = list@;
            let ghost a = order.take(i as int);
            let ghost b = order.take(i as int + 1);
            proof {
                assert(v.kept.contains_key(id) && v.kept[id] == sample@);
                assert(b =~= a.push(id));
                assert(!a.contains(id)) by {
                    if a.contains(id) {
                        let j = a.index_of(id);
                        assert(order[j] == order[i as int]);
                    }
                }
                assert forall|x: u64| b.contains(x) == (a.contains(x) || x == id) by {
                    if a.contains(x) {
                        assert(b[a.index_of(x)] == x);
                    }
                    assert(b[i as int] == id);
                }
            }
            if sample.cached_influence.is_some() {
                list.push(id);
                proof {
                    assert forall|x: u64| list@.contains(x) == (before.contains(x) || x == id) by {
                        if before.contains(x) {
                            assert(list@[before.index_of(x)] == x);
                        }
                        assert(list@[before.len() as int] == id);
                    }
                    assert(!before.contains(id));
                }
            }
            assert forall|x: u64| #[trigger] list@.contains(x) <==> b.contains(x) && with_influence(
                v,
            ).contains(x) by {
                assert(before.contains(x) <==> a.contains(x) && with_influence(v).contains(x));
                assert(b.contains(x) == (a.contains(x) || x == id));
            }
            i = i + 1;
        }
        proof {
            assert(order.take(i as int) =~= order);
            assert(v.kept.dom() =~= self.samples@.dom());
            assert forall|id: u64| list@.to_set().contains(id) == with_influence(v).contains(
                id,
            ) by {
                if with_influence(v).contains(id) {
                    assert(self.samples@.contains_key(id));
                    assert(order.to_set().contains(id));
                    assert(order.contains(id));
                    assert(list@.contains(id));
                }
            }
            assert(list@.to_set() =~= with_influence(v));
        }
        list
    }

    /// The known influences, in any order.
    pub fn cached_influences(&self) -> (r: Vec<(u64, i64)>)
        requires
            self.wf(),
        ensures
            Seq::new(r@.len(), |i: int| r@[i].0).no_duplicates(),
            Seq::new(r@.len(), |i: int| r@[i].0).to_set() == with_influence(self@),
            forall|i: int|
                0 <= i < r@.len() ==> self@.kept[(#[trigger] r@[i]).0].cached_influence == Some(
                    r@[i].1,
                ),
    {
        let ids = self.list_known();
        let mut list: Vec<(u64, i64)> = Vec::new();
        while list.len() < ids.len()
            invariant
                list@.len() <= ids@.len(),
                ids@.to_set() == with_influence(self@),
                forall|i: int| 0 <= i < list@.len() ==> (#[trigger] list@[i]).0 == ids@[i],
                forall|i: int|
                    0 <= i < list@.len() ==> self@.kept[(#[trigger] list@[i]).0].cached_influence
                        == Some(list@[i].1),
            decreases ids@.len() - list@.len(),
        {
            let id: u64 = ids[list.len()];
            assert(ids@.to_set().contains(id));
            let x: i64 = match self.get_influence(id) {
                Some(x) => x,
                None => 0,
            };
            list.push((id, x));
        }
        assert(Seq::new(list@.len(), |i: int| list@[i].0) =~= ids@);
        list
    }

    /// Forgets all influences but those before and those in histories.
    pub fn clear_influence_cache(&mut self)
        requires
            old(self).wf(),
        ensures
            final(self).wf(),
            final(self)@ == (RegistryView {
                kept: old(self)@.kept.map_values(
                    |s: TrackedView| TrackedView { cached_influence: None, ..s },
                ),
                ..old(self)@
            }),
    {
        let ghost v = self@;
        let ghost f = |s: TrackedView| TrackedView { cached_influence: None, ..s };
        let count: usize = self.samples.len();
        let ghost order = self.samples.order();
        let mut i: usize = 0;
        while i < count
            invariant
                i <= count == order.len(),
                order == self.samples.order(),
                order.no_duplicates(),
                order.to_set() == v.kept.dom(),
                self.wf(),
                self@ == (RegistryView { kept: self@.kept, ..v }),
                self@.kept.dom() == v.kept.dom(),
                forall|j: int|
                    0 <= j < i ==> self@.kept[#[trigger] order[j]] == (TrackedView {
                        cached_influence: None,
                        ..v.kept[order[j]]
                    }),
                forall|j: int|
                    i <= j < order.len() ==> self@.kept[#[trigger] order[j]] == v.kept[order[j]],
            decreases count - i,
        {
            let id: u64 = self.samples.key_at(i);
            let ghost before = self@;
            match self.samples.get_mut(id) {
                Some(s) => {
                    s.cached_influence = None;
                },
                None => {},
            }
            proof {
                let t = TrackedView { cached_influence: None, ..before.kept[id] };
                assert(before.kept.contains_key(id));
                lemma_changed_wf(before, id, t);
                assert(self@.kept =~= before.kept.insert(id, t));
                assert(self@.kept.dom() =~= v.kept.dom());
                assert forall|j: int| 0 <= j < order.len() && j != i implies order[j] != id by {}
            }
            i = i + 1;
        }
        proof {
            assert(self@.kept =~= v.kept.map_values(f)) by {
                assert forall|id: u64| v.kept.contains_key(id) implies self@.kept[id] == f(
                    v.kept[id],
                ) by {
                    assert(order.to_set().contains(id));
                    let j = choose|j: int| 0 <= j < order.len() && order[j] == id;
                    assert(self@.kept[order[j]] == f(v.kept[order[j]]));
                }
            }
        }
    }

    /// Records the influence of a sample in its history.
    pub fn record_influence(&mut self, sample_id: u64, influence: i64)
        requires
            old(self).wf(),
        ensures
            final(self).wf(),
            final(self)@ == (if old(self)@.kept.contains_key(sample_id) {
                old(self)@.resized(
                    sample_id,
                    old(self)@.kept[sample_id].with_influence(old(self)@.place, influence),
                )
            } else {
                old(self)@
            }),
    {
        let ghost v = self@;
        let position: u64 = self.current_position;
        let mut was: usize = 0;
        let mut now: usize = 0;
        match self.samples.get_mut(sample_id) {
            Some(s) => {
                was = s.memory_bytes();
                s.record_influence(position, influence);
                now = s.memory_bytes();
            },
            None => {},
        }
        self.current_bytes = self.current_bytes.saturating_sub(was).saturating_add(now);
        proof {
            if v.kept.contains_key(sample_id) {
                let t = v.kept[sample_id].with_influence(v.place, influence);
                lemma_changed_wf(v, sample_id, t);
                assert(self@.kept =~= v.kept.insert(sample_id, t));
            }
        }
    }

    /// Records the ranks of samples among the candidates for removal.
    pub fn record_removal_ranks(&mut self, ranked_sample_ids: &[u64])
        requires
            old(self).wf(),
        ensures
            final(self).wf(),
            final(self)@ == ranked(
                old(self)@,
                ranked_sample_ids@,
                ranked_sample_ids@.len() as int,
            ),
    {
        let ghost v = self@;
        let position: u64 = self.current_position;
        let mut i: usize = 0;
        while i < ranked_sample_ids.len()
            invariant
                i <= ranked_sample_ids@.len(),
                self.wf(),
                position == v.place,
                self@ == ranked(v, ranked_sample_ids@, i as int),
            decreases ranked_sample_ids@.len() - i,
        {
            let id: u64 = ranked_sample_ids[i];
            let ghost before = self@;
            let mut was: usize = 0;
            let mut now: usize = 0;
            match self.samples.get_mut(id) {
                Some(s) => {
                    was = s.memory_bytes();
                    s.record_removal_rank(position, i);
                    now = s.memory_bytes();
                },
                None => {},
            }
            self.current_bytes = self.current_bytes.saturating_sub(was).saturating_add(now);
            proof {
                if before.kept.contains_key(id) {
                    let t = before.kept[id].with_rank(v.place, i);
                    lemma_changed_wf(before, id, t);
                    assert(self@.kept =~= before.kept.insert(id, t));
                }
            }
            i = i + 1;
        }
    }

    /// The lives of all samples, in any order.
    pub fn get_lifecycle_data(&self) -> (r: Vec<SampleLifecycle>)
        requires
            self.wf(),
        ensures
            Seq::new(r@.len(), |i: int| r@[i].id).no_duplicates(),
            Seq::new(r@.len(), |i: int| r@[i].id).to_set() == self@.kept.dom(),
            forall|i: int|
                0 <= i < r@.len() ==> (#[trigger] r@[i]).tells(self@.kept[r@[i].id]),
    {
        let ids = self.sample_ids();
        let mut list: Vec<SampleLifecycle> = Vec::new();
        while list.len() < ids.len()
            invariant
                self.wf(),
                list@.len() <= ids@.len(),
                ids@.to_set() == self@.kept.dom(),
                forall|i: int| 0 <= i < list@.len() ==> (#[trigger] list@[i]).id == ids@[i],
                forall|i: int|
                    0 <= i < list@.len() ==> (#[trigger] list@[i]).tells(
                        self@.kept[list@[i].id],
                    ),
            decreases ids@.len() - list@.len(),
        {
            let id: u64 = ids[list.len()];
            assert(ids@.to_set().contains(id));
            match self.samples.get(id) {
                Some(s) => {
                    assert(self@.kept.contains_key(id));
                    list.push(
                        SampleLifecycle {
                            id,
                            label: s.label,
                            insertion_position: s.position,
                            influence_history: copy_influences(&s.influence_history),
                            removal_rank_history: copy_ranks(&s.removal_rank_history),
                            average_influence: s.average_influence(),
                            influence_trend: s.influence_trend(),
                        },
                    );
                },
                None => {},
            }
        }
        assert(Seq::new(list@.len(), |i: int| list@[i].id) =~= ids@);
        list
    }

    /// What is known of the samples that have gone for want of room.
    pub fn eviction_stats(&self) -> (r: &EvictionStats)
        ensures
            *r == self@.evictions,
    {
        &self.cumulative_eviction_stats
    }

    /// The budget, if there is one.
    pub fn budget_config(&self) -> (r: Option<&BudgetConfig>)
        ensures
            match r {
                Some(config) => self@.budget == Some(*config),
                None => self@.budget is None,
            },
    {
        match &self.budget_config {
            Some(config) => Some(config),
            None => None,
        }
    }

    /// Whether there is a budget.
    pub fn budget_enabled(&self) -> (r: bool)
        ensures
            r == (self@.budget is Some),
    {
        self.budget_config.is_some()
    }

    /// The number of samples.
    pub fn len(&self) -> (r: usize)
        ensures
            r == self@.kept.len(),
    {
        assert(self@.kept.dom() =~= self.samples@.dom());
        self.samples.len()
    }

    /// Whether there are no samples.
    pub fn is_empty(&self) -> (r: bool)
        ensures
            r == (self@.kept.len() == 0),
    {
        assert(self@.kept.dom() =~= self.samples@.dom());
        self.samples.is_empty()
    }

    /// The estimate of the memory that the samples take.
    pub fn memory_bytes(&self) -> (r: usize)
        ensures
            r == self@.bytes,
    {
        self.current_bytes
    }

    /// The estimate of the memory in MiB.
    pub fn memory_mb(&self) -> (r: Fraction)
        ensures
            r == (Fraction { num: self@.bytes as i128, den: 1048576 }),
    {
        Fraction { num: self.current_bytes as i128, den: 1048576 }
    }

    /// The numbers of negative and of positive samples.
    pub fn class_counts(&self) -> (r: [usize; 2])
        requires
            self.wf(),
        ensures
            r@[0] == of_class(self@.kept, false).len(),
            r@[1] == of_class(self@.kept, true).len(),
    {
        [self.count_minus, self.count_plus]
    }

    /// The smaller class; the negative one if both are of the same size.
    pub fn minority_class(&self) -> (r: bool)
        requires
            self.wf(),
        ensures
            r == (of_class(self@.kept, true).len() < of_class(self@.kept, false).len()),
    {
        self.count_plus < self.count_minus
    }

    /// The larger class; the positive one if both are of the same size.
    pub fn majority_class(&self) -> (r: bool)
        requires
            self.wf(),
        ensures
            r == (of_class(self@.kept, true).len() >= of_class(self@.kept, false).len()),
    {
        self.count_plus >= self.count_minus
    }

    /// How many times the smaller class goes into the larger one; not told if the smaller
    /// one is empty.
    pub fn imbalance_ratio(&self) -> (r: Option<Fraction>)
        requires
            self.wf(),
        ensures
            ({
                let a = of_class(self@.kept, false).len();
                let b = of_class(self@.kept, true).len();
                let low = if a <= b {
                    a
                } else {
                    b
                };
                let high = if a <= b {
                    b
                } else {
                    a
                };
                r == (if low == 0 {
                    None
                } else {
                    Some(Fraction { num: high as i128, den: low as u128 })
                })
            }),
    {
        let low: usize = if self.count_minus <= self.count_plus {
            self.count_minus
        } else {
            self.count_plus
        };
        let high: usize = if self.count_minus <= self.count_plus {
            self.count_plus
        } else {
            self.count_minus
        };
        if low > 0 {
            Some(Fraction { num: high as i128, den: low as u128 })
        } else {
            None
        }
    }

    /// How many samples have come.
    pub fn total_registered(&self) -> (r: u64)
        ensures
            r == self@.place,
    {
        self.current_position
    }

    /// The place in the stream.
    pub fn current_position(&self) -> (r: u64)
        ensures
            r == self@.place,
    {
        self.current_position
    }

    /// The number of samples with a known influence, and of all samples.
    pub fn influence_coverage(&self) -> (r: (usize, usize))
        requires
            self.wf(),
        ensures
            r.0 == with_influence(self@).len(),
            r.1 == self@.kept.len(),
    {
        let list = self.list_known();
        proof {
            list@.unique_seq_to_set();
        }
        (list.len(), self.len())
    }

    /// The samples, in any order.
    pub fn sample_ids(&self) -> (r: Vec<u64>)
        ensures
            r@.no_duplicates(),
            r@.to_set() == self@.kept.dom(),
    {
        let n: usize = self.samples.len();
        let mut list: Vec<u64> = Vec::new();
        while list.len() < n
            invariant
                list@.len() <= n == self.samples.order().len(),
                list@ == self.samples.order().take(list@.len() as int),
            decreases n - list@.len(),
        {
            list.push(self.samples.key_at(list.len()));
            assert(list@ =~= self.samples.order().take(list@.len() as int));
        }
        assert(list@ =~= self.samples.order());
        assert(self@.kept.dom() =~= self.samples@.dom());
        list
    }

    /// The samples, in any order.
    pub fn current_ids(&self) -> (r: Vec<u64>)
        ensures
            r@.no_duplicates(),
            r@.to_set() == self@.kept.dom(),
    {
        self.sample_ids()
    }

    /// The samples with what is kept of them, in any order.
    pub fn iter(&self) -> (r: Vec<(u64, &TrackedSample)>)
        ensures
            Seq::new(r@.len(), |i: int| r@[i].0).no_duplicates(),
            Seq::new(r@.len(), |i: int| r@[i].0).to_set() == self@.kept.dom(),
            forall|i: int|
                0 <= i < r@.len() ==> (#[trigger] r@[i]).1@ == self@.kept[r@[i].0],
    {
        let n: usize = self.samples.len();
        let ghost order = self.samples.order();
        let mut list: Vec<(u64, &TrackedSample)> = Vec::new();
        while list.len() < n
            invariant
                list@.len() <= n == order.len(),
                order == self.samples.order(),
                forall|i: int| 0 <= i < list@.len() ==> (#[trigger] list@[i]).0 == order[i],
                forall|i: int|
                    0 <= i < list@.len() ==> (#[trigger] list@[i]).1@ == self@.kept[list@[i].0],
            decreases n - list@.len(),
        {
            let k: usize = list.len();
            list.push((self.samples.key_at(k), self.samples.value_at(k)));
        }
        assert(Seq::new(list@.len(), |i: int| list@[i].0) =~= order);
        assert(self@.kept.dom() =~= self.samples@.dom());
        list
    }

    /// The registry at a glance.
    pub fn get_diagnostics(&self) -> (r: Diagnostics)
        requires
            self.wf(),
        ensures
            r.n_samples == self@.kept.len(),
            r.n_benign == of_class(self@.kept, false).len(),
            r.n_attack == of_class(self@.kept, true).len(),
            exists|ids: Seq<u64>| #[trigger] correlated(self@, r, ids),
    {
        let ghost v = self@;
        let total: usize = self.len();
        let ids = self.list_known();
        let n: usize = ids.len();
        let influence_coverage = if total > 0 {
            Fraction { num: n as i128, den: total as u128 }
        } else {
            Fraction { num: 0, den: 1 }
        };
        let mut ages: Vec<i128> = Vec::new();
        let mut influences: Vec<i128> = Vec::new();
        let mut age_sum: i128 = 0;
        let mut influence_sum: i128 = 0;
        let mut i: usize = 0;
        while i < n
            invariant
                i <= n == ids@.len(),
                v == self@,
                v.place <= i64::MAX,
                ids@.to_set() == with_influence(v),
                ages@ == ages_of(v, ids@).take(i as int),
                influences@ == influences_of(v, ids@).take(i as int),
                age_sum == age_total(v, ids@, i as int),
                influence_sum == influence_total(v, ids@, i as int),
                0 <= age_sum <= i * 0x7fff_ffff_ffff_ffff,
                -(i * 0x8000_0000_0000_0000) <= influence_sum <= i * 0x8000_0000_0000_0000,
            decreases n - i,
        {
            let id: u64 = ids[i];
            assert(ids@.to_set().contains(id));
            let (age, influence): (u64, i64) = match self.samples.get(id) {
                Some(s) => (
                    self.current_position.saturating_sub(s.position),
                    match s.cached_influence {
                        Some(x) => x,
                        None => 0,
                    },
                ),
                None => (0, 0),
            };
            assert(v.kept.contains_key(id));
            ages.push(age as i128);
            influences.push(influence as i128);
            age_sum = age_sum + age as i128;
            influence_sum = influence_sum + influence as i128;
            assert(ages@ =~= ages_of(v, ids@).take(i as int + 1));
            assert(influences@ =~= influences_of(v, ids@).take(i as int + 1));
            i = i + 1;
        }
        assert(ages@ =~= ages_of(v, ids@));
        assert(influences@ =~= influences_of(v, ids@));
        let (mean_age, mean_influence) = if n > 0 {
            (
                Fraction { num: age_sum, den: n as u128 },
                Fraction { num: influence_sum, den: n as u128 },
            )
        } else {
            (Fraction { num: 0, den: 1 }, Fraction { num: 0, den: 1 })
        };
        if n < 3 {
            let r = Diagnostics {
                n_samples: total,
                n_benign: self.count_minus,
                n_attack: self.count_plus,
                n_with_influence: n,
                influence_coverage,
                mean_age,
                mean_influence,
                age_influence_spearman: None,
            };
            assert(correlated(v, r, ids@));
            return r;
        }
        let a = rank(&ages);
        let b = rank(&influences);
        let mut together = Wide::zero();
        let mut apart = Wide::zero();
        let mut spread = Wide::zero();
        let mut j: usize = 0;
        while j < n
            invariant
                j <= n == a@.len(),
                n == b@.len(),
                3 <= n,
                forall|i: int| 0 <= i < n ==> #[trigger] a@[i] < n,
                forall|i: int| 0 <= i < n ==> #[trigger] b@[i] < n,
                together.value() - apart.value() == covariation(a@, b@, n as int, j as int),
                spread.value() == rank_spread(n as int, j as int),
                together.high <= j,
                apart.high <= j,
                spread.high <= j,
                j > 0 ==> spread.value() > 0,
            decreases n - j,
        {
            let (size, opposed) = crossed(a[j], b[j], n);
            if opposed {
                apart = apart.plus(size);
            } else {
                together = together.plus(size);
            }
            let (square, below) = crossed(j, j, n);
            proof {
                let c = off_centre(j as int, n as int);
                assert(c * c >= 0 && (c < 0 ==> c * c > 0)) by (nonlinear_arith);
                assert(below ==> square == 0);
            }
            spread = spread.plus(square);
            j = j + 1;
        }
        let r = Diagnostics {
            n_samples: total,
            n_benign: self.count_minus,
            n_attack: self.count_plus,
            n_with_influence: n,
            influence_coverage,
            mean_age,
            mean_influence,
            age_influence_spearman: Some(WideFraction::of_difference(&together, &apart, spread)),
        };
        proof {
            assert(ranks_by(ages_of(v, ids@), a@));
            assert(ranks_by(influences_of(v, ids@), b@));
            assert(correlated(v, r, ids@));
        }
        r
    }

    /// Lets all samples go, and forgets those that have gone before. The place in the
    /// stream, the limit and the budget stay.
    pub fn clear(&mut self)
        requires
            old(self).wf(),
        ensures
            final(self).wf(),
            final(self)@ == (RegistryView {
                kept: Map::empty(),
                order: Seq::empty(),
                bytes: 0,
                evictions: no_evictions(),
                ..old(self)@
            }),
    {
        self.samples.clear();
        self.position_index.clear();
        self.current_bytes = 0;
        self.count_minus = 0;
        self.count_plus = 0;
        self.cumulative_eviction_stats = EvictionStats::default();
        proof {
            assert(self@.kept =~= Map::<u64, TrackedView>::empty());
            assert(self@.order =~= Seq::<(u64, u64)>::empty());
            assert(of_class(self@.kept, false) =~= Set::<u64>::empty());
            assert(of_class(self@.kept, true) =~= Set::<u64>::empty());
        }
    }
}

impl Default for InfluenceRegistry {
    fn default() -> (r: Self)
        ensures
            r.wf(),
            r@ == blank_registry(DEFAULT_MEMORY_LIMIT),
    {
        InfluenceRegistry::new()
    }
}

} // verus!
