//! What a controller does from time to time: it works on the trees, and finds the
//! influences of samples again.

use super::{ControllerView, Clock, FeatureProvider, InfluenceStrategy, StreamingController};
use crate::forest::develop::forest_developed;
use crate::forest::influence::{average, has_influence};
use crate::forest::learn::all_full;
use crate::forest::vote::{any_pending, share};
use crate::fraction::Fraction;
use crate::registry::entry::INFLUENCE_ONE;
use crate::registry::report::influence_set;
use crate::registry::select::evenly;
use crate::registry::RegistryView;
use crate::sample::VecSample;
use vstd::prelude::*;

verus! {

/// Whether a list holds each sample once that has a class and features, with both.
pub open spec fn gathers(
    classes: Map<u64, bool>,
    store: Map<u64, Seq<i64>>,
    samples: Seq<VecSample>,
) -> bool {
    &&& forall|i: int|
        0 <= i < samples.len() ==> {
            let s = #[trigger] samples[i];
            &&& classes.contains_key(s.id)
            &&& store.contains_key(s.id)
            &&& s.values@ == store[s.id]
            &&& s.label == classes[s.id]
        }
    &&& forall|i: int, j: int|
        0 <= i < j < samples.len() ==> (#[trigger] samples[i]).id != (#[trigger] samples[j]).id
    &&& forall|id: u64|
        #![trigger classes.contains_key(id)]
        #![trigger store.contains_key(id)]
        classes.contains_key(id) && store.contains_key(id) ==> exists|i: int|
            0 <= i < samples.len() && (#[trigger] samples[i]).id == id
}

/// Whether a list gathers the samples that the first entries of another list name.
pub open spec fn gathers_from(
    classes: Map<u64, bool>,
    store: Map<u64, Seq<i64>>,
    ids: Seq<u64>,
    n: int,
    samples: Seq<VecSample>,
) -> bool {
    &&& forall|i: int|
        0 <= i < samples.len() ==> {
            let s = #[trigger] samples[i];
            &&& ids.take(n).contains(s.id)
            &&& classes.contains_key(s.id)
            &&& store.contains_key(s.id)
            &&& s.values@ == store[s.id]
            &&& s.label == classes[s.id]
        }
    &&& forall|i: int, j: int|
        0 <= i < j < samples.len() ==> (#[trigger] samples[i]).id != (#[trigger] samples[j]).id
    &&& forall|k: int|
        0 <= k < n && classes.contains_key(#[trigger] ids[k]) && store.contains_key(ids[k])
            ==> exists|i: int| 0 <= i < samples.len() && (#[trigger] samples[i]).id == ids[k]
}

/// One more entry has been looked at.
pub proof fn lemma_gathers_step(
    classes: Map<u64, bool>,
    store: Map<u64, Seq<i64>>,
    ids: Seq<u64>,
    n: int,
    before: Seq<VecSample>,
    after: Seq<VecSample>,
)
    requires
        0 <= n < ids.len(),
        ids.no_duplicates(),
        gathers_from(classes, store, ids, n, before),
        if classes.contains_key(ids[n]) && store.contains_key(ids[n]) {
            exists|s: VecSample| #[trigger]
                before.push(s) == after && s.id == ids[n] && s.values@ == store[ids[n]] && s.label
                    == classes[ids[n]]
        } else {
            after == before
        },
    ensures
        gathers_from(classes, store, ids, n + 1, after),
{
    let a = ids.take(n);
    let b = ids.take(n + 1);
    assert(b =~= a.push(ids[n]));
    assert forall|x: u64| a.contains(x) implies b.contains(x) by {
        assert(b[a.index_of(x)] == x);
    }
    assert(b[n] == ids[n]);
    assert(!a.contains(ids[n])) by {
        if a.contains(ids[n]) {
            assert(ids[a.index_of(ids[n])] == ids[n]);
        }
    }
    if classes.contains_key(ids[n]) && store.contains_key(ids[n]) {
        let s = choose|s: VecSample| #[trigger]
            before.push(s) == after && s.id == ids[n] && s.values@ == store[ids[n]] && s.label
                == classes[ids[n]];
        assert(after[before.len() as int] == s);
        assert forall|i: int, j: int| 0 <= i < j < after.len() implies (#[trigger] after[i]).id != (
        #[trigger] after[j]).id by {
            assert(after[i] == before[i]);
        }
        assert forall|k: int|
            0 <= k < n + 1 && classes.contains_key(#[trigger] ids[k]) && store.contains_key(
                ids[k],
            ) implies exists|i: int| 0 <= i < after.len() && (#[trigger] after[i]).id == ids[k] by {
            if k < n {
                let i = choose|i: int|
                    0 <= i < before.len() && (#[trigger] before[i]).id == ids[k];
                assert(after[i].id == ids[k]);
            } else {
                assert(after[before.len() as int].id == ids[k]);
            }
        }
    }
}

/// All entries have been looked at.
pub proof fn lemma_gathers_all(
    classes: Map<u64, bool>,
    store: Map<u64, Seq<i64>>,
    ids: Seq<u64>,
    samples: Seq<VecSample>,
)
    requires
        gathers_from(classes, store, ids, ids.len() as int, samples),
        forall|id: u64|
            classes.contains_key(id) && store.contains_key(id) ==> #[trigger] ids.contains(id),
    ensures
        gathers(classes, store, samples),
{
    assert forall|id: u64|
        classes.contains_key(id) && store.contains_key(id) implies exists|i: int|
        0 <= i < samples.len() && (#[trigger] samples[i]).id == id by {
        assert(ids.contains(id));
        let k = ids.index_of(id);
        assert(ids[k] == id);
    }
}

/// What the nodes that are too old are told by.
pub open spec fn develop_position(v: ControllerView) -> u64 {
    if v.config.split_max_age is Some {
        v.clock.total_samples
    } else {
        0
    }
}

/// What a controller becomes when it works on the trees: the nodes that are due are grown
/// anew from the samples that the forest has and whose features are kept. If no node is
/// marked and splits do not grow too old, nothing happens.
pub open spec fn developed_now(v: ControllerView, w: ControllerView) -> bool {
    if v.config.split_max_age is None && !any_pending(v.forest.forest()) {
        w == v
    } else {
        &&& w.forest.wf()
        &&& exists|samples: Seq<VecSample>| #[trigger]
            gathers(v.forest.classes(), v.store, samples) && forest_developed(
                v.forest,
                w.forest,
                samples,
                develop_position(v),
                v.config.split_max_age,
            )
        &&& w == (ControllerView {
            forest: w.forest,
            clock: Clock { since_develop: 0, ..v.clock },
            ..v
        })
    }
}

/// What a controller becomes when one more batch counts towards the work on the trees.
pub open spec fn ticked(v: ControllerView, w: ControllerView) -> bool {
    if v.config.develop_interval > 0 {
        let t = ControllerView {
            clock: Clock { since_develop: (v.clock.since_develop + 1) as u64, ..v.clock },
            ..v
        };
        if t.clock.since_develop >= v.config.develop_interval {
            developed_now(t, w)
        } else {
            w == t
        }
    } else {
        w == v
    }
}

/// A quotient without its fraction.
pub open spec fn towards_zero(a: int, b: int) -> int {
    if a >= 0 {
        a / b
    } else {
        -((-a) / b)
    }
}

/// A fraction in parts of 10^9.
pub open spec fn parts_of(f: Fraction) -> int {
    towards_zero(f.num * INFLUENCE_ONE, f.den as int)
}

/// Three tenths of a new value and seven tenths of an old one.
pub open spec fn blend(new: int, old: int) -> int {
    towards_zero(3 * new + 7 * old, 10)
}

/// The share of trees that are right about a sample.
pub open spec fn right_share(v: ControllerView, id: u64, label: bool) -> Fraction {
    let s = share(v.forest.forest(), v.store[id]);
    if label {
        s
    } else {
        Fraction { num: (s.den - s.num) as i128, den: s.den }
    }
}

/// The influence of a sample that a strategy finds, if it finds one.
pub open spec fn influence_found(v: ControllerView, known: RegistryView, id: u64) -> Option<int> {
    let told = v.held.len() > 0 && has_influence(v.forest, id);
    match v.config.influence_strategy {
        InfluenceStrategy::Oob => if told {
            Some(parts_of(average(v.forest, id, v.held)))
        } else {
            None
        },
        InfluenceStrategy::CumulativeOob => if told {
            let old = if known.kept.contains_key(id) && known.kept[id].cached_influence is Some {
                known.kept[id].cached_influence->0 as int
            } else {
                0
            };
            Some(blend(parts_of(average(v.forest, id, v.held)), old))
        } else {
            None
        },
        InfluenceStrategy::Confidence => if v.store.contains_key(id) && known.kept.contains_key(
            id,
        ) {
            Some(-parts_of(right_share(v, id, known.kept[id].label)))
        } else {
            None
        },
        _ => None,
    }
}

/// The registry once the influences of the first samples of a list have been found.
pub open spec fn influences_found(v: ControllerView, ids: Seq<u64>, n: int) -> RegistryView
    decreases n,
{
    if n <= 0 {
        v.registry
    } else {
        let known = influences_found(v, ids, n - 1);
        match influence_found(v, known, ids[n - 1]) {
            Some(x) => influence_set(known, ids[n - 1], x as i64),
            None => known,
        }
    }
}

/// The registry once influences have been found again for samples at even distances.
pub open spec fn influences_renewed(v: ControllerView) -> RegistryView {
    let ids = evenly(v.registry.order, v.config.influence_sample_count);
    influences_found(v, ids, ids.len() as int)
}

/// Whether it is time to find influences again, once the batches have been counted.
pub open spec fn influences_due(v: ControllerView) -> bool {
    v.clock.influence_updates as int % v.config.influence_update_interval as int == 0
}

/// What a controller becomes when it has counted a batch and done what is due. The losses
/// of trees are not found here: it is said whether they have to be.
pub open spec fn maintained(
    v: ControllerView,
    w: ControllerView,
    batch_size: int,
    loss_due: bool,
) -> bool {
    exists|a: ControllerView| #[trigger] worked_on(v, a) && settled_in(v, a, w, batch_size, loss_due)
}

/// What a controller becomes when it works on the trees, if that is due.
pub open spec fn worked_on(v: ControllerView, a: ControllerView) -> bool {
    if v.clock.is_warmed_up {
        ticked(v, a)
    } else {
        a == v
    }
}

/// What a controller becomes when it finds influences, if that is due, and counts the
/// samples of a batch.
pub open spec fn settled_in(
    v: ControllerView,
    a: ControllerView,
    w: ControllerView,
    batch_size: int,
    loss_due: bool,
) -> bool {
    let counts = v.clock.is_warmed_up && v.config.budget_enabled
        && v.config.influence_update_interval > 0;
    let b = if counts {
        ControllerView {
            clock: Clock { influence_updates: (a.clock.influence_updates + 1) as u64, ..a.clock },
            ..a
        }
    } else {
        a
    };
    let due = counts && influences_due(b);
    let c = if due {
        ControllerView { registry: influences_renewed(b), ..b }
    } else {
        b
    };
    let total = (c.clock.total_samples + batch_size) as u64;
    &&& w == (ControllerView {
        clock: Clock {
            total_samples: total,
            is_warmed_up: c.clock.is_warmed_up || total >= c.config.warmup_samples,
            ..c.clock
        },
        ..c
    })
    &&& loss_due == (due && v.config.influence_strategy == InfluenceStrategy::Loss)
}

/// Divides without the fraction.
fn divided_towards_zero(a: i128, b: u128) -> (r: i128)
    requires
        b > 0,
        a > i128::MIN,
    ensures
        r == towards_zero(a as int, b as int),
        -(if a >= 0 {
            a as int
        } else {
            -a
        }) <= r <= (if a >= 0 {
            a as int
        } else {
            -a
        }),
{
    if a >= 0 {
        let q: u128 = a as u128 / b;
        proof {
            lemma_quotient_range(a as int, b as int);
        }
        q as i128
    } else {
        let m: u128 = (-a) as u128;
        let q: u128 = m / b;
        proof {
            lemma_quotient_range(m as int, b as int);
        }
        -(q as i128)
    }
}

/// A quotient is no larger than what is divided.
proof fn lemma_quotient_range(a: int, b: int)
    requires
        a >= 0,
        b >= 1,
    ensures
        0 <= a / b <= a,
{
    assert(0 <= a / b <= a) by (nonlinear_arith)
        requires
            a >= 0,
            b >= 1,
    ;
}

/// A share is at most one either way when it is counted in parts.
proof fn lemma_parts_range(num: int, den: int)
    requires
        den > 0,
        -den <= num <= den,
    ensures
        -INFLUENCE_ONE <= towards_zero(num * INFLUENCE_ONE, den) <= INFLUENCE_ONE,
{
    let a = if num >= 0 {
        num
    } else {
        -num
    };
    assert(0 <= (a * 1_000_000_000) / den <= 1_000_000_000) by (nonlinear_arith)
        requires
            den > 0,
            0 <= a <= den,
    ;
    if num < 0 {
        assert(-(num * INFLUENCE_ONE) == a * INFLUENCE_ONE) by (nonlinear_arith)
            requires
                a == -num,
        ;
        if num * INFLUENCE_ONE >= 0 {
            assert(a == 0) by (nonlinear_arith)
                requires
                    a > 0 ==> a * INFLUENCE_ONE > 0,
                    num * INFLUENCE_ONE >= 0,
                    -(num * INFLUENCE_ONE) == a * INFLUENCE_ONE,
                    a >= 0,
            ;
        }
    }
}

/// Counts a share in parts.
fn share_in_parts(f: Fraction) -> (r: i64)
    requires
        f.wf(),
        -(f.den as int) <= f.num <= f.den <= usize::MAX,
    ensures
        r == parts_of(f),
        -INFLUENCE_ONE <= r <= INFLUENCE_ONE,
{
    proof {
        lemma_parts_range(f.num as int, f.den as int);
        assert(-0x1_0000_0000_0000_0000_0000_0000 < f.num * 1_000_000_000
            < 0x1_0000_0000_0000_0000_0000_0000) by (nonlinear_arith)
            requires
                -0x1_0000_0000_0000_0000 < f.num < 0x1_0000_0000_0000_0000,
        ;
    }
    divided_towards_zero(f.num * INFLUENCE_ONE as i128, f.den) as i64
}

/// Blends a new value with an old one.
fn blended(new: i64, old: i64) -> (r: i64)
    ensures
        r == blend(new as int, old as int),
{
    divided_towards_zero(3 * new as i128 + 7 * old as i128, 10) as i64
}

impl StreamingController {
    /// The samples that the forest has and whose features are kept.
    fn collect_current_samples(&self) -> (r: Vec<VecSample>)
        requires
            self.wf(),
        ensures
            gathers(self@.forest.classes(), self@.store, r@),
            all_full(r@, self@.config.num_features),
    {
        let ids = self.forest.get_all_sample_ids();
        let ghost classes = self@.forest.classes();
        let ghost store = self@.store;
        let mut samples: Vec<VecSample> = Vec::new();
        let mut i: usize = 0;
        while i < ids.len()
            invariant
                i <= ids@.len(),
                ids@.no_duplicates(),
                classes == self@.forest.classes(),
                store == self@.store,
                gathers_from(classes, store, ids@, i as int, samples@),
            decreases ids@.len() - i,
        {
            let id: u64 = ids[i];
            let ghost before = samples@;
            match (self.feature_store.get_features(id), self.forest.get_sample_label(id)) {
                (Some(values), Some(label)) => {
                    let sample = VecSample { id, values, label };
                    samples.push(sample);
                    assert(before.push(sample) == samples@);
                },
                _ => {},
            }
            proof {
                lemma_gathers_step(classes, store, ids@, i as int, before, samples@);
            }
            i = i + 1;
        }
        proof {
            assert forall|id: u64|
                classes.contains_key(id) && store.contains_key(id) implies #[trigger] ids@.contains(
                id,
            ) by {
                assert(classes.dom().contains(id));
                assert(ids@.to_set().contains(id));
            }
            lemma_gathers_all(classes, store, ids@, samples@);
            assert forall|k: int| 0 <= k < samples@.len() implies (#[trigger] samples@[k]).values@.len()
                >= self@.config.num_features by {
                assert(store.contains_key(samples@[k].id));
            }
        }
        samples
    }

    /// Works on the trees.
    pub(super) fn run_develop(&mut self)
        requires
            old(self).wf(),
        ensures
            final(self).wf(),
            developed_now(old(self)@, final(self)@),
    {
        let aged: bool = self.config.split_max_age.is_some();
        if !aged && !self.forest.has_pending_rebuilds() {
            return;
        }
        let samples = self.collect_current_samples();
        if aged {
            self.forest.develop_streaming_with_age(
                samples.as_slice(),
                self.clock.total_samples,
                self.config.split_max_age,
            );
        } else {
            self.forest.develop_streaming(samples.as_slice());
        }
        self.clock.since_develop = 0;
        assert(gathers(old(self)@.forest.classes(), old(self)@.store, samples@));
    }

    /// Works on the trees if that is due.
    fn maybe_develop(&mut self)
        requires
            old(self).wf(),
            old(self)@.clock.since_develop < u64::MAX,
        ensures
            final(self).wf(),
            ticked(old(self)@, final(self)@),
    {
        if self.config.develop_interval > 0 {
            self.clock.since_develop = self.clock.since_develop + 1;
            if self.clock.since_develop >= self.config.develop_interval {
                self.run_develop();
            }
        }
    }

    /// Finds the influence of a sample.
    fn find_influence(&self, id: u64, start: Ghost<ControllerView>) -> (r: Option<i64>)
        requires
            self.wf(),
            self@ == (ControllerView { registry: self@.registry, ..start@ }),
        ensures
            match r {
                Some(x) => influence_found(start@, self@.registry, id) == Some(x as int),
                None => influence_found(start@, self@.registry, id) is None,
            },
    {
        proof {
            assert(all_full(self@.held, self@.config.num_features));
        }
        match self.config.influence_strategy {
            InfluenceStrategy::Oob => {
                match self.forest.compute_oob_influence_batch(
                    id,
                    self.last_batch_samples.as_slice(),
                ) {
                    Some(f) => Some(share_in_parts(f)),
                    None => None,
                }
            },
            InfluenceStrategy::CumulativeOob => {
                match self.forest.compute_oob_influence_batch(
                    id,
                    self.last_batch_samples.as_slice(),
                ) {
                    Some(f) => {
                        let old: i64 = match self.registry.get_influence(id) {
                            Some(x) => x,
                            None => 0,
                        };
                        Some(blended(share_in_parts(f), old))
                    },
                    None => None,
                }
            },
            InfluenceStrategy::Confidence => {
                match (self.feature_store.get_features(id), self.registry.get_label(id)) {
                    (Some(values), Some(label)) => {
                        let sample = VecSample { id, values, label };
                        let proba = self.forest.predict_proba(&sample);
                        let correct = if label {
                            proba
                        } else {
                            Fraction { num: proba.den as i128 - proba.num, den: proba.den }
                        };
                        Some(-share_in_parts(correct))
                    },
                    _ => None,
                }
            },
            _ => None,
        }
    }

    /// Finds the influences of some samples again.
    fn update_sample_influences(&mut self)
        requires
            old(self).wf(),
        ensures
            final(self).wf(),
            final(self)@ == (ControllerView {
                registry: influences_renewed(old(self)@),
                ..old(self)@
            }),
    {
        let ids = self.registry.get_sample_ids_uniform(self.config.influence_sample_count);
        let ghost v = self@;
        let mut i: usize = 0;
        while i < ids.len()
            invariant
                i <= ids@.len(),
                self.wf(),
                self@ == (ControllerView {
                    registry: influences_found(v, ids@, i as int),
                    ..v
                }),
            decreases ids@.len() - i,
        {
            let id: u64 = ids[i];
            match self.find_influence(id, Ghost(v)) {
                Some(x) => {
                    self.registry.set_influence(id, x);
                },
                None => {},
            }
            i = i + 1;
        }
    }

    /// Does what is due after a batch, and counts the samples of the batch. Says whether
    /// the losses of trees have to be found.
    pub(super) fn periodic_maintenance(&mut self, batch_size: usize) -> (r: bool)
        requires
            old(self).wf(),
            old(self)@.clock.since_develop < u64::MAX,
            old(self)@.clock.influence_updates < u64::MAX,
            old(self)@.clock.total_samples + batch_size < u64::MAX,
        ensures
            final(self).wf(),
            maintained(old(self)@, final(self)@, batch_size as int, r),
    {
        let warm: bool = self.clock.is_warmed_up;
        if warm {
            self.maybe_develop();
        }
        let ghost a = self@;
        let mut loss_due = false;
        if warm && self.config.budget_enabled && self.config.influence_update_interval > 0 {
            self.clock.influence_updates = self.clock.influence_updates + 1;
            if self.clock.influence_updates % self.config.influence_update_interval as u64 == 0 {
                self.update_sample_influences();
                loss_due = self.config.influence_strategy == InfluenceStrategy::Loss;
            }
        }
        self.clock.total_samples = self.clock.total_samples + batch_size as u64;
        if !self.clock.is_warmed_up && self.clock.total_samples
            >= self.config.warmup_samples as u64 {
            self.clock.is_warmed_up = true;
        }
        assert(worked_on(old(self)@, a));
        assert(settled_in(old(self)@, a, self@, batch_size as int, loss_due));
        loss_due
    }

    /// The samples for which the losses of trees have to be found: those at even
    /// distances, with the shares of positive votes for each sample of the latest batch
    /// among the trees that have learnt them and among the others.
    pub fn loss_samples(&self) -> (r: Vec<u64>)
        requires
            self.wf(),
        ensures
            r@ == evenly(self@.registry.order, self@.config.influence_sample_count),
    {
        self.registry.get_sample_ids_uniform(self.config.influence_sample_count)
    }

    /// The latest batch.
    pub fn last_batch(&self) -> (r: &Vec<VecSample>)
        requires
            self.wf(),
        ensures
            r@ == self@.held,
            all_full(r@, self@.config.num_features),
    {
        &self.last_batch_samples
    }

    /// Notes the influence of a sample that was found elsewhere.
    pub fn set_influence(&mut self, sample_id: u64, influence: i64)
        requires
            old(self).wf(),
        ensures
            final(self).wf(),
            final(self)@ == (ControllerView {
                registry: influence_set(old(self)@.registry, sample_id, influence),
                ..old(self)@
            }),
    {
        self.registry.set_influence(sample_id, influence);
    }
}

} // verus!
