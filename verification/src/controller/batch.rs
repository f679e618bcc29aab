//! Following the stream batch by batch.

use super::maintain::{developed_now, maintained};
use super::window::{distances_noted, refit, refitted, retrained, trees_of};
use super::{copy_values, Clock, ControllerView, FeatureProvider, StreamingController};
use crate::forest::learn::all_full;
use crate::forest::stream::{learnt_all, lemma_learnt_members, streams_on};
use crate::forest::unlearn::forgot_known_all;
use crate::forest::vote::decision;
use crate::forest::DynFrsForest;
use crate::fraction::Fraction;
use crate::metrics::streaming::{counted_on, kept_on, paired, MetricsTracker, StreamingMetrics};
use crate::registry::evict::{lemma_limited_place, limited};
use crate::registry::{with_each, RegistryView};
use crate::sample::VecSample;
use vstd::prelude::*;

verus! {

/// What following a batch has led to.
pub struct StreamingResult {
    /// The predictions that were made before the batch was learnt.
    pub predictions: Vec<bool>,
    pub metrics: StreamingMetrics,
    /// How many samples are kept.
    pub registry_size: usize,
    /// The estimate of the memory that what is kept of them takes, in MiB.
    pub memory_mb: Fraction,
    /// How many samples have been seen.
    pub total_samples: u64,
    /// How many samples have gone for the budget.
    pub budget_evicted: usize,
    /// Whether the losses of trees have to be found and noted.
    pub loss_due: bool,
}

/// Whether every row has a value for each attribute.
pub open spec fn rows_full(features: Seq<Vec<i64>>, width: u8) -> bool {
    forall|i: int| 0 <= i < features.len() ==> (#[trigger] features[i])@.len() >= width
}

/// Whether rows and classes make a batch: there are rows, and as many classes.
pub open spec fn is_batch(features: Seq<Vec<i64>>, labels: Seq<bool>) -> bool {
    features.len() > 0 && labels.len() == features.len()
}

/// Whether samples carry rows and classes, and are numbered from a first number on.
pub open spec fn carries(
    samples: Seq<VecSample>,
    first: int,
    features: Seq<Vec<i64>>,
    labels: Seq<bool>,
) -> bool {
    &&& samples.len() == features.len()
    &&& forall|i: int|
        0 <= i < samples.len() ==> {
            let s = #[trigger] samples[i];
            &&& s.id == first + i
            &&& s.values@ == features[i]@
            &&& s.label == labels[i]
        }
}

/// The features that are kept once those of the first samples of a list are.
pub open spec fn store_with(store: Map<u64, Seq<i64>>, samples: Seq<VecSample>, n: int) -> Map<
    u64,
    Seq<i64>,
>
    decreases n,
{
    if n <= 0 {
        store
    } else {
        store_with(store, samples, n - 1).insert(samples[n - 1].id, samples[n - 1].values@)
    }
}

/// The registry once the first samples of a list have come.
pub open spec fn with_all(
    v: RegistryView,
    samples: Seq<VecSample>,
    members: Map<u64, Seq<usize>>,
    n: int,
) -> RegistryView
    decreases n,
{
    if n <= 0 {
        v
    } else {
        with_all(v, samples, members, n - 1).with(
            samples[n - 1].id,
            trees_of(members, samples[n - 1].id),
            samples[n - 1].label,
        )
    }
}

/// Whether distances have to be found, once the samples that have come are counted.
pub open spec fn distances_due(v: ControllerView, counted: int) -> bool {
    &&& v.config.budget_use_feature_distance
    &&& v.config.budget_enabled
    &&& v.store.len() > v.config.budget_max_samples * 4 / 5
    &&& counted >= v.config.feat_dist_update_interval
}

/// What a controller becomes when the features of samples have been kept and the forest
/// has learnt them.
pub open spec fn taken_in(
    v: ControllerView,
    samples: Seq<VecSample>,
    forest: DynFrsForest,
) -> ControllerView {
    let n = samples.len() as int;
    let counted = if v.config.budget_use_feature_distance && v.config.budget_enabled {
        (v.clock.since_distances + n) as u64
    } else {
        v.clock.since_distances
    };
    let seen = ControllerView {
        forest,
        store: store_with(v.store, samples, n),
        clock: Clock {
            next_sample_id: (v.clock.next_sample_id + n) as u64,
            since_distances: counted,
            ..v.clock
        },
        ..v
    };
    if distances_due(seen, counted as int) {
        ControllerView {
            registry: distances_noted(seen),
            clock: Clock { since_distances: 0, ..seen.clock },
            ..seen
        }
    } else {
        seen
    }
}

/// What a controller becomes when samples come: their features are kept, the forest
/// learns them, and the registry keeps them and lets others go.
pub open spec fn arrived(
    v: ControllerView,
    w: ControllerView,
    samples: Seq<VecSample>,
    gone: Seq<u64>,
) -> bool {
    let n = samples.len() as int;
    let seen = taken_in(v, samples, w.forest);
    &&& exists|r: (usize, usize)| learnt_all(v.forest, w.forest, samples, true, r)
    &&& limited(with_all(seen.registry, samples, w.forest.members(), n), w.registry, gone)
    &&& w == (ControllerView {
        registry: w.registry,
        clock: Clock { position: (v.clock.position + n) as u64, ..seen.clock },
        ..seen
    })
}

/// What a controller becomes when samples have gone from the registry: their features are
/// given up, and, as the configuration says, the forest forgets them and is worked on, or
/// is grown anew after every so many batches, or keeps what it has learnt from them.
pub open spec fn let_go(v: ControllerView, w: ControllerView, gone: Seq<u64>) -> bool {
    let less = ControllerView { store: v.store.remove_keys(gone.to_set()), ..v };
    if gone.len() == 0 {
        w == v
    } else if v.config.window_retrain_mode {
        let c = ControllerView {
            clock: Clock { since_retrain: (v.clock.since_retrain + 1) as u64, ..v.clock },
            ..less
        };
        if c.clock.since_retrain >= v.config.window_retrain_interval {
            exists|z: ControllerView| #[trigger]
                retrained(c, z) && w == (ControllerView {
                    clock: Clock { since_retrain: 0, ..z.clock },
                    ..z
                })
        } else {
            w == c
        }
    } else if !v.config.budget_skip_forest_forget {
        exists|f: DynFrsForest| #[trigger]
            forgot_known_all(v.forest, f, gone, v.store) && developed_now(
                ControllerView { forest: f, ..less },
                w,
            )
    } else {
        w == less
    }
}

/// What a controller becomes when it learns a batch.
pub open spec fn batch_added(
    v: ControllerView,
    w: ControllerView,
    features: Seq<Vec<i64>>,
    labels: Seq<bool>,
) -> bool {
    exists|samples: Seq<VecSample>, mid: ControllerView, gone: Seq<u64>|
        {
            &&& carries(samples, v.clock.next_sample_id as int, features, labels)
            &&& #[trigger] arrived(v, mid, samples, gone)
            &&& #[trigger] let_go(mid, w, gone)
        }
}

/// The predictions of a forest for rows.
pub open spec fn predictions_of(forest: DynFrsForest, features: Seq<Vec<i64>>) -> Seq<bool> {
    Seq::new(features.len(), |i: int| decision(forest.forest(), features[i]@))
}

/// Whether predictions have been counted.
pub open spec fn metrics_counted(
    before: MetricsTracker,
    after: MetricsTracker,
    labels: Seq<bool>,
    predictions: Seq<bool>,
) -> bool {
    &&& after.window() == before.window()
    &&& after.all() == counted_on(before.all(), paired(labels, predictions))
    &&& after.latest() == kept_on(before.latest(), before.window(), paired(labels, predictions))
}

/// What a controller becomes when it has predicted a batch: the batch is held for finding
/// influences, and the predictions are counted.
pub open spec fn predicted(
    v: ControllerView,
    w: ControllerView,
    features: Seq<Vec<i64>>,
    labels: Seq<bool>,
) -> bool {
    &&& if v.config.budget_enabled && v.config.influence_update_interval > 0 {
        carries(w.held, v.clock.position as int, features, labels)
    } else {
        w.held == v.held
    }
    &&& metrics_counted(v.metrics, w.metrics, labels, predictions_of(v.forest, features))
    &&& w == (ControllerView { held: w.held, metrics: w.metrics, ..v })
}

/// What is said of a controller.
pub open spec fn reports(r: StreamingResult, v: ControllerView) -> bool {
    &&& r.metrics.measures(v.metrics.current())
    &&& r.registry_size == v.registry.kept.len()
    &&& r.memory_mb == (Fraction { num: v.registry.bytes as i128, den: 1048576 })
    &&& r.total_samples == v.clock.total_samples
}

/// How many more samples have gone for the budget.
pub open spec fn evicted_since(before: RegistryView, after: RegistryView) -> int {
    if after.evictions.evicted_count >= before.evictions.evicted_count {
        after.evictions.evicted_count - before.evictions.evicted_count
    } else {
        0
    }
}

/// What a controller becomes when it follows a batch, and what it says: it predicts the
/// batch before it learns it, and then does what is due.
pub open spec fn streamed(
    v: ControllerView,
    w: ControllerView,
    features: Seq<Vec<i64>>,
    labels: Seq<bool>,
    r: StreamingResult,
) -> bool {
    &&& r.predictions@ == predictions_of(v.forest, features)
    &&& reports(r, w)
    &&& exists|a: ControllerView, b: ControllerView|
        {
            &&& #[trigger] predicted(v, a, features, labels)
            &&& #[trigger] batch_added(a, b, features, labels)
            &&& maintained(b, w, features.len() as int, r.loss_due)
            &&& r.budget_evicted == evicted_since(a.registry, b.registry)
        }
}

/// What a registry becomes when a sample comes: it is kept, and others go.
pub open spec fn registered(
    before: RegistryView,
    after: RegistryView,
    sample: VecSample,
    members: Map<u64, Seq<usize>>,
) -> bool {
    exists|gone: Seq<u64>|
        limited(
            before.with(sample.id, trees_of(members, sample.id), sample.label),
            after,
            gone,
        )
}

/// Whether each of some registries comes from the one before when a sample comes.
pub open spec fn registered_each(
    steps: Seq<RegistryView>,
    samples: Seq<VecSample>,
    members: Map<u64, Seq<usize>>,
) -> bool {
    &&& steps.len() == samples.len() + 1
    &&& forall|i: int|
        0 <= i < samples.len() ==> registered(
            steps[i],
            steps[i + 1],
            #[trigger] samples[i],
            members,
        )
}

/// What a controller becomes when the forest is grown from samples at the start. Samples
/// that go from the registry meanwhile are not forgotten by the forest.
pub open spec fn started_from(
    v: ControllerView,
    w: ControllerView,
    samples: Seq<VecSample>,
    predictions: Seq<bool>,
    labels: Seq<bool>,
) -> bool {
    let n = samples.len() as int;
    &&& exists|fit: DynFrsForest| #[trigger]
        refitted(v.forest, fit, samples) && streams_on(fit, w.forest, samples)
    &&& exists|steps: Seq<RegistryView>|
        {
            &&& #[trigger] registered_each(steps, samples, w.forest.members())
            &&& steps[0] == v.registry
            &&& steps.last() == w.registry
        }
    &&& metrics_counted(v.metrics, w.metrics, labels, predictions)
    &&& w == (ControllerView {
        forest: w.forest,
        registry: w.registry,
        metrics: w.metrics,
        store: store_with(v.store, samples, n),
        clock: Clock {
            position: (v.clock.position + n) as u64,
            total_samples: n as u64,
            is_warmed_up: true,
            next_sample_id: (v.clock.next_sample_id + n) as u64,
            initial_fit_done: true,
            ..v.clock
        },
        ..v
    })
}

/// What a controller becomes when the forest is grown from rows at the start.
pub open spec fn started(
    v: ControllerView,
    w: ControllerView,
    features: Seq<Vec<i64>>,
    labels: Seq<bool>,
) -> bool {
    exists|samples: Seq<VecSample>| #[trigger]
        carries(samples, v.clock.next_sample_id as int, features, labels) && started_from(
            v,
            w,
            samples,
            predictions_of(w.forest, features),
            labels,
        )
}

/// What is kept of features once those of samples are.
proof fn lemma_store_with(
    store: Map<u64, Seq<i64>>,
    samples: Seq<VecSample>,
    first: int,
    features: Seq<Vec<i64>>,
    labels: Seq<bool>,
    n: int,
    width: u8,
)
    requires
        0 <= n <= samples.len(),
        carries(samples, first, features, labels),
        rows_full(features, width),
        super::store_full(store, width),
        store.dom().finite(),
        forall|id: u64| #[trigger] store.contains_key(id) ==> id < first,
    ensures
        super::store_full(store_with(store, samples, n), width),
        store_with(store, samples, n).dom().finite(),
        store_with(store, samples, n).len() == store.len() + n,
        forall|id: u64| #[trigger]
            store_with(store, samples, n).contains_key(id) <==> store.contains_key(id) || first
                <= id < first + n,
    decreases n,
{
    if n > 0 {
        lemma_store_with(store, samples, first, features, labels, n - 1, width);
        let before = store_with(store, samples, n - 1);
        let s = samples[n - 1];
        assert(s.id == first + n - 1);
        assert(features[n - 1]@.len() >= width);
        assert(!before.contains_key(s.id));
        assert(store_with(store, samples, n).dom() =~= before.dom().insert(s.id));
    }
}

/// Two ways to say that samples have come.
proof fn lemma_with_all(
    v: RegistryView,
    samples: Seq<VecSample>,
    members: Map<u64, Seq<usize>>,
    ids: Seq<u64>,
    trees: Seq<Vec<usize>>,
    labels: Seq<bool>,
    n: int,
)
    requires
        0 <= n <= samples.len(),
        ids.len() == samples.len(),
        trees.len() == samples.len(),
        labels.len() == samples.len(),
        forall|i: int|
            0 <= i < samples.len() ==> ids[i] == (#[trigger] samples[i]).id && labels[i]
                == samples[i].label && trees[i]@ == trees_of(members, samples[i].id),
    ensures
        with_each(v, ids, trees, labels, n) == with_all(v, samples, members, n),
    decreases n,
{
    if n > 0 {
        lemma_with_all(v, samples, members, ids, trees, labels, n - 1);
        assert(ids[n - 1] == samples[n - 1].id);
    }
}

/// A sample that goes from the registry is forgotten by the forest, and its features are
/// given up, unless the configuration says otherwise.
pub proof fn law_evicted_is_forgotten(v: ControllerView, w: ControllerView, gone: Seq<u64>, id: u64)
    requires
        let_go(v, w, gone),
        !v.config.window_retrain_mode,
        !v.config.budget_skip_forest_forget,
        gone.contains(id),
    ensures
        !w.forest.members().contains_key(id),
        !w.store.contains_key(id),
{
    let less = ControllerView { store: v.store.remove_keys(gone.to_set()), ..v };
    assert(gone.to_set().contains(id));
    let f = choose|f: DynFrsForest| #[trigger]
        forgot_known_all(v.forest, f, gone, v.store) && developed_now(
            ControllerView { forest: f, ..less },
            w,
        );
    assert(!f.members().contains_key(id));
}

/// If the forest has learnt exactly the samples whose features are kept, then it still has
/// after another batch, whichever samples have gone.
pub proof fn law_forest_follows_the_store(
    v: ControllerView,
    w: ControllerView,
    features: Seq<Vec<i64>>,
    labels: Seq<bool>,
)
    requires
        v.forest.members().dom() == v.store.dom(),
        batch_added(v, w, features, labels),
        !v.config.window_retrain_mode,
        !v.config.budget_skip_forest_forget,
    ensures
        w.forest.members().dom() == w.store.dom(),
{
    let (samples, mid, gone) = choose|
        samples: Seq<VecSample>,
        mid: ControllerView,
        gone: Seq<u64>,
    |
        {
            &&& carries(samples, v.clock.next_sample_id as int, features, labels)
            &&& #[trigger] arrived(v, mid, samples, gone)
            &&& #[trigger] let_go(mid, w, gone)
        };
    law_batch_is_learnt(v, mid, samples, gone);
    lemma_store_ids(v.store, samples, samples.len() as int);
    assert(mid.forest.members().dom() =~= mid.store.dom()) by {
        assert forall|id: u64| mid.forest.members().dom().contains(id) == mid.store.dom().contains(
            id,
        ) by {
            assert(mid.forest.members().contains_key(id) <==> v.forest.members().contains_key(id)
                || exists|i: int| 0 <= i < samples.len() && (#[trigger] samples[i]).id == id);
            assert(v.forest.members().dom().contains(id) == v.store.dom().contains(id));
        }
    }
    if gone.len() > 0 {
        let less = ControllerView { store: mid.store.remove_keys(gone.to_set()), ..mid };
        let f = choose|f: DynFrsForest| #[trigger]
            forgot_known_all(mid.forest, f, gone, mid.store) && developed_now(
                ControllerView { forest: f, ..less },
                w,
            );
        assert(f.members().dom() =~= less.store.dom());
        assert(w.forest.members() == f.members());
    }
}

/// Whose features are kept once those of samples are.
proof fn lemma_store_ids(store: Map<u64, Seq<i64>>, samples: Seq<VecSample>, n: int)
    requires
        0 <= n <= samples.len(),
    ensures
        forall|id: u64| #[trigger]
            store_with(store, samples, n).contains_key(id) <==> store.contains_key(id) || exists|
                i: int,
            |
                0 <= i < n && (#[trigger] samples[i]).id == id,
    decreases n,
{
    if n > 0 {
        lemma_store_ids(store, samples, n - 1);
        let before = store_with(store, samples, n - 1);
        let after = store_with(store, samples, n);
        assert forall|id: u64| #[trigger] after.contains_key(id) <==> store.contains_key(id)
            || exists|i: int| 0 <= i < n && (#[trigger] samples[i]).id == id by {
            assert(after.contains_key(id) <==> before.contains_key(id) || id == samples[n - 1].id);
            if before.contains_key(id) && !store.contains_key(id) {
                let i = choose|i: int| 0 <= i < n - 1 && (#[trigger] samples[i]).id == id;
                assert(samples[i].id == id);
            }
            if exists|i: int| 0 <= i < n && (#[trigger] samples[i]).id == id {
                let i = choose|i: int| 0 <= i < n && (#[trigger] samples[i]).id == id;
                if i < n - 1 {
                    assert(samples[i].id == id);
                    assert(before.contains_key(id));
                }
            }
        }
    }
}

/// The samples that a batch brings are numbered on, so that none of them has been seen
/// before: the forest has all of them and what it had before.
pub proof fn law_batch_is_learnt(
    v: ControllerView,
    w: ControllerView,
    samples: Seq<VecSample>,
    gone: Seq<u64>,
)
    requires
        arrived(v, w, samples, gone),
    ensures
        forall|id: u64| #[trigger]
            w.forest.members().contains_key(id) <==> v.forest.members().contains_key(id) || exists|
                i: int,
            |
                0 <= i < samples.len() && (#[trigger] samples[i]).id == id,
{
    let r = choose|r: (usize, usize)| learnt_all(v.forest, w.forest, samples, true, r);
    lemma_learnt_members(v.forest, w.forest, samples, true, r);
}

/// Numbers rows from a first number on.
fn number_rows(features: &[Vec<i64>], labels: &[bool], first: u64) -> (r: Vec<VecSample>)
    requires
        features@.len() == labels@.len(),
        first + features@.len() <= u64::MAX,
    ensures
        carries(r@, first as int, features@, labels@),
{
    let mut samples: Vec<VecSample> = Vec::new();
    let mut i: usize = 0;
    while i < features.len()
        invariant
            i <= features@.len() == labels@.len(),
            first + features@.len() <= u64::MAX,
            samples@.len() == i,
            forall|j: int|
                0 <= j < samples@.len() ==> {
                    let s = #[trigger] samples@[j];
                    &&& s.id == first + j
                    &&& s.values@ == features@[j]@
                    &&& s.label == labels@[j]
                },
        decreases features@.len() - i,
    {
        let values = copy_values(&features[i]);
        samples.push(VecSample { id: first + i as u64, values, label: labels[i] });
        i = i + 1;
    }
    samples
}

/// Samples carry full rows if the rows are full.
proof fn lemma_carries_full(
    samples: Seq<VecSample>,
    first: int,
    features: Seq<Vec<i64>>,
    labels: Seq<bool>,
    width: u8,
)
    requires
        carries(samples, first, features, labels),
        rows_full(features, width),
    ensures
        all_full(samples, width),
{
    assert forall|i: int| 0 <= i < samples.len() implies (#[trigger] samples[i]).values@.len()
        >= width by {
        assert(features[i]@.len() >= width);
    }
}

impl StreamingController {
    /// Tells whether every row has a value for each attribute.
    pub fn fits(&self, features: &[Vec<i64>]) -> (r: bool)
        ensures
            r == rows_full(features@, self@.config.num_features),
    {
        let mut i: usize = 0;
        while i < features.len()
            invariant
                i <= features@.len(),
                forall|j: int|
                    0 <= j < i ==> (#[trigger] features@[j])@.len() >= self@.config.num_features,
            decreases features@.len() - i,
        {
            if features[i].len() < self.config.num_features as usize {
                assert(features@[i as int]@.len() < self@.config.num_features);
                return false;
            }
            i = i + 1;
        }
        true
    }

    /// Predicts the classes of rows.
    fn predict_batch(&self, features: &[Vec<i64>]) -> (r: Vec<bool>)
        requires
            self.wf(),
            rows_full(features@, self@.config.num_features),
        ensures
            r@ == predictions_of(self@.forest, features@),
    {
        let mut list: Vec<bool> = Vec::new();
        let mut i: usize = 0;
        while i < features.len()
            invariant
                i <= features@.len(),
                self.wf(),
                rows_full(features@, self@.config.num_features),
                list@ == predictions_of(self@.forest, features@).take(i as int),
            decreases features@.len() - i,
        {
            assert(features@[i as int]@.len() >= self@.config.num_features);
            let sample = VecSample { id: i as u64, values: copy_values(&features[i]), label: false };
            let prediction: bool = self.forest.predict(&sample);
            list.push(prediction);
            i = i + 1;
            assert(list@ =~= predictions_of(self@.forest, features@).take(i as int));
        }
        assert(list@ =~= predictions_of(self@.forest, features@));
        list
    }

    /// Predicts the classes of rows, and nothing else.
    pub fn predict_batch_only(&self, features: &[Vec<i64>]) -> (r: Vec<bool>)
        requires
            self.wf(),
            rows_full(features@, self@.config.num_features),
        ensures
            r@ == predictions_of(self@.forest, features@),
    {
        self.predict_batch(features)
    }

    /// Keeps the features of samples.
    fn store_features(&mut self, samples: &Vec<VecSample>)
        ensures
            final(self).forest == old(self).forest,
            final(self).registry == old(self).registry,
            final(self).metrics == old(self).metrics,
            final(self).config == old(self).config,
            final(self).clock == old(self).clock,
            final(self).last_batch_samples == old(self).last_batch_samples,
            final(self).feature_store@ == store_with(
                old(self).feature_store@,
                samples@,
                samples@.len() as int,
            ),
    {
        let mut i: usize = 0;
        while i < samples.len()
            invariant
                i <= samples@.len(),
                self.forest == old(self).forest,
                self.registry == old(self).registry,
                self.metrics == old(self).metrics,
                self.config == old(self).config,
                self.clock == old(self).clock,
                self.last_batch_samples == old(self).last_batch_samples,
                self.feature_store@ == store_with(old(self).feature_store@, samples@, i as int),
            decreases samples@.len() - i,
        {
            let values = copy_values(&samples[i].values);
            self.feature_store.insert(samples[i].id, values);
            i = i + 1;
        }
    }

    /// Gives up the features of samples.
    fn drop_features(&mut self, ids: &Vec<u64>)
        ensures
            final(self).forest == old(self).forest,
            final(self).registry == old(self).registry,
            final(self).metrics == old(self).metrics,
            final(self).config == old(self).config,
            final(self).clock == old(self).clock,
            final(self).last_batch_samples == old(self).last_batch_samples,
            final(self).feature_store@ == old(self).feature_store@.remove_keys(ids@.to_set()),
    {
        let mut i: usize = 0;
        assert(self.feature_store@ =~= self.feature_store@.remove_keys(ids@.take(0).to_set()));
        while i < ids.len()
            invariant
                i <= ids@.len(),
                self.forest == old(self).forest,
                self.registry == old(self).registry,
                self.metrics == old(self).metrics,
                self.config == old(self).config,
                self.clock == old(self).clock,
                self.last_batch_samples == old(self).last_batch_samples,
                self.feature_store@ == old(self).feature_store@.remove_keys(
                    ids@.take(i as int).to_set(),
                ),
            decreases ids@.len() - i,
        {
            let _ = self.feature_store.remove(ids[i]);
            proof {
                let a = ids@.take(i as int);
                let b = ids@.take(i as int + 1);
                assert(b =~= a.push(ids@[i as int]));
                assert forall|x: u64| b.contains(x) == (a.contains(x) || x == ids@[i as int]) by {
                    if a.contains(x) {
                        assert(b[a.index_of(x)] == x);
                    }
                    assert(b[i as int] == ids@[i as int]);
                }
                assert(self.feature_store@ =~= old(self).feature_store@.remove_keys(b.to_set()));
            }
            i = i + 1;
        }
        assert(ids@.take(i as int) =~= ids@);
    }

    /// Keeps the features of samples and lets the forest learn them.
    fn take_in(&mut self, samples: &Vec<VecSample>, features: Ghost<Seq<Vec<i64>>>, labels: Ghost<Seq<bool>>)
        requires
            old(self).wf(),
            old(self)@.has_room(samples@.len() as int),
            carries(samples@, old(self)@.clock.next_sample_id as int, features@, labels@),
            rows_full(features@, old(self)@.config.num_features),
        ensures
            final(self).wf(),
            exists|r: (usize, usize)|
                learnt_all(old(self)@.forest, final(self)@.forest, samples@, true, r),
            final(self)@ == taken_in(old(self)@, samples@, final(self)@.forest),
    {
        let ghost v = self@;
        let ghost n = samples@.len() as int;
        self.store_features(samples);
        proof {
            lemma_store_with(
                v.store,
                samples@,
                v.clock.next_sample_id as int,
                features@,
                labels@,
                n,
                v.config.num_features,
            );
            lemma_carries_full(
                samples@,
                v.clock.next_sample_id as int,
                features@,
                labels@,
                v.config.num_features,
            );
        }
        self.clock.next_sample_id = self.clock.next_sample_id + samples.len() as u64;
        let r = self.forest.add_samples_streaming(samples.as_slice(), true);
        proof {
            assert(learnt_all(v.forest, self@.forest, samples@, true, r));
            lemma_learnt_members(v.forest, self@.forest, samples@, true, r);
            assert forall|id: u64| #[trigger] self@.forest.members().contains_key(id) implies id
                < self@.clock.next_sample_id by {
                if !v.forest.members().contains_key(id) {
                    let i = choose|i: int| 0 <= i < samples@.len() && (#[trigger] samples@[i]).id == id;
                    assert(samples@[i].id == v.clock.next_sample_id + i);
                }
            }
        }
        if self.config.budget_use_feature_distance && self.config.budget_enabled {
            self.clock.since_distances = self.clock.since_distances + samples.len() as u64;
            let near: bool = self.feature_store.len() as u128
                > self.config.budget_max_samples as u128 * 4 / 5;
            if near && self.clock.since_distances >= self.config.feat_dist_update_interval {
                self.update_feature_distance_scores();
                self.clock.since_distances = 0;
            }
        }
    }

    /// Lets the registry keep samples that have come. Says which have gone.
    fn register_samples(&mut self, samples: &Vec<VecSample>) -> (r: Vec<u64>)
        requires
            old(self).wf(),
            old(self)@.registry.place + samples@.len() <= i64::MAX,
            old(self)@.clock.position + samples@.len() <= u64::MAX,
        ensures
            final(self).wf(),
            limited(
                with_all(
                    old(self)@.registry,
                    samples@,
                    old(self)@.forest.members(),
                    samples@.len() as int,
                ),
                final(self)@.registry,
                r@,
            ),
            final(self)@ == (ControllerView {
                registry: final(self)@.registry,
                clock: Clock {
                    position: (old(self)@.clock.position + samples@.len()) as u64,
                    ..old(self)@.clock
                },
                ..old(self)@
            }),
    {
        let ghost members = self@.forest.members();
        let mut ids: Vec<u64> = Vec::new();
        let mut trees: Vec<Vec<usize>> = Vec::new();
        let mut labels: Vec<bool> = Vec::new();
        let mut i: usize = 0;
        while i < samples.len()
            invariant
                i <= samples@.len(),
                ids@.len() == i,
                trees@.len() == i,
                labels@.len() == i,
                members == self@.forest.members(),
                forall|j: int|
                    0 <= j < i ==> ids@[j] == (#[trigger] samples@[j]).id && labels@[j]
                        == samples@[j].label && trees@[j]@ == trees_of(members, samples@[j].id),
            decreases samples@.len() - i,
        {
            ids.push(samples[i].id);
            trees.push(self.forest.get_sample_tree_indices(samples[i].id));
            labels.push(samples[i].label);
            i = i + 1;
        }
        proof {
            lemma_with_all(
                self@.registry,
                samples@,
                members,
                ids@,
                trees@,
                labels@,
                samples@.len() as int,
            );
        }
        let gone = self.registry.register_batch(
            ids.as_slice(),
            trees.as_slice(),
            labels.as_slice(),
        );
        self.clock.position = self.clock.position + samples.len() as u64;
        gone
    }

    /// Does what follows from samples having gone from the registry.
    fn drop_evicted(&mut self, gone: &Vec<u64>)
        requires
            old(self).wf(),
            old(self)@.clock.since_retrain < u64::MAX,
            old(self)@.store.len() <= u32::MAX,
        ensures
            final(self).wf(),
            let_go(old(self)@, final(self)@, gone@),
            final(self)@.clock.influence_updates == old(self)@.clock.influence_updates,
            final(self)@.clock.since_develop <= old(self)@.clock.since_develop,
            final(self)@.clock.total_samples == old(self)@.clock.total_samples,
            final(self)@.registry.evictions == old(self)@.registry.evictions,
    {
        if gone.len() == 0 {
            return;
        }
        let ghost v = self@;
        if self.config.window_retrain_mode {
            self.drop_features(gone);
            self.clock.since_retrain = self.clock.since_retrain + 1;
            let ghost c = self@;
            proof {
                assert(c.store.dom().subset_of(v.store.dom()));
                vstd::set_lib::lemma_len_subset(c.store.dom(), v.store.dom());
                assert(c.store =~= v.store.remove_keys(gone@.to_set()));
            }
            if self.clock.since_retrain >= self.config.window_retrain_interval {
                self.retrain_from_window();
                let ghost z = self@;
                self.clock.since_retrain = 0;
                assert(retrained(c, z));
                proof {
                    lemma_retrained_keeps(c, z);
                }
            }
        } else if !self.config.budget_skip_forest_forget {
            let _ = self.forest.forget_batch_with_features(
                gone.as_slice(),
                &self.feature_store.features,
            );
            let ghost f = self@.forest;
            self.drop_features(gone);
            proof {
                assert(forgot_known_all(v.forest, f, gone@, v.store));
                assert(self@.store.dom().subset_of(v.store.dom()));
                vstd::set_lib::lemma_len_subset(self@.store.dom(), v.store.dom());
            }
            self.run_develop();
        } else {
            self.drop_features(gone);
            proof {
                assert(self@.store.dom().subset_of(v.store.dom()));
                vstd::set_lib::lemma_len_subset(self@.store.dom(), v.store.dom());
            }
        }
    }

    /// Learns a batch.
    fn add_batch(&mut self, features: &[Vec<i64>], labels: &[bool])
        requires
            old(self).wf(),
            old(self)@.has_room(features@.len() as int),
            features@.len() == labels@.len(),
            rows_full(features@, old(self)@.config.num_features),
        ensures
            final(self).wf(),
            batch_added(old(self)@, final(self)@, features@, labels@),
            final(self)@.clock.influence_updates == old(self)@.clock.influence_updates,
            final(self)@.clock.since_develop <= old(self)@.clock.since_develop,
            final(self)@.clock.total_samples == old(self)@.clock.total_samples,
    {
        let ghost v = self@;
        let samples = number_rows(features, labels, self.clock.next_sample_id);
        proof {
            lemma_store_with(
                v.store,
                samples@,
                v.clock.next_sample_id as int,
                features@,
                labels@,
                samples@.len() as int,
                v.config.num_features,
            );
        }
        self.take_in(&samples, Ghost(features@), Ghost(labels@));
        let ghost seen = self@;
        assert(seen.registry.place == v.registry.place);
        let gone = self.register_samples(&samples);
        let ghost mid = self@;
        self.drop_evicted(&gone);
        assert(arrived(v, mid, samples@, gone@));
        assert(let_go(mid, self@, gone@));
    }

    /// Holds a batch for finding influences, if that is asked for.
    fn store_batch_for_influence(&mut self, features: &[Vec<i64>], labels: &[bool])
        requires
            old(self).wf(),
            old(self)@.has_room(features@.len() as int),
            features@.len() == labels@.len(),
            rows_full(features@, old(self)@.config.num_features),
        ensures
            final(self).wf(),
            final(self)@ == (ControllerView { held: final(self)@.held, ..old(self)@ }),
            if old(self)@.config.budget_enabled && old(self)@.config.influence_update_interval
                > 0 {
                carries(
                    final(self)@.held,
                    old(self)@.clock.position as int,
                    features@,
                    labels@,
                )
            } else {
                final(self)@.held == old(self)@.held
            },
    {
        if self.config.budget_enabled && self.config.influence_update_interval > 0 {
            let samples = number_rows(features, labels, self.clock.position);
            proof {
                lemma_carries_full(
                    samples@,
                    self@.clock.position as int,
                    features@,
                    labels@,
                    self@.config.num_features,
                );
            }
            self.last_batch_samples = samples;
        }
    }

    /// Follows a batch: predicts it, counts the predictions, learns it, lets samples go
    /// for which there is no room, and does what is due. A batch without rows, or whose
    /// rows and classes differ in number, changes nothing.
    pub fn stream_batch(&mut self, features: &[Vec<i64>], labels: &[bool]) -> (r: StreamingResult)
        requires
            old(self).wf(),
            is_batch(features@, labels@) ==> old(self)@.has_room(features@.len() as int),
            is_batch(features@, labels@) ==> rows_full(
                features@,
                old(self)@.config.num_features,
            ),
        ensures
            final(self).wf(),
            if !is_batch(features@, labels@) {
                &&& final(self)@ == old(self)@
                &&& r.predictions@.len() == 0
                &&& reports(r, old(self)@)
                &&& r.budget_evicted == 0
                &&& !r.loss_due
            } else {
                streamed(old(self)@, final(self)@, features@, labels@, r)
            },
    {
        let batch_size: usize = features.len();
        if batch_size == 0 || labels.len() != batch_size {
            return StreamingResult {
                predictions: Vec::new(),
                metrics: self.metrics.current_metrics(),
                registry_size: self.registry.len(),
                memory_mb: self.registry.memory_mb(),
                total_samples: self.clock.total_samples,
                budget_evicted: 0,
                loss_due: false,
            };
        }
        let ghost v = self@;
        self.store_batch_for_influence(features, labels);
        let predictions = self.predict_batch(features);
        let _ = self.metrics.update_batch(labels, predictions.as_slice());
        let ghost a = self@;
        let before: usize = self.registry.eviction_stats().evicted_count;
        assert(a.has_room(features@.len() as int));
        self.add_batch(features, labels);
        let ghost b = self@;
        let after: usize = self.registry.eviction_stats().evicted_count;
        let budget_evicted: usize = if after >= before {
            after - before
        } else {
            0
        };
        let loss_due: bool = self.periodic_maintenance(batch_size);
        assert(predicted(v, a, features@, labels@));
        assert(batch_added(a, b, features@, labels@));
        StreamingResult {
            predictions,
            metrics: self.metrics.current_metrics(),
            registry_size: self.registry.len(),
            memory_mb: self.registry.memory_mb(),
            total_samples: self.clock.total_samples,
            budget_evicted,
            loss_due,
        }
    }

    /// Lets the registry keep samples that have come, one after the other.
    fn register_each(&mut self, samples: &Vec<VecSample>)
        requires
            old(self).wf(),
            old(self)@.registry.place + samples@.len() <= i64::MAX,
            old(self)@.clock.position + samples@.len() <= u64::MAX,
        ensures
            final(self).wf(),
            exists|steps: Seq<RegistryView>|
                {
                    &&& #[trigger] registered_each(
                        steps,
                        samples@,
                        old(self)@.forest.members(),
                    )
                    &&& steps[0] == old(self)@.registry
                    &&& steps.last() == final(self)@.registry
                },
            final(self)@ == (ControllerView {
                registry: final(self)@.registry,
                clock: Clock {
                    position: (old(self)@.clock.position + samples@.len()) as u64,
                    ..old(self)@.clock
                },
                ..old(self)@
            }),
    {
        let ghost v = self@;
        let ghost members = self@.forest.members();
        let ghost mut steps: Seq<RegistryView> = seq![self@.registry];
        let mut i: usize = 0;
        while i < samples.len()
            invariant
                i <= samples@.len(),
                self.wf(),
                v.registry.place + samples@.len() <= i64::MAX,
                v.clock.position + samples@.len() <= u64::MAX,
                members == v.forest.members(),
                registered_each(steps, samples@.take(i as int), members),
                steps[0] == v.registry,
                steps.last() == self@.registry,
                self@.registry.place == v.registry.place + i,
                self@ == (ControllerView {
                    registry: self@.registry,
                    clock: Clock { position: (v.clock.position + i) as u64, ..v.clock },
                    ..v
                }),
            decreases samples@.len() - i,
        {
            let trees = self.forest.get_sample_tree_indices(samples[i].id);
            let ghost before = self@.registry;
            let ghost earlier = steps;
            let ghost a = samples@.take(i as int);
            let ghost b = samples@.take(i as int + 1);
            let gone = self.registry.register(samples[i].id, trees, samples[i].label);
            self.clock.position = self.clock.position + 1;
            proof {
                steps = steps.push(self@.registry);
                assert(limited(
                    before.with(
                        samples@[i as int].id,
                        trees_of(members, samples@[i as int].id),
                        samples@[i as int].label,
                    ),
                    self@.registry,
                    gone@,
                ));
                assert(registered(before, self@.registry, samples@[i as int], members));
                lemma_limited_place(
                    before.with(
                        samples@[i as int].id,
                        trees_of(members, samples@[i as int].id),
                        samples@[i as int].label,
                    ),
                    self@.registry,
                    gone@,
                );
                assert forall|j: int| 0 <= j < b.len() implies registered(
                    steps[j],
                    steps[j + 1],
                    #[trigger] b[j],
                    members,
                ) by {
                    if j < i {
                        assert(b[j] == a[j]);
                    }
                }
            }
            i = i + 1;
        }
        assert(samples@.take(i as int) =~= samples@);
    }

    /// Grows the forest from rows at the start, and gives the metrics of its predictions
    /// for them. Without rows, or if rows and classes differ in number, nothing happens.
    pub fn fit(&mut self, features: &[Vec<i64>], labels: &[bool]) -> (r: StreamingMetrics)
        requires
            old(self).wf(),
            is_batch(features@, labels@) ==> old(self)@.has_room(features@.len() as int),
            is_batch(features@, labels@) ==> rows_full(
                features@,
                old(self)@.config.num_features,
            ),
        ensures
            final(self).wf(),
            r.measures(final(self)@.metrics.current()),
            if !is_batch(features@, labels@) {
                final(self)@ == old(self)@
            } else {
                started(old(self)@, final(self)@, features@, labels@)
            },
    {
        if features.len() == 0 || labels.len() != features.len() {
            return self.metrics.current_metrics();
        }
        let ghost v = self@;
        let samples = number_rows(features, labels, self.clock.next_sample_id);
        let ghost n = samples@.len() as int;
        proof {
            lemma_store_with(
                v.store,
                samples@,
                v.clock.next_sample_id as int,
                features@,
                labels@,
                n,
                v.config.num_features,
            );
            lemma_carries_full(
                samples@,
                v.clock.next_sample_id as int,
                features@,
                labels@,
                v.config.num_features,
            );
        }
        self.store_features(&samples);
        self.clock.next_sample_id = self.clock.next_sample_id + samples.len() as u64;
        refit(&mut self.forest, &samples);
        let ghost fit = self@.forest;
        proof {
            assert forall|id: u64| #[trigger] fit.members().contains_key(id) implies id
                < self@.clock.next_sample_id by {
                let i = choose|i: int| 0 <= i < samples@.len() && (#[trigger] samples@[i]).id == id;
                assert(samples@[i].id == v.clock.next_sample_id + i);
            }
        }
        self.register_each(&samples);
        let ghost noted = self@;
        self.forest.enable_streaming(samples.as_slice());
        self.clock.is_warmed_up = true;
        self.clock.initial_fit_done = true;
        self.clock.total_samples = samples.len() as u64;
        let predictions = self.predict_batch(features);
        let r = self.metrics.update_batch(labels, predictions.as_slice());
        proof {
            assert(refitted(v.forest, fit, samples@));
            assert(self@.forest.members() == noted.forest.members());
            assert(started_from(v, self@, samples@, predictions@, labels@));
        }
        r
    }
}

/// Growing a forest anew leaves the counts of a controller alone.
pub proof fn lemma_retrained_keeps(v: ControllerView, w: ControllerView)
    requires
        retrained(v, w),
    ensures
        w.clock == v.clock,
        w.registry.evictions == v.registry.evictions,
{
    let samples = choose|samples: Seq<VecSample>| #[trigger]
        super::maintain::gathers(super::window::kept_classes(v.registry), v.store, samples)
            && super::window::retrained_from(v, w, samples);
    assert(super::window::retrained_from(v, w, samples));
    if samples.len() > 0 {
        super::window::lemma_trees_noted(
            v.registry,
            samples,
            w.forest.members(),
            samples.len() as int,
        );
    }
}

} // verus!
