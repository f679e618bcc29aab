//! What following a stream does to the forest of a controller.

use super::batch::{
    arrived, batch_added, carries, evicted_since, lemma_retrained_keeps, let_go, predicted,
    predictions_of, started_from, store_with, streamed, StreamingResult,
};
use super::maintain::{
    develop_position, developed_now, gathers, maintained, settled_in, worked_on,
};
use super::window::{positive_share, refitted, retrained, start_counted};
use super::{Clock, ControllerView};
use crate::forest::adapt::{retuned, weighted_fitted};
use crate::forest::develop::forest_developed;
use crate::forest::laws::{
    data_of, data_with, distinct_ids, ends_everywhere, forest_represents, full_forest, holds_part,
    law_forest_development_is_exact, law_forest_fits_exactly, law_forest_forgets_all_exactly,
    law_forest_learns_all_exactly, lemma_part_small,
};
use crate::forest::learn::forest_fitted;
use crate::forest::stream::{learnt_all, streams_on};
use crate::forest::unlearn::forgot_known_all;
use crate::forest::{blank, DynFrsForest};
use crate::sample::{Rows, Sample, SampleData, VecSample};
use crate::tree::shape::full;
use vstd::prelude::*;

verus! {

/// The samples whose features are kept.
pub open spec fn kept(v: ControllerView) -> Map<u64, SampleData> {
    Map::new(
        |id: u64| v.store.contains_key(id),
        |id: u64|
            SampleData { id, values: v.store[id], label: v.forest.classes()[id] },
    )
}

/// Whether the forest of a controller has learnt exactly the samples whose features are
/// kept: every tree counts exactly those that are put into it, and leads each of them to
/// its leaf.
pub open spec fn faithful(v: ControllerView) -> bool {
    &&& v.forest.wf()
    &&& v.store.dom().finite()
    &&& exists|parts: Seq<Rows>| #[trigger] forest_represents(v.forest, kept(v), parts)
}

/// Controllers with the same forest and the same features are faithful together.
proof fn lemma_faithful_rests(v: ControllerView, w: ControllerView)
    requires
        faithful(v),
        w.forest == v.forest,
        w.store == v.store,
    ensures
        faithful(w),
{
    assert(kept(w) =~= kept(v));
    let parts = choose|parts: Seq<Rows>| #[trigger] forest_represents(v.forest, kept(v), parts);
    assert(forest_represents(w.forest, kept(w), parts));
}

/// Work on the trees keeps a forest faithful: what has been forgotten stays forgotten, and
/// what has been learnt stays learnt.
pub proof fn law_work_is_exact(v: ControllerView, w: ControllerView)
    requires
        faithful(v),
        v.store.len() <= u32::MAX,
        developed_now(v, w),
    ensures
        faithful(w),
        w.store == v.store,
{
    if w == v {
        lemma_faithful_rests(v, w);
    } else {
        let data = kept(v);
        let parts = choose|parts: Seq<Rows>| #[trigger] forest_represents(v.forest, data, parts);
        let samples = choose|samples: Seq<VecSample>| #[trigger]
            gathers(v.forest.classes(), v.store, samples) && forest_developed(
                v.forest,
                w.forest,
                samples,
                develop_position(v),
                v.config.split_max_age,
            );
        assert(data.dom() =~= v.store.dom());
        assert forall|t: int| 0 <= t < parts.len() implies (#[trigger] parts[t]).len()
            <= u32::MAX by {
            let u = t as usize;
            assert(v.forest.forest().len() == v.forest.settings().num_trees);
            assert(holds_part(parts[u as int], data, v.forest.members(), u));
            lemma_part_small(parts[t], data, v.forest.members(), u);
        }
        assert forall|i: int| 0 <= i < samples.len() implies data.contains_key(
            (#[trigger] samples[i]).id,
        ) && data[samples[i].id] == samples[i].data() by {
            assert(v.store.contains_key(samples[i].id));
        }
        assert forall|id: u64| #[trigger] data.contains_key(id) implies exists|i: int|
            0 <= i < samples.len() && (#[trigger] samples[i]).id == id by {
            assert(v.forest.classes().dom().contains(id) == data.dom().contains(id));
            assert(v.forest.classes().contains_key(id) && v.store.contains_key(id));
        }
        law_forest_development_is_exact(
            v.forest,
            w.forest,
            samples,
            data,
            parts,
            develop_position(v),
            v.config.split_max_age,
        );
        assert(kept(w) =~= data);
        assert(forest_represents(w.forest, kept(w), parts));
    }
}

/// Letting samples go is exact: the forest then has exactly the samples that are left, as
/// if the others had never come, unless the configuration says that they are not
/// forgotten.
pub proof fn law_eviction_is_exact(v: ControllerView, w: ControllerView, gone: Seq<u64>)
    requires
        faithful(v),
        v.store.len() <= u32::MAX,
        let_go(v, w, gone),
        !v.config.window_retrain_mode,
        !v.config.budget_skip_forest_forget,
    ensures
        faithful(w),
        w.store == v.store.remove_keys(gone.to_set()),
{
    let less = ControllerView { store: v.store.remove_keys(gone.to_set()), ..v };
    if gone.len() == 0 {
        assert(v.store.remove_keys(gone.to_set()) =~= v.store);
        lemma_faithful_rests(v, w);
    } else {
        let f = choose|f: DynFrsForest| #[trigger]
            forgot_known_all(v.forest, f, gone, v.store) && developed_now(
                ControllerView { forest: f, ..less },
                w,
            );
        let data = kept(v);
        let parts = choose|parts: Seq<Rows>| #[trigger] forest_represents(v.forest, data, parts);
        assert(v.forest.forest().len() == v.forest.settings().num_trees);
        law_forest_forgets_all_exactly(v.forest, f, data, parts, gone, v.store);
        let mid = ControllerView { forest: f, ..less };
        let left = data.remove_keys(gone.to_set());
        let rest = choose|rest: Seq<Rows>| #[trigger] forest_represents(f, left, rest);
        assert(kept(mid) =~= left) by {
            assert forall|id: u64| #[trigger] left.contains_key(id) implies kept(mid)[id]
                == left[id] by {
                assert(left[id].label == f.classes()[id]);
            }
        }
        assert(forest_represents(mid.forest, kept(mid), rest));
        assert(mid.store.dom().subset_of(v.store.dom()));
        vstd::set_lib::lemma_len_subset(mid.store.dom(), v.store.dom());
        law_work_is_exact(mid, w);
    }
}

/// What is kept of samples, with further ones.
proof fn lemma_kept_with(
    data: Map<u64, SampleData>,
    store: Map<u64, Seq<i64>>,
    samples: Seq<VecSample>,
    n: int,
)
    requires
        0 <= n <= samples.len(),
        data.dom() == store.dom(),
        forall|id: u64| #[trigger]
            data.contains_key(id) ==> data[id].id == id && data[id].values == store[id],
        store.dom().finite(),
    ensures
        data_with(data, samples, n).dom() == store_with(store, samples, n).dom(),
        forall|id: u64| #[trigger]
            data_with(data, samples, n).contains_key(id) ==> data_with(data, samples, n)[id].id
                == id && data_with(data, samples, n)[id].values == store_with(
                store,
                samples,
                n,
            )[id],
        store_with(store, samples, n).dom().finite(),
        store_with(store, samples, n).len() <= store.len() + n,
    decreases n,
{
    if n > 0 {
        lemma_kept_with(data, store, samples, n - 1);
        let a = data_with(data, samples, n - 1);
        let b = store_with(store, samples, n - 1);
        let id = samples[n - 1].id;
        assert(data_with(data, samples, n).dom() =~= a.dom().insert(id));
        assert(store_with(store, samples, n).dom() =~= b.dom().insert(id));
        assert forall|x: u64| #[trigger] data_with(data, samples, n).contains_key(x) implies
            data_with(data, samples, n)[x].id == x && data_with(data, samples, n)[x].values
            == store_with(store, samples, n)[x] by {
            if x != id {
                assert(a.contains_key(x));
            }
        }
    }
}

/// Following a batch is exact: a forest that has learnt exactly the samples whose features
/// are kept, and in which each new one ends at a leaf, has learnt exactly those that are
/// kept after the batch, unless the configuration says that samples are not forgotten.
pub proof fn law_batch_is_exact(
    v: ControllerView,
    w: ControllerView,
    features: Seq<Vec<i64>>,
    labels: Seq<bool>,
)
    requires
        faithful(v),
        forall|i: int|
            0 <= i < features.len() ==> ends_everywhere(v.forest, (#[trigger] features[i])@),
        forall|id: u64| #[trigger] v.store.contains_key(id) ==> id < v.clock.next_sample_id,
        v.store.len() + features.len() <= u32::MAX,
        batch_added(v, w, features, labels),
        !v.config.window_retrain_mode,
        !v.config.budget_skip_forest_forget,
    ensures
        faithful(w),
        w.store.len() <= v.store.len() + features.len(),
{
    let (samples, mid, gone) = choose|
        samples: Seq<VecSample>,
        mid: ControllerView,
        gone: Seq<u64>,
    |
        {
            &&& carries(samples, v.clock.next_sample_id as int, features, labels)
            &&& #[trigger] arrived(v, mid, samples, gone)
            &&& #[trigger] let_go(mid, w, gone)
        };
    let n = samples.len() as int;
    let data = kept(v);
    let parts = choose|parts: Seq<Rows>| #[trigger] forest_represents(v.forest, data, parts);
    let r = choose|r: (usize, usize)| learnt_all(v.forest, mid.forest, samples, true, r);
    assert(data.dom() =~= v.store.dom());
    assert(distinct_ids(samples)) by {
        assert forall|i: int, j: int| 0 <= i < j < samples.len() implies (#[trigger] samples[i]).id
            != (#[trigger] samples[j]).id by {
            assert(samples[i].id == v.clock.next_sample_id + i);
            assert(samples[j].id == v.clock.next_sample_id + j);
        }
    }
    assert forall|i: int| 0 <= i < samples.len() implies !data.contains_key(
        (#[trigger] samples[i]).id,
    ) by {
        assert(samples[i].id == v.clock.next_sample_id + i);
    }
    assert forall|i: int| 0 <= i < samples.len() implies ends_everywhere(
        v.forest,
        (#[trigger] samples[i]).data().values,
    ) by {
        assert(samples[i].values@ == features[i]@);
    }
    law_forest_learns_all_exactly(v.forest, mid.forest, data, parts, samples, true, r);
    let all = data_with(data, samples, n);
    let more = choose|more: Seq<Rows>| #[trigger] forest_represents(mid.forest, all, more);
    lemma_kept_with(data, v.store, samples, n);
    assert(mid.store == store_with(v.store, samples, n));
    assert(kept(mid) =~= all) by {
        assert forall|id: u64| #[trigger] all.contains_key(id) implies kept(mid)[id] == all[id] by {
            assert(all[id].label == mid.forest.classes()[id]);
        }
    }
    assert(forest_represents(mid.forest, kept(mid), more));
    assert(faithful(mid));
    law_eviction_is_exact(mid, w, gone);
    assert(w.store.dom().subset_of(mid.store.dom()));
    vstd::set_lib::lemma_len_subset(w.store.dom(), mid.store.dom());
}

/// Following the stream is exact: a forest that has learnt exactly the samples whose
/// features are kept, and in which each new one ends at a leaf, has learnt exactly those
/// that are kept after another batch, whatever work on the trees was due, unless the
/// configuration says that samples are not forgotten.
pub proof fn law_stream_is_exact(
    v: ControllerView,
    w: ControllerView,
    features: Seq<Vec<i64>>,
    labels: Seq<bool>,
    r: StreamingResult,
)
    requires
        faithful(v),
        forall|i: int|
            0 <= i < features.len() ==> ends_everywhere(v.forest, (#[trigger] features[i])@),
        forall|id: u64| #[trigger] v.store.contains_key(id) ==> id < v.clock.next_sample_id,
        v.store.len() + features.len() <= u32::MAX,
        streamed(v, w, features, labels, r),
        !v.config.window_retrain_mode,
        !v.config.budget_skip_forest_forget,
    ensures
        faithful(w),
{
    let (a, b) = choose|a: ControllerView, b: ControllerView|
        {
            &&& #[trigger] predicted(v, a, features, labels)
            &&& #[trigger] batch_added(a, b, features, labels)
            &&& maintained(b, w, features.len() as int, r.loss_due)
            &&& r.budget_evicted == evicted_since(a.registry, b.registry)
        };
    lemma_faithful_rests(v, a);
    law_batch_is_exact(a, b, features, labels);
    let c = choose|c: ControllerView| #[trigger]
        worked_on(b, c) && settled_in(b, c, w, features.len() as int, r.loss_due);
    assert(worked_on(b, c));
    if c.forest == b.forest && c.store == b.store {
        lemma_faithful_rests(b, c);
    } else {
        let t = ControllerView {
            clock: Clock {
                since_develop: (b.clock.since_develop + 1) as u64,
                ..b.clock
            },
            ..b
        };
        lemma_faithful_rests(b, t);
        law_work_is_exact(t, c);
    }
    lemma_faithful_rests(c, w);
}

/// What a controller counts goes on by what it has followed.
proof fn lemma_batch_clock(
    v: ControllerView,
    w: ControllerView,
    features: Seq<Vec<i64>>,
    labels: Seq<bool>,
)
    requires
        batch_added(v, w, features, labels),
        v.has_room(features.len() as int),
    ensures
        w.clock.position == v.clock.position + features.len(),
        w.clock.total_samples == v.clock.total_samples,
        w.clock.is_warmed_up == v.clock.is_warmed_up,
        w.config == v.config,
{
    let (samples, mid, gone) = choose|
        samples: Seq<VecSample>,
        mid: ControllerView,
        gone: Seq<u64>,
    |
        {
            &&& carries(samples, v.clock.next_sample_id as int, features, labels)
            &&& #[trigger] arrived(v, mid, samples, gone)
            &&& #[trigger] let_go(mid, w, gone)
        };
    let less = ControllerView { store: mid.store.remove_keys(gone.to_set()), ..mid };
    if gone.len() > 0 && mid.config.window_retrain_mode {
        let c = ControllerView {
            clock: Clock { since_retrain: (mid.clock.since_retrain + 1) as u64, ..mid.clock },
            ..less
        };
        if c.clock.since_retrain >= mid.config.window_retrain_interval {
            let z = choose|z: ControllerView| #[trigger]
                retrained(c, z) && w == (ControllerView {
                    clock: Clock { since_retrain: 0, ..z.clock },
                    ..z
                });
            lemma_retrained_keeps(c, z);
        }
    } else if gone.len() > 0 && !mid.config.budget_skip_forest_forget {
        let f = choose|f: DynFrsForest| #[trigger]
            forgot_known_all(mid.forest, f, gone, mid.store) && developed_now(
                ControllerView { forest: f, ..less },
                w,
            );
        assert(developed_now(ControllerView { forest: f, ..less }, w));
    }
}

/// A batch is predicted before it is learnt: the predictions are those of the forest as it
/// was. The counts of the samples seen go on by the rows of the batch, and the controller
/// has warmed up if it had before or has now seen enough.
pub proof fn law_stream_tests_first(
    v: ControllerView,
    w: ControllerView,
    features: Seq<Vec<i64>>,
    labels: Seq<bool>,
    r: StreamingResult,
)
    requires
        v.has_room(features.len() as int),
        streamed(v, w, features, labels, r),
    ensures
        r.predictions@ == predictions_of(v.forest, features),
        w.clock.total_samples == v.clock.total_samples + features.len(),
        w.clock.position == v.clock.position + features.len(),
        w.clock.is_warmed_up == (v.clock.is_warmed_up || w.clock.total_samples
            >= v.config.warmup_samples),
        r.total_samples == w.clock.total_samples,
{
    let (a, b) = choose|a: ControllerView, b: ControllerView|
        {
            &&& #[trigger] predicted(v, a, features, labels)
            &&& #[trigger] batch_added(a, b, features, labels)
            &&& maintained(b, w, features.len() as int, r.loss_due)
            &&& r.budget_evicted == evicted_since(a.registry, b.registry)
        };
    lemma_batch_clock(a, b, features, labels);
    let c = choose|c: ControllerView| #[trigger]
        worked_on(b, c) && settled_in(b, c, w, features.len() as int, r.loss_due);
    assert(worked_on(b, c));
    assert(c.clock == (Clock { since_develop: c.clock.since_develop, ..b.clock }));
    assert(c.config == b.config);
}

/// The classes of a batch have no say in its predictions: whatever they are, a controller
/// predicts the same.
pub proof fn law_classes_stay_unseen(
    v: ControllerView,
    w: ControllerView,
    z: ControllerView,
    features: Seq<Vec<i64>>,
    labels: Seq<bool>,
    others: Seq<bool>,
    r: StreamingResult,
    s: StreamingResult,
)
    requires
        streamed(v, w, features, labels, r),
        streamed(v, z, features, others, s),
    ensures
        r.predictions@ == s.predictions@,
{
}

/// Starting from samples is exact: a controller that has seen nothing and starts from
/// samples has a forest that has learnt exactly those, and in which every row ends at a
/// leaf.
pub proof fn law_start_is_exact(
    v: ControllerView,
    w: ControllerView,
    samples: Seq<VecSample>,
    predictions: Seq<bool>,
    labels: Seq<bool>,
)
    requires
        v.forest.wf(),
        w.forest.wf(),
        forall|t: int| 0 <= t < v.forest.forest().len() ==> blank(#[trigger] v.forest.forest()[t]),
        v.store == Map::<u64, Seq<i64>>::empty(),
        samples.len() > 0,
        distinct_ids(samples),
        started_from(v, w, samples, predictions, labels),
    ensures
        faithful(w),
        full_forest(w.forest),
{
    let n = samples.len() as int;
    let fit = choose|fit: DynFrsForest| #[trigger]
        refitted(v.forest, fit, samples) && streams_on(fit, w.forest, samples);
    let share = positive_share(samples);
    let grown = choose|grown: DynFrsForest| #[trigger]
        weighted_fitted(v.forest, grown, samples, share) && start_counted(grown, fit, samples);
    let tuned = choose|tuned: DynFrsForest| #[trigger]
        retuned(v.forest, tuned, v.forest.tuning().adapted(share)) && forest_fitted(
            tuned,
            grown,
            samples,
            Seq::new(samples.len(), |i: int| tuned.k_now(samples[i].label)),
        );
    let ks = Seq::new(samples.len(), |i: int| tuned.k_now(samples[i].label));
    law_forest_fits_exactly(tuned, grown, samples, ks);
    let data = data_of(samples, n);
    let parts = choose|parts: Seq<Rows>| #[trigger] forest_represents(grown, data, parts);
    let none = Map::<u64, SampleData>::empty();
    lemma_same_data(samples, n);
    lemma_kept_with(none, v.store, samples, n);
    assert forall|t: int| 0 <= t < w.forest.forest().len() implies {
        &&& (#[trigger] w.forest.forest()[t]).structure() == grown.forest()[t].structure()
        &&& w.forest.forest()[t].placement() == grown.forest()[t].placement()
    } by {}
    assert(forest_represents(w.forest, data, parts));
    assert(kept(w) =~= data) by {
        assert forall|id: u64| #[trigger] data.contains_key(id) implies kept(w)[id] == data[id] by {
            assert(data[id].label == w.forest.classes()[id]);
        }
    }
    assert(forest_represents(w.forest, kept(w), parts));
    assert forall|t: int| 0 <= t < w.forest.forest().len() implies full(
        (#[trigger] w.forest.forest()[t]).structure(),
    ) by {
        assert(full(grown.forest()[t].structure()));
    }
}

/// Samples by identifier are no samples with further ones.
proof fn lemma_same_data(samples: Seq<VecSample>, n: int)
    ensures
        data_of(samples, n) == data_with(Map::<u64, SampleData>::empty(), samples, n),
    decreases n,
{
    if n > 0 {
        lemma_same_data(samples, n - 1);
    }
}

} // verus!
