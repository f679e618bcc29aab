//! What holds of the influences that are found for samples.

use super::batch::{arrived, distances_due, let_go, reports, store_with, StreamingResult};
use super::maintain::{
    blend, develop_position, influence_found, influences_found, maintained, right_share, ticked,
    towards_zero,
};
use super::window::{
    column_sum, distance_influence, distances_noted, newest, positive_share, positives_of,
    square_sum, trees_noted,
};
use super::{ControllerView, InfluenceStrategy};
use crate::count::{lemma_those, lemma_those_agree, lemma_those_others, those};
use crate::forest::in_forest;
use crate::forest::influence::{average, has_influence};
use crate::forest::verdicts::{law_influences_count_right_rows, law_majority_decides, right_rows};
use crate::registry::entry::TrackedView;
use crate::registry::select::evenly;
use crate::registry::RegistryView;
use crate::root::{lemma_root, root_of};
use crate::sample::VecSample;
use crate::tree::shape::vote;
use vstd::prelude::*;

verus! {

/// A quotient that is cut off toward zero is off by less than one, to the side of zero, and
/// is the same for both signs.
pub proof fn law_quotient_is_cut_off(a: int, b: int)
    requires
        b > 0,
    ensures
        a >= 0 ==> 0 <= towards_zero(a, b) && towards_zero(a, b) * b <= a < (towards_zero(a, b) + 1)
            * b,
        towards_zero(-a, b) == -towards_zero(a, b),
{
    let x = if a >= 0 {
        a
    } else {
        -a
    };
    let q = x / b;
    vstd::arithmetic::div_mod::lemma_fundamental_div_mod(x, b);
    assert(b * q == q * b && (q + 1) * b == q * b + b) by (nonlinear_arith);
    assert(q >= 0) by (nonlinear_arith)
        requires
            q == x / b,
            x >= 0,
            b > 0,
    ;
    if a == 0 {
        assert(q == 0) by (nonlinear_arith)
            requires
                q * b <= 0,
                q >= 0,
                b > 0,
        ;
    }
}

/// A blend of an influence with itself is that influence, and a blend of two is off from
/// three tenths of the new one and seven tenths of the old one by less than one.
pub proof fn law_blend_keeps_most_of_old(new: int, old: int)
    ensures
        blend(old, old) == old,
        blend(-new, -old) == -blend(new, old),
        3 * new + 7 * old >= 0 ==> 10 * blend(new, old) <= 3 * new + 7 * old < 10 * blend(new, old)
            + 10,
{
    law_quotient_is_cut_off(3 * new + 7 * old, 10);
    law_quotient_is_cut_off(10 * old, 10);
}

/// The share of trees that are right about a sample is that of the trees that vote for its
/// class.
pub proof fn law_right_trees_are_counted(v: ControllerView, id: u64, label: bool)
    requires
        0 < v.forest.forest().len() <= usize::MAX,
    ensures
        right_share(v, id, label).den == v.forest.forest().len(),
        right_share(v, id, label).num == those(
            v.forest.forest().len() as int,
            |t: int| vote(v.forest.forest()[t].structure(), v.store[id]) == label,
        ).len(),
{
    let trees = v.forest.forest();
    let n = trees.len() as int;
    let values = v.store[id];
    law_majority_decides(trees, values);
    let p = |t: int| vote(trees[t].structure(), values);
    lemma_those(n, p);
    lemma_those_others(n, p);
    let q = |t: int| vote(trees[t].structure(), values) == label;
    if label {
        lemma_those_agree(n, p, q);
    } else {
        lemma_those_agree(n, |t: int| !p(t), q);
    }
}

/// By confidence a sample that a forest gets right counts as one that it can do without: its
/// influence is minus the share of trees that are right about it, in parts of a thousand
/// millions. It is told of samples that are kept and whose features are.
pub proof fn law_confidence_counts_right_trees(v: ControllerView, known: RegistryView, id: u64)
    requires
        v.config.influence_strategy == InfluenceStrategy::Confidence,
        0 < v.forest.forest().len() <= usize::MAX,
    ensures
        influence_found(v, known, id) is Some <==> v.store.contains_key(id)
            && known.kept.contains_key(id),
        influence_found(v, known, id) matches Some(x) ==> {
            let n = v.forest.forest().len() as int;
            let right = those(
                n,
                |t: int|
                    vote(v.forest.forest()[t].structure(), v.store[id]) == known.kept[id].label,
            ).len();
            x <= 0 && -x * n <= 1_000_000_000 * right < (-x + 1) * n
        },
{
    if v.store.contains_key(id) && known.kept.contains_key(id) {
        let label = known.kept[id].label;
        law_right_trees_are_counted(v, id, label);
        let n = v.forest.forest().len() as int;
        let f = right_share(v, id, label);
        lemma_those(
            n,
            |t: int| vote(v.forest.forest()[t].structure(), v.store[id]) == label,
        );
        law_quotient_is_cut_off(f.num * 1_000_000_000, n);
    }
}

/// By the trees that have not learnt a sample its influence is, in parts of a thousand
/// millions, the share of the held samples that the trees which have learnt it get right
/// less that which the others get right. It is told if there are held samples and trees of
/// both sorts.
pub proof fn law_influence_compares_trees(v: ControllerView, known: RegistryView, id: u64)
    requires
        v.config.influence_strategy == InfluenceStrategy::Oob,
        v.forest.members().contains_key(id) ==> in_forest(
            v.forest.members()[id],
            v.forest.forest().len() as int,
        ),
        v.forest.forest().len() <= usize::MAX,
        v.held.len() <= u64::MAX,
    ensures
        influence_found(v, known, id) is Some <==> v.held.len() > 0 && has_influence(v.forest, id),
        influence_found(v, known, id) matches Some(x) ==> {
            let n = v.held.len() as int;
            let with = right_rows(v.forest, id, true, v.held, n).len() as int;
            let without = right_rows(v.forest, id, false, v.held, n).len() as int;
            &&& with >= without ==> x >= 0 && x * n <= 1_000_000_000 * (with - without) < (x + 1) * n
            &&& with <= without ==> x <= 0 && -x * n <= 1_000_000_000 * (without - with) < (-x + 1)
                * n
        },
{
    if v.held.len() > 0 && has_influence(v.forest, id) {
        let n = v.held.len() as int;
        law_influences_count_right_rows(v.forest, id, v.held, n);
        let with = right_rows(v.forest, id, true, v.held, n).len() as int;
        let without = right_rows(v.forest, id, false, v.held, n).len() as int;
        crate::forest::influence::law_influence_bounds(v.forest, id, v.held, n);
        let d = with - without;
        assert(average(v.forest, id, v.held).num == d);
        law_quotient_is_cut_off(d * 1_000_000_000, n);
        law_quotient_is_cut_off(-d * 1_000_000_000, n);
    }
}

/// With memory the influence by the trees is blended with the one that was known before, or
/// with none.
pub proof fn law_memory_blends_influences(
    v: ControllerView,
    plain: ControllerView,
    known: RegistryView,
    id: u64,
)
    requires
        v.config.influence_strategy == InfluenceStrategy::CumulativeOob,
        plain == (ControllerView { config: plain.config, ..v }),
        plain.config.influence_strategy == InfluenceStrategy::Oob,
    ensures
        influence_found(v, known, id) is Some <==> influence_found(plain, known, id) is Some,
        influence_found(v, known, id) matches Some(x) ==> {
            let new = influence_found(plain, known, id)->0;
            let old = if known.kept.contains_key(id) && known.kept[id].cached_influence is Some {
                known.kept[id].cached_influence->0 as int
            } else {
                0
            };
            let sum = 3 * new + 7 * old;
            &&& sum >= 0 ==> 10 * x <= sum < 10 * x + 10
            &&& sum <= 0 ==> 10 * x - 10 < sum <= 10 * x
        },
{
    if influence_found(v, known, id) is Some {
        let new = influence_found(plain, known, id)->0;
        let old = if known.kept.contains_key(id) && known.kept[id].cached_influence is Some {
            known.kept[id].cached_influence->0 as int
        } else {
            0
        };
        law_blend_keeps_most_of_old(new, old);
        law_blend_keeps_most_of_old(-new, -old);
    }
}

/// Every so many batches the trees are worked on, and in between batches are only counted.
pub proof fn law_work_comes_at_intervals(v: ControllerView, w: ControllerView)
    requires
        ticked(v, w),
        v.clock.since_develop < u64::MAX,
    ensures
        v.config.develop_interval == 0 ==> w == v,
        v.clock.since_develop + 1 < v.config.develop_interval ==> w.forest == v.forest
            && w.clock.since_develop == v.clock.since_develop + 1,
        w.registry == v.registry,
        w.store == v.store,
        w.clock.total_samples == v.clock.total_samples,
{
}

/// A batch is counted with all its samples, and a controller is warmed up from when it has
/// seen enough samples on. Before that nothing is done to its forest or its registry, and
/// after that influences are found after every so many batches, but never without a budget.
pub proof fn law_batches_are_counted(
    v: ControllerView,
    w: ControllerView,
    batch_size: int,
    loss_due: bool,
)
    requires
        maintained(v, w, batch_size, loss_due),
        0 <= batch_size,
        v.clock.total_samples + batch_size <= u64::MAX,
        v.clock.since_develop < u64::MAX,
        v.clock.influence_updates < u64::MAX,
    ensures
        w.clock.total_samples == v.clock.total_samples + batch_size,
        w.clock.is_warmed_up <==> v.clock.is_warmed_up || v.clock.total_samples + batch_size
            >= v.config.warmup_samples,
        w.store == v.store,
        w.config == v.config,
        !v.clock.is_warmed_up ==> w.forest == v.forest && w.registry == v.registry && !loss_due,
        !v.config.budget_enabled || v.config.influence_update_interval == 0 ==> w.registry
            == v.registry && !loss_due,
        v.config.influence_update_interval > 0 && (v.clock.influence_updates + 1)
            % v.config.influence_update_interval as int != 0 ==> w.registry == v.registry
            && !loss_due,
        v.clock.is_warmed_up && v.config.budget_enabled && v.config.influence_update_interval > 0
            && (v.clock.influence_updates + 1) % v.config.influence_update_interval as int == 0
            && v.config.influence_strategy == InfluenceStrategy::Loss ==> loss_due,
{
}

/// The latest samples are the last ones of a list whose features are kept, from the last one
/// down.
pub proof fn law_latest_come_first(ids: Seq<u64>, store: Map<u64, Seq<i64>>, n: int)
    requires
        n >= 0,
    ensures
        ({
            let all = ids.filter(|id: u64| store.contains_key(id)).reverse();
            newest(ids, store, n) == all.take(if n <= all.len() {
                n
            } else {
                all.len() as int
            })
        }),
    decreases ids.len(),
{
    reveal(Seq::filter);
    let stored = |id: u64| store.contains_key(id);
    let all = ids.filter(stored).reverse();
    let k = if n <= all.len() {
        n
    } else {
        all.len() as int
    };
    if n > 0 && ids.len() > 0 {
        let before = ids.drop_last();
        let rest = before.filter(stored).reverse();
        if store.contains_key(ids.last()) {
            law_latest_come_first(before, store, n - 1);
            assert(all =~= seq![ids.last()] + rest);
            assert(newest(ids, store, n) =~= all.take(k));
        } else {
            law_latest_come_first(before, store, n);
        }
    } else {
        assert(newest(ids, store, n) =~= all.take(k));
    }
}

/// The values of an attribute add up to what they make one after the other.
pub proof fn law_columns_add_up(store: Map<u64, Seq<i64>>, ids: Seq<u64>, a: int, n: int)
    requires
        0 <= n <= ids.len(),
    ensures
        column_sum(store, ids, a, n) == ids.take(n).fold_left(
            0int,
            |sum: int, id: u64| sum + store[id][a],
        ),
    decreases n,
{
    if n > 0 {
        law_columns_add_up(store, ids, a, n - 1);
        assert(ids.take(n).drop_last() =~= ids.take(n - 1));
        assert(ids.take(n).last() == ids[n - 1]);
    } else {
        assert(ids.take(n).len() == 0);
    }
}

/// The sum of squares is zero for the middle itself alone, and grows with the distance of
/// any value from the middle.
pub proof fn law_squares_grow_with_distance(
    near: Seq<i64>,
    far: Seq<i64>,
    sums: Seq<i128>,
    count: int,
    n: int,
)
    requires
        0 <= n <= near.len(),
        n <= far.len(),
        n <= sums.len(),
        forall|a: int|
            0 <= a < n ==> {
                let x = count * #[trigger] near[a] - sums[a];
                let y = count * far[a] - sums[a];
                (y <= x <= -y || -y <= x <= y)
            },
    ensures
        0 <= square_sum(near, sums, count, n) <= square_sum(far, sums, count, n),
        (forall|a: int| 0 <= a < n ==> count * #[trigger] near[a] == sums[a]) <==> square_sum(
            near,
            sums,
            count,
            n,
        ) == 0,
    decreases n,
{
    if n > 0 {
        law_squares_grow_with_distance(near, far, sums, count, n - 1);
        let x = count * near[n - 1] - sums[n - 1];
        let y = count * far[n - 1] - sums[n - 1];
        assert(0 <= x * x <= y * y) by (nonlinear_arith)
            requires
                y <= x <= -y || -y <= x <= y,
        ;
        assert(x * x == 0 <==> x == 0) by (nonlinear_arith);
        if square_sum(near, sums, count, n) == 0 {
            assert forall|a: int| 0 <= a < n implies count * #[trigger] near[a] == sums[a] by {
                if a < n - 1 {
                    assert(count * near[a] == sums[a]);
                }
            }
        }
        if forall|a: int| 0 <= a < n ==> count * #[trigger] near[a] == sums[a] {
            assert(count * near[n - 1] == sums[n - 1]);
        }
    }
}

/// The influence that a distance stands for is minus the distance: its square is the sum of
/// squares, in whole parts of a thousand millions, unless it is too large to be told. So
/// the further a row lies from the middle, the more harmful it counts.
pub proof fn law_distant_rows_are_harmful(
    near: Seq<i64>,
    far: Seq<i64>,
    sums: Seq<i128>,
    count: int,
)
    requires
        count > 0,
        0 <= square_sum(near, sums, count, sums.len() as int) <= square_sum(
            far,
            sums,
            count,
            sums.len() as int,
        ),
    ensures
        distance_influence(far, sums, count) <= distance_influence(near, sums, count) <= 0,
        distance_influence(near, sums, count) > -i64::MAX ==> {
            let r = -distance_influence(near, sums, count);
            let unit = count * count * (16777216 * 16777216);
            r * r * unit <= square_sum(near, sums, count, sums.len() as int) * (1_000_000_000
                * 1_000_000_000) < (r + 1) * (r + 1) * unit
        },
{
    let unit = count * count * (16777216 * 16777216);
    assert(unit > 0) by (nonlinear_arith)
        requires
            unit == count * count * (16777216 * 16777216),
            count > 0,
    ;
    let k = 1_000_000_000 * 1_000_000_000;
    let s = square_sum(near, sums, count, sums.len() as int);
    let t = square_sum(far, sums, count, sums.len() as int);
    let p = s * k / unit;
    let q = t * k / unit;
    vstd::arithmetic::div_mod::lemma_fundamental_div_mod(s * k, unit);
    vstd::arithmetic::div_mod::lemma_fundamental_div_mod(t * k, unit);
    assert(0 <= s * k <= t * k) by (nonlinear_arith)
        requires
            0 <= s <= t,
            k == 1_000_000_000 * 1_000_000_000,
    ;
    assert(0 <= p <= q) by {
        vstd::arithmetic::div_mod::lemma_div_is_ordered(s * k, t * k, unit);
        vstd::arithmetic::div_mod::lemma_div_pos_is_pos(s * k, unit);
    }
    lemma_root(p);
    lemma_root(q);
    let a = root_of(p);
    let b = root_of(q);
    assert(a <= b) by {
        if a > b {
            assert((b + 1) * (b + 1) <= a * a) by (nonlinear_arith)
                requires
                    0 <= b,
                    b + 1 <= a,
            ;
        }
    }
    let x = a * a;
    let y = (a + 1) * (a + 1);
    assert(x * unit <= unit * p) by (nonlinear_arith)
        requires
            x <= p,
            unit > 0,
    ;
    assert(unit * (p + 1) <= y * unit) by (nonlinear_arith)
        requires
            p + 1 <= y,
            unit > 0,
    ;
    assert(unit * (p + 1) == unit * p + unit) by (nonlinear_arith);
}

/// Finding influences by distance changes nothing but the influences of the samples whose
/// features are kept.
pub proof fn law_distances_change_influences_alone(v: ControllerView, id: u64)
    requires
        v.registry.kept.contains_key(id),
    ensures
        ({
            let after = distances_noted(v);
            &&& after.kept.dom() == v.registry.kept.dom()
            &&& after.order == v.registry.order
            &&& after.bytes == v.registry.bytes
            &&& after.kept[id].label == v.registry.kept[id].label
            &&& after.kept[id].position == v.registry.kept[id].position
            &&& after.kept[id].prev_influence == v.registry.kept[id].prev_influence
            &&& after.kept[id].influence_history == v.registry.kept[id].influence_history
            &&& !v.store.contains_key(id) ==> after.kept[id] == v.registry.kept[id]
        }),
{
    assert(distances_noted(v).kept.dom() =~= v.registry.kept.dom());
}

/// The share of positive samples is that of the places that hold one.
pub proof fn law_positive_samples_are_counted(samples: Seq<VecSample>, n: int)
    requires
        0 <= n <= samples.len(),
    ensures
        positives_of(samples, n) == those(n, |i: int| samples[i].label).len(),
        positives_of(samples, n) <= n,
        samples.len() <= usize::MAX ==> positive_share(samples).den == samples.len(),
    decreases n,
{
    lemma_those(n, |i: int| samples[i].label);
    if n > 0 {
        law_positive_samples_are_counted(samples, n - 1);
    }
}

/// Samples at even distances: as many as asked for if there are more, from the first one on
/// and each as far behind the one before; otherwise all of them in order.
pub proof fn law_samples_are_spread_evenly(order: Seq<(u64, u64)>, n: usize, i: int)
    requires
        0 <= i < evenly(order, n).len(),
    ensures
        evenly(order, n).len() == (if n < order.len() {
            n as int
        } else {
            order.len() as int
        }),
        n >= order.len() ==> evenly(order, n)[i] == order[i].1,
        n < order.len() ==> {
            let step = order.len() as int / n as int;
            &&& step >= 1
            &&& step * n <= order.len() < (step + 1) * n
            &&& 0 <= i * step < order.len()
            &&& evenly(order, n)[i] == order[i * step].1
        },
{
    if n < order.len() && n > 0 {
        let l = order.len() as int;
        let k = n as int;
        let step = l / k;
        vstd::arithmetic::div_mod::lemma_fundamental_div_mod(l, k);
        assert(k * step == step * k && (step + 1) * k == step * k + k) by (nonlinear_arith);
        assert(step >= 1) by (nonlinear_arith)
            requires
                l < step * k + k,
                l > k,
                k > 0,
        ;
        assert(0 <= i * step < l) by (nonlinear_arith)
            requires
                0 <= i < k,
                step >= 1,
                step * k <= l,
        ;
    }
}

/// Distances are found once more than four fifths of the budget are taken and enough samples
/// have come since the last time; never without a budget or where they are not asked for.
pub proof fn law_distances_wait_for_fullness(v: ControllerView, counted: int)
    ensures
        distances_due(v, counted) <==> v.config.budget_use_feature_distance
            && v.config.budget_enabled && 5 * v.store.len() > 4 * v.config.budget_max_samples
            && counted >= v.config.feat_dist_update_interval,
{
}

/// The features of each sample that comes are kept, and those of the others stay, if no two
/// samples share an identifier.
pub proof fn law_features_are_kept(
    store: Map<u64, Seq<i64>>,
    samples: Seq<VecSample>,
    n: int,
    id: u64,
)
    requires
        0 <= n <= samples.len(),
        forall|i: int, j: int|
            0 <= i < j < samples.len() ==> (#[trigger] samples[i]).id != (#[trigger] samples[j]).id,
    ensures
        forall|i: int|
            0 <= i < n && (#[trigger] samples[i]).id == id ==> store_with(
                store,
                samples,
                n,
            ).contains_key(id) && store_with(store, samples, n)[id] == samples[i].values@,
        (forall|i: int| 0 <= i < n ==> (#[trigger] samples[i]).id != id) ==> store_with(
            store,
            samples,
            n,
        ).contains_key(id) == store.contains_key(id) && (store.contains_key(id) ==> store_with(
            store,
            samples,
            n,
        )[id] == store[id]),
    decreases n,
{
    if n > 0 {
        law_features_are_kept(store, samples, n - 1, id);
    }
}

/// Finding influences changes the samples of the list alone, and keeps all samples.
pub proof fn law_influences_are_found_for_list(v: ControllerView, ids: Seq<u64>, n: int, other: u64)
    requires
        0 <= n <= ids.len(),
    ensures
        influences_found(v, ids, n).kept.dom() == v.registry.kept.dom(),
        influences_found(v, ids, n).order == v.registry.order,
        !ids.take(n).contains(other) && v.registry.kept.contains_key(other) ==> influences_found(
            v,
            ids,
            n,
        ).kept[other] == v.registry.kept[other],
    decreases n,
{
    if n > 0 {
        law_influences_are_found_for_list(v, ids, n - 1, other);
        let known = influences_found(v, ids, n - 1);
        if !ids.take(n).contains(other) {
            assert(ids.take(n)[n - 1] == ids[n - 1]);
            if ids.take(n - 1).contains(other) {
                let j = ids.take(n - 1).index_of(other);
                assert(ids.take(n)[j] == other);
            }
        }
        assert(influences_found(v, ids, n).kept.dom() =~= v.registry.kept.dom());
    }
}

/// How old splits are is told by the number of samples that have come, if splits may grow too
/// old.
pub proof fn law_age_is_told_by_samples(v: ControllerView)
    ensures
        v.config.split_max_age is Some ==> develop_position(v) == v.clock.total_samples,
        v.config.split_max_age is None ==> develop_position(v) == 0,
{
}

/// What is said of a controller is what it holds: how many samples are kept, how much memory
/// they take in parts of two to the twentieth bytes, and how many have come.
pub proof fn law_reports_tell_what_is_held(r: StreamingResult, v: ControllerView)
    requires
        reports(r, v),
    ensures
        r.registry_size == v.registry.kept.len(),
        r.memory_mb.num * 1048576 == v.registry.bytes * r.memory_mb.den,
        r.memory_mb.den > 0,
        r.total_samples == v.clock.total_samples,
{
}

/// Samples that come are numbered on, and each moves the stream on by one.
pub proof fn law_arrivals_move_the_stream(
    v: ControllerView,
    w: ControllerView,
    samples: Seq<VecSample>,
    gone: Seq<u64>,
)
    requires
        arrived(v, w, samples, gone),
        v.clock.next_sample_id + samples.len() <= u64::MAX,
        v.clock.position + samples.len() <= u64::MAX,
    ensures
        w.clock.next_sample_id == v.clock.next_sample_id + samples.len(),
        w.clock.position == v.clock.position + samples.len(),
        w.clock.total_samples == v.clock.total_samples,
        w.metrics == v.metrics,
        w.held == v.held,
        w.config == v.config,
        w.store == store_with(v.store, samples, samples.len() as int),
{
}

/// The features of samples that have gone are given up, whatever becomes of the forest. Where
/// it is grown anew at intervals, it stays as it is in between; and where it is to keep what
/// it has learnt from them, it always does.
pub proof fn law_gone_features_are_given_up(v: ControllerView, w: ControllerView, gone: Seq<u64>)
    requires
        let_go(v, w, gone),
        v.clock.since_retrain < u64::MAX,
    ensures
        gone.len() == 0 ==> w == v,
        gone.len() > 0 ==> w.store == v.store.remove_keys(gone.to_set()),
        w.metrics == v.metrics,
        w.held == v.held,
        v.config.window_retrain_mode && gone.len() > 0 && v.clock.since_retrain + 1
            < v.config.window_retrain_interval ==> w.forest == v.forest && w.clock.since_retrain
            == v.clock.since_retrain + 1,
        v.config.window_retrain_mode && gone.len() > 0 && v.clock.since_retrain + 1
            >= v.config.window_retrain_interval ==> w.clock.since_retrain == 0,
        !v.config.window_retrain_mode && v.config.budget_skip_forest_forget ==> w.forest
            == v.forest && w.registry == v.registry,
{
}

/// Once trees have been noted, what is kept of each sample of a list names the trees that have
/// learnt it; of the others the same is kept as before.
pub proof fn law_trees_are_noted(
    v: RegistryView,
    samples: Seq<VecSample>,
    members: Map<u64, Seq<usize>>,
    n: int,
    id: u64,
)
    requires
        0 <= n <= samples.len(),
        v.kept.contains_key(id),
    ensures
        trees_noted(v, samples, members, n).kept.dom() == v.kept.dom(),
        (exists|i: int| 0 <= i < n && (#[trigger] samples[i]).id == id) ==> trees_noted(
            v,
            samples,
            members,
            n,
        ).kept[id] == (TrackedView {
            tree_indices: if members.contains_key(id) {
                members[id]
            } else {
                Seq::empty()
            },
            ..v.kept[id]
        }),
        (forall|i: int| 0 <= i < n ==> (#[trigger] samples[i]).id != id) ==> trees_noted(
            v,
            samples,
            members,
            n,
        ).kept[id] == v.kept[id],
    decreases n,
{
    if n > 0 {
        law_trees_are_noted(v, samples, members, n - 1, id);
        assert(trees_noted(v, samples, members, n).kept.dom() =~= v.kept.dom());
        let here = samples[n - 1].id == id;
        if exists|i: int| 0 <= i < n && (#[trigger] samples[i]).id == id {
            let i = choose|i: int| 0 <= i < n && (#[trigger] samples[i]).id == id;
            if i < n - 1 {
                assert(samples[i].id == id);
            }
        }
    }
}

} // verus!
