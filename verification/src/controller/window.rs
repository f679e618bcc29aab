//! The samples that are kept: how far each lies from the latest ones, and growing the
//! forest anew from them.

use super::maintain::{
    gathers, gathers_from, lemma_gathers_all, lemma_gathers_step,
};
use super::{ControllerView, FeatureProvider, StreamingController};
use crate::fixed::ONE;
use crate::forest::adapt::{retuned, weighted_fitted};
use crate::forest::develop::forest_developed;
use crate::forest::learn::{all_full, lemma_fitted_members};
use crate::forest::stream::{learnt_all, lemma_learnt_members};
use crate::forest::{emptied, DynFrsForest};
use crate::fraction::Fraction;
use crate::registry::entry::{TrackedView, INFLUENCE_ONE};
use crate::registry::{listed_ids, RegistryView};
use crate::root::{root_of, root_of_quotient};
use crate::order::Key;
use crate::sample::VecSample;
use crate::wide::Long;
use vstd::prelude::*;

verus! {

/// How many of the latest samples make up the middle.
pub const MIDDLE_OF: usize = 1000;

/// The last ones of a list whose features are kept, the last one first, as many as asked
/// for.
pub open spec fn newest(ids: Seq<u64>, store: Map<u64, Seq<i64>>, n: int) -> Seq<u64>
    decreases ids.len(),
{
    if n <= 0 || ids.len() == 0 {
        Seq::empty()
    } else if store.contains_key(ids.last()) {
        seq![ids.last()] + newest(ids.drop_last(), store, n - 1)
    } else {
        newest(ids.drop_last(), store, n)
    }
}

/// The sum of the values of an attribute over the first samples of a list.
pub open spec fn column_sum(store: Map<u64, Seq<i64>>, ids: Seq<u64>, a: int, n: int) -> int
    decreases n,
{
    if n <= 0 {
        0
    } else {
        column_sum(store, ids, a, n - 1) + store[ids[n - 1]][a]
    }
}

/// The sum of each attribute over some samples, which is their middle times their number.
pub open spec fn sums_of(store: Map<u64, Seq<i64>>, ids: Seq<u64>, width: u8) -> Seq<i128> {
    Seq::new(width as nat, |a: int| column_sum(store, ids, a, ids.len() as int) as i128)
}

/// The sum of the squared differences between the first values of a row and those of the
/// middle of so many samples, each difference times their number.
pub open spec fn square_sum(row: Seq<i64>, sums: Seq<i128>, count: int, n: int) -> int
    decreases n,
{
    if n <= 0 {
        0
    } else {
        let d = count * row[n - 1] - sums[n - 1];
        square_sum(row, sums, count, n - 1) + d * d
    }
}

/// A number that stops at an upper bound.
pub open spec fn at_most(n: int, bound: int) -> int {
    if n <= bound {
        n
    } else {
        bound
    }
}

/// The influence that the distance of a row from the middle of so many samples stands for:
/// the further, the smaller, in whole parts of 10^9.
pub open spec fn distance_influence(row: Seq<i64>, sums: Seq<i128>, count: int) -> i64 {
    let squares = square_sum(row, sums, count, sums.len() as int);
    let parts = root_of(
        squares * (INFLUENCE_ONE * INFLUENCE_ONE) / (count * count * (ONE * ONE)),
    );
    (-at_most(parts, i64::MAX as int)) as i64
}

/// The registry once the influence of each sample has been replaced by one that goes by
/// its distance from the middle of the latest samples.
pub open spec fn distances_noted(v: ControllerView) -> RegistryView {
    let ids = newest(listed_ids(v.registry.order), v.store, MIDDLE_OF as int);
    let sums = sums_of(v.store, ids, v.config.num_features);
    if v.config.num_features == 0 || ids.len() == 0 {
        v.registry
    } else {
        RegistryView {
            kept: Map::new(
                |id: u64| v.registry.kept.contains_key(id),
                |id: u64|
                    if v.store.contains_key(id) {
                        TrackedView {
                            cached_influence: Some(
                                distance_influence(v.store[id], sums, ids.len() as int),
                            ),
                            ..v.registry.kept[id]
                        }
                    } else {
                        v.registry.kept[id]
                    },
            ),
            ..v.registry
        }
    }
}

/// The classes of the samples that are kept.
pub open spec fn kept_classes(v: RegistryView) -> Map<u64, bool> {
    v.kept.map_values(|s: TrackedView| s.label)
}

/// The number of positive samples among the first of a list.
pub open spec fn positives_of(samples: Seq<VecSample>, n: int) -> nat
    decreases n,
{
    if n <= 0 {
        0
    } else {
        positives_of(samples, n - 1) + if samples[n - 1].label {
            1nat
        } else {
            0nat
        }
    }
}

/// The share of positive samples.
pub open spec fn positive_share(samples: Seq<VecSample>) -> Fraction {
    Fraction {
        num: positives_of(samples, samples.len() as int) as i128,
        den: samples.len() as u128,
    }
}

/// Whether the counts of the samples that a forest starts with have been taken over.
pub open spec fn start_counted(
    before: DynFrsForest,
    after: DynFrsForest,
    samples: Seq<VecSample>,
) -> bool {
    retuned(
        before,
        after,
        before.tuning().started(positive_share(samples), samples.len() as int),
    )
}

/// Whether a forest has been grown anew from samples and knows their classes.
pub open spec fn refitted(
    before: DynFrsForest,
    after: DynFrsForest,
    samples: Seq<VecSample>,
) -> bool {
    exists|fit: DynFrsForest| #[trigger]
        weighted_fitted(before, fit, samples, positive_share(samples)) && start_counted(
            fit,
            after,
            samples,
        )
}

/// Whether a forest has been emptied and has learnt samples one by one.
pub open spec fn relearnt(
    before: DynFrsForest,
    after: DynFrsForest,
    samples: Seq<VecSample>,
) -> bool {
    exists|blank: DynFrsForest, start: DynFrsForest, done: DynFrsForest, r: (usize, usize)|
        {
            &&& emptied(before, blank)
            &&& #[trigger] start_counted(blank, start, samples)
            &&& #[trigger] learnt_all(start, done, samples, true, r)
            &&& forest_developed(done, after, samples, 0, None)
        }
}

/// The trees that have learnt a sample.
pub open spec fn trees_of(members: Map<u64, Seq<usize>>, id: u64) -> Seq<usize> {
    if members.contains_key(id) {
        members[id]
    } else {
        Seq::empty()
    }
}

/// The registry once the trees of the first samples of a list have been noted.
pub open spec fn trees_noted(
    v: RegistryView,
    samples: Seq<VecSample>,
    members: Map<u64, Seq<usize>>,
    n: int,
) -> RegistryView
    decreases n,
{
    if n <= 0 {
        v
    } else {
        let before = trees_noted(v, samples, members, n - 1);
        let id = samples[n - 1].id;
        if before.kept.contains_key(id) {
            before.resized(
                id,
                TrackedView { tree_indices: trees_of(members, id), ..before.kept[id] },
            )
        } else {
            before
        }
    }
}

/// What a controller becomes when the forest is grown anew from the samples that are kept
/// and whose features are known, if there are any.
pub open spec fn retrained(v: ControllerView, w: ControllerView) -> bool {
    exists|samples: Seq<VecSample>| #[trigger]
        gathers(kept_classes(v.registry), v.store, samples) && retrained_from(v, w, samples)
}

/// What a controller becomes when the forest is grown anew from some samples.
pub open spec fn retrained_from(
    v: ControllerView,
    w: ControllerView,
    samples: Seq<VecSample>,
) -> bool {
    if samples.len() == 0 {
        w == v
    } else {
        &&& if v.config.window_retrain_incremental {
            relearnt(v.forest, w.forest, samples)
        } else {
            refitted(v.forest, w.forest, samples)
        }
        &&& w == (ControllerView {
            forest: w.forest,
            registry: trees_noted(
                v.registry,
                samples,
                w.forest.members(),
                samples.len() as int,
            ),
            ..v
        })
    }
}

/// Noting trees leaves everything else of a registry alone but the estimate of the memory.
pub proof fn lemma_trees_noted(
    v: RegistryView,
    samples: Seq<VecSample>,
    members: Map<u64, Seq<usize>>,
    n: int,
)
    ensures
        trees_noted(v, samples, members, n) == (RegistryView {
            kept: trees_noted(v, samples, members, n).kept,
            bytes: trees_noted(v, samples, members, n).bytes,
            ..v
        }),
    decreases n,
{
    if n > 0 {
        lemma_trees_noted(v, samples, members, n - 1);
    }
}

/// Computes the influence that the distance of a row from the middle stands for.
fn influence_by_distance(row: &Vec<i64>, sums: &Vec<i128>, count: u64) -> (r: i64)
    requires
        row@.len() >= sums@.len(),
        sums@.len() <= 255,
        0 < count <= MIDDLE_OF,
        forall|a: int|
            0 <= a < sums@.len() ==> -count * 0x8000_0000_0000_0000 <= #[trigger] sums@[a] <= count
                * 0x8000_0000_0000_0000,
    ensures
        r == distance_influence(row@, sums@, count as int),
{
    let mut total: Long = Long::of(0);
    let mut i: usize = 0;
    while i < sums.len()
        invariant
            i <= sums@.len() <= row@.len(),
            sums@.len() <= 255,
            0 < count <= MIDDLE_OF,
            forall|a: int|
                0 <= a < sums@.len() ==> -count * 0x8000_0000_0000_0000 <= #[trigger] sums@[a]
                    <= count * 0x8000_0000_0000_0000,
            total.value() == square_sum(row@, sums@, count as int, i as int),
            0 <= total.value() <= i * 0x400_0000_0000_0000_0000 * 0x400_0000_0000_0000_0000,
        decreases sums@.len() - i,
    {
        let x: i64 = row[i];
        let sum: i128 = sums[i];
        assert(-0x8000_0000_0000_0000 * 1000 <= count * x <= 0x8000_0000_0000_0000 * 1000)
            by (nonlinear_arith)
            requires
                0 < count <= 1000,
                -0x8000_0000_0000_0000 <= x <= 0x7fff_ffff_ffff_ffff,
        ;
        let scaled: i128 = count as i128 * x as i128;
        assert(-0x8000_0000_0000_0000 * 1000 <= sum <= 0x8000_0000_0000_0000 * 1000);
        let d: u128 = if scaled >= sum {
            (scaled - sum) as u128
        } else {
            (sum - scaled) as u128
        };
        let ghost g = count * x - sum;
        assert(d * d == g * g) by (nonlinear_arith)
            requires
                d == g || d == -g,
        ;
        assert(0 <= d * d <= 0x400_0000_0000_0000_0000 * 0x400_0000_0000_0000_0000)
            by (nonlinear_arith)
            requires
                0 <= d <= 0x400_0000_0000_0000_0000,
        ;
        let square: Long = Long::square(d);
        assert(i * 0x400_0000_0000_0000_0000 * 0x400_0000_0000_0000_0000 <= 255
            * 0x400_0000_0000_0000_0000 * 0x400_0000_0000_0000_0000);
        total = total.plus(&square);
        i = i + 1;
    }
    let scaled: Long = total.times(INFLUENCE_ONE as u64 * INFLUENCE_ONE as u64);
    assert(0 < count * count <= 1000000) by (nonlinear_arith)
        requires
            0 < count <= 1000,
    ;
    let k: i128 = (count as i128 * count as i128) * (ONE as i128 * ONE as i128);
    assert(scaled.value() >= 0) by (nonlinear_arith)
        requires
            scaled.value() == total.value() * 1000000000000000000,
            total.value() >= 0,
    ;
    -root_of_quotient(&scaled, k)
}

/// A column of so many values cannot sum up to too much.
proof fn lemma_column_range(store: Map<u64, Seq<i64>>, ids: Seq<u64>, a: int, n: int)
    requires
        0 <= n,
    ensures
        -n * 0x8000_0000_0000_0000 <= column_sum(store, ids, a, n) <= n * 0x8000_0000_0000_0000,
    decreases n,
{
    if n > 0 {
        lemma_column_range(store, ids, a, n - 1);
    }
}

/// The last ones of a list are on the list, have features, and are as many as asked for
/// at most.
proof fn lemma_newest(ids: Seq<u64>, store: Map<u64, Seq<i64>>, n: int)
    requires
        n >= 0,
    ensures
        newest(ids, store, n).len() <= n,
        forall|i: int|
            0 <= i < newest(ids, store, n).len() ==> store.contains_key(
                #[trigger] newest(ids, store, n)[i],
            ),
    decreases ids.len(),
{
    if n > 0 && ids.len() > 0 {
        if store.contains_key(ids.last()) {
            lemma_newest(ids.drop_last(), store, n - 1);
        } else {
            lemma_newest(ids.drop_last(), store, n);
        }
    }
}

/// Counts the positive samples.
pub(super) fn count_positives(samples: &Vec<VecSample>) -> (r: usize)
    ensures
        r == positives_of(samples@, samples@.len() as int),
        r <= samples@.len(),
{
    let mut count: usize = 0;
    let mut i: usize = 0;
    while i < samples.len()
        invariant
            i <= samples@.len(),
            count == positives_of(samples@, i as int),
            count <= i,
        decreases samples@.len() - i,
    {
        if samples[i].label {
            count = count + 1;
        }
        i = i + 1;
    }
    count
}

impl StreamingController {
    /// The last samples that are kept and whose features are known, the last one first.
    fn newest_stored(&self) -> (r: Vec<u64>)
        requires
            self.wf(),
        ensures
            r@ == newest(listed_ids(self@.registry.order), self@.store, MIDDLE_OF as int),
            r@.len() <= MIDDLE_OF,
            forall|i: int|
                0 <= i < r@.len() ==> self@.store.contains_key(#[trigger] r@[i]),
    {
        let ids = self.registry.ids_in_order();
        let ghost all = listed_ids(self@.registry.order);
        let ghost store = self@.store;
        let mut list: Vec<u64> = Vec::new();
        let mut i: usize = ids.len();
        assert(all.take(i as int) =~= all);
        assert(list@ + newest(all.take(i as int), store, MIDDLE_OF - list@.len())
            =~= newest(all, store, MIDDLE_OF as int));
        while i > 0 && list.len() < MIDDLE_OF
            invariant
                i <= ids@.len(),
                ids@ == all,
                store == self@.store,
                list@.len() <= MIDDLE_OF,
                list@ + newest(all.take(i as int), store, MIDDLE_OF - list@.len()) == newest(
                    all,
                    store,
                    MIDDLE_OF as int,
                ),
            decreases i,
        {
            i = i - 1;
            let id: u64 = ids[i];
            let ghost before = list@;
            let ghost longer = all.take(i as int + 1);
            let ghost rest = all.take(i as int);
            assert(longer.drop_last() =~= rest);
            assert(longer.last() == id);
            if self.feature_store.get_features(id).is_some() {
                list.push(id);
                assert(list@ + newest(rest, store, MIDDLE_OF - list@.len()) =~= before + newest(
                    longer,
                    store,
                    MIDDLE_OF - before.len(),
                ));
            }
        }
        proof {
            assert(newest(all.take(i as int), store, MIDDLE_OF - list@.len()).len() == 0);
            assert(list@ =~= newest(all, store, MIDDLE_OF as int));
            lemma_newest(all, store, MIDDLE_OF as int);
        }
        list
    }

    /// The sum of each attribute over some samples.
    fn sums_over(&self, ids: &Vec<u64>) -> (r: Vec<i128>)
        requires
            self.wf(),
            0 < ids@.len() <= MIDDLE_OF,
            forall|i: int|
                0 <= i < ids@.len() ==> self@.store.contains_key(#[trigger] ids@[i]),
        ensures
            r@ == sums_of(self@.store, ids@, self@.config.num_features),
            forall|a: int|
                0 <= a < r@.len() ==> -ids@.len() * 0x8000_0000_0000_0000 <= #[trigger] r@[a]
                    <= ids@.len() * 0x8000_0000_0000_0000,
    {
        let ghost store = self@.store;
        let width: usize = self.config.num_features as usize;
        let mut sums: Vec<i128> = Vec::new();
        while sums.len() < width
            invariant
                sums@.len() <= width,
                forall|a: int| 0 <= a < sums@.len() ==> #[trigger] sums@[a] == 0,
            decreases width - sums@.len(),
        {
            sums.push(0);
        }
        let mut i: usize = 0;
        while i < ids.len()
            invariant
                i <= ids@.len() <= MIDDLE_OF,
                self.wf(),
                store == self@.store,
                width == self@.config.num_features,
                forall|i: int|
                    0 <= i < ids@.len() ==> store.contains_key(#[trigger] ids@[i]),
                sums@.len() == width,
                forall|a: int|
                    0 <= a < width ==> #[trigger] sums@[a] == column_sum(
                        store,
                        ids@,
                        a,
                        i as int,
                    ),
            decreases ids@.len() - i,
        {
            assert(store.contains_key(ids@[i as int]));
            match self.feature_store.get_features(ids[i]) {
                Some(row) => {
                    let mut a: usize = 0;
                    while a < width
                        invariant
                            a <= width <= row@.len(),
                            i < ids@.len() <= MIDDLE_OF,
                            row@ == store[ids@[i as int]],
                            sums@.len() == width,
                            forall|b: int|
                                0 <= b < a ==> #[trigger] sums@[b] == column_sum(
                                    store,
                                    ids@,
                                    b,
                                    i + 1,
                                ),
                            forall|b: int|
                                a <= b < width ==> #[trigger] sums@[b] == column_sum(
                                    store,
                                    ids@,
                                    b,
                                    i as int,
                                ),
                        decreases width - a,
                    {
                        proof {
                            lemma_column_range(store, ids@, a as int, i as int);
                        }
                        let sum: i128 = sums[a] + row[a] as i128;
                        sums.set(a, sum);
                        a = a + 1;
                    }
                },
                None => {},
            }
            i = i + 1;
        }
        proof {
            assert forall|a: int|
                0 <= a < sums@.len() implies -ids@.len() * 0x8000_0000_0000_0000
                <= #[trigger] sums@[a] <= ids@.len() * 0x8000_0000_0000_0000 by {
                lemma_column_range(store, ids@, a, ids@.len() as int);
            }
            assert(sums@ =~= sums_of(store, ids@, self@.config.num_features));
        }
        sums
    }

    /// Replaces the influence of each sample by one that goes by its distance from the
    /// middle of the latest samples.
    pub(super) fn update_feature_distance_scores(&mut self)
        requires
            old(self).wf(),
        ensures
            final(self).wf(),
            final(self)@ == (ControllerView {
                registry: distances_noted(old(self)@),
                ..old(self)@
            }),
    {
        if self.config.num_features == 0 {
            return;
        }
        let ids = self.newest_stored();
        if ids.len() == 0 {
            return;
        }
        let sums = self.sums_over(&ids);
        let count: u64 = ids.len() as u64;
        let keys = self.feature_store.keys();
        let ghost v = self@;
        let ghost kept = v.registry.kept;
        let ghost told = |id: u64|
            TrackedView {
                cached_influence: Some(distance_influence(v.store[id], sums@, count as int)),
                ..kept[id]
            };
        let mut i: usize = 0;
        assert(kept =~= Map::new(
            |id: u64| kept.contains_key(id),
            |id: u64|
                if keys@.take(0).contains(id) {
                    told(id)
                } else {
                    kept[id]
                },
        ));
        while i < keys.len()
            invariant
                i <= keys@.len(),
                keys@.no_duplicates(),
                keys@.to_set() == v.store.dom(),
                self.wf(),
                sums@.len() == v.config.num_features,
                0 < count <= MIDDLE_OF,
                forall|a: int|
                    0 <= a < sums@.len() ==> -count * 0x8000_0000_0000_0000 <= #[trigger] sums@[a]
                        <= count * 0x8000_0000_0000_0000,
                kept == v.registry.kept,
                told == (|id: u64|
                    TrackedView {
                        cached_influence: Some(distance_influence(v.store[id], sums@, count as int)),
                        ..kept[id]
                    }),
                self@ == (ControllerView {
                    registry: RegistryView {
                        kept: Map::new(
                            |id: u64| kept.contains_key(id),
                            |id: u64|
                                if keys@.take(i as int).contains(id) {
                                    told(id)
                                } else {
                                    kept[id]
                                },
                        ),
                        ..v.registry
                    },
                    ..v
                }),
            decreases keys@.len() - i,
        {
            let id: u64 = keys[i];
            let ghost a = keys@.take(i as int);
            let ghost b = keys@.take(i as int + 1);
            let ghost before = self@.registry;
            proof {
                assert(keys@.to_set().contains(id));
                assert(v.store.contains_key(id));
                assert(b =~= a.push(id));
                assert(!a.contains(id)) by {
                    if a.contains(id) {
                        assert(keys@[a.index_of(id)] == keys@[i as int]);
                    }
                }
                assert forall|x: u64| b.contains(x) == (a.contains(x) || x == id) by {
                    if a.contains(x) {
                        assert(b[a.index_of(x)] == x);
                    }
                    assert(b[i as int] == id);
                }
            }
            match self.feature_store.get_features(id) {
                Some(row) => {
                    let x: i64 = influence_by_distance(&row, &sums, count);
                    self.registry.replace_influence(id, x);
                },
                None => {},
            }
            proof {
                assert(self@.registry.kept =~= Map::new(
                    |id: u64| kept.contains_key(id),
                    |id: u64|
                        if b.contains(id) {
                            told(id)
                        } else {
                            kept[id]
                        },
                ));
            }
            i = i + 1;
        }
        proof {
            assert(keys@.take(i as int) =~= keys@);
            assert forall|x: u64| keys@.contains(x) == v.store.contains_key(x) by {
                assert(keys@.to_set().contains(x) == v.store.dom().contains(x));
            }
            assert(self@.registry.kept =~= distances_noted(v).kept);
        }
    }

    /// The samples that are kept and whose features are known.
    fn collect_window(&self) -> (r: Vec<VecSample>)
        requires
            self.wf(),
        ensures
            gathers(kept_classes(self@.registry), self@.store, r@),
            all_full(r@, self@.config.num_features),
            r@.len() <= self@.store.len(),
            forall|i: int|
                0 <= i < r@.len() ==> self@.store.contains_key((#[trigger] r@[i]).id),
    {
        let ids = self.feature_store.keys();
        let ghost classes = kept_classes(self@.registry);
        let ghost store = self@.store;
        let mut samples: Vec<VecSample> = Vec::new();
        let mut i: usize = 0;
        while i < ids.len()
            invariant
                i <= ids@.len(),
                ids@.no_duplicates(),
                classes == kept_classes(self@.registry),
                store == self@.store,
                samples@.len() <= i,
                gathers_from(classes, store, ids@, i as int, samples@),
            decreases ids@.len() - i,
        {
            let id: u64 = ids[i];
            let ghost before = samples@;
            match (self.feature_store.get_features(id), self.registry.get_label(id)) {
                (Some(values), Some(label)) => {
                    let sample = VecSample { id, values, label };
                    samples.push(sample);
                    assert(before.push(sample) == samples@);
                },
                _ => {},
            }
            proof {
                lemma_gathers_step(classes, store, ids@, i as int, before, samples@);
            }
            i = i + 1;
        }
        proof {
            ids@.unique_seq_to_set();
            assert forall|id: u64|
                classes.contains_key(id) && store.contains_key(id) implies #[trigger] ids@.contains(
                id,
            ) by {
                assert(store.dom().contains(id));
                assert(ids@.to_set().contains(id));
            }
            lemma_gathers_all(classes, store, ids@, samples@);
            assert forall|k: int| 0 <= k < samples@.len() implies (#[trigger] samples@[k]).values@.len()
                >= self@.config.num_features by {
                assert(store.contains_key(samples@[k].id));
            }
        }
        samples
    }

    /// Grows the forest anew from the samples that are kept and whose features are known.
    pub(super) fn retrain_from_window(&mut self)
        requires
            old(self).wf(),
            old(self)@.store.len() <= u32::MAX,
        ensures
            final(self).wf(),
            retrained(old(self)@, final(self)@),
    {
        let samples = self.collect_window();
        let ghost v = self@;
        assert(gathers(kept_classes(v.registry), v.store, samples@));
        if samples.len() == 0 {
            assert(retrained_from(v, self@, samples@));
            return;
        }
        if self.config.window_retrain_incremental {
            relearn(&mut self.forest, &samples);
        } else {
            refit(&mut self.forest, &samples);
        }
        let ghost w = self@;
        proof {
            assert forall|id: u64| #[trigger] w.forest.members().contains_key(id) implies id
                < v.clock.next_sample_id by {
                let i = choose|i: int|
                    0 <= i < samples@.len() && (#[trigger] samples@[i]).id == id;
                assert(v.store.contains_key(samples@[i].id));
            }
        }
        let mut i: usize = 0;
        while i < samples.len()
            invariant
                i <= samples@.len(),
                self.wf(),
                self@ == (ControllerView {
                    registry: trees_noted(
                        v.registry,
                        samples@,
                        w.forest.members(),
                        i as int,
                    ),
                    ..w
                }),
            decreases samples@.len() - i,
        {
            let id: u64 = samples[i].id;
            let trees = self.forest.get_sample_tree_indices(id);
            self.registry.set_tree_indices(id, trees);
            i = i + 1;
        }
        assert(retrained_from(v, self@, samples@));
    }
}

/// Grows a forest anew from samples.
pub(super) fn refit(forest: &mut DynFrsForest, samples: &Vec<VecSample>)
    requires
        old(forest).wf(),
        0 < samples@.len() <= u32::MAX,
        all_full(samples@, old(forest).width()),
    ensures
        final(forest).wf(),
        final(forest).same_setting(old(forest)),
        refitted(*old(forest), *final(forest), samples@),
        forall|id: u64| #[trigger]
            final(forest).members().contains_key(id) <==> exists|i: int|
                0 <= i < samples@.len() && (#[trigger] samples@[i]).id == id,
{
    let count: usize = count_positives(samples);
    let share = Fraction { num: count as i128, den: samples.len() as u128 };
    assert(share == positive_share(samples@));
    forest.fit_weighted(samples.as_slice(), share);
    let ghost fit = *forest;
    proof {
        let tuned = choose|tuned: DynFrsForest| #[trigger]
            retuned(*old(forest), tuned, old(forest).tuning().adapted(share))
                && crate::forest::learn::forest_fitted(
                tuned,
                fit,
                samples@,
                Seq::new(samples@.len(), |i: int| tuned.k_now(samples@[i].label)),
            );
        lemma_fitted_members(
            tuned,
            fit,
            samples@,
            Seq::new(samples@.len(), |i: int| tuned.k_now(samples@[i].label)),
        );
    }
    forest.init_streaming_class_k_with_counts(share, samples.len() as u64);
    assert(weighted_fitted(*old(forest), fit, samples@, positive_share(samples@)));
}

/// Empties a forest and lets it learn samples one by one.
fn relearn(forest: &mut DynFrsForest, samples: &Vec<VecSample>)
    requires
        old(forest).wf(),
        0 < samples@.len() <= u32::MAX,
        all_full(samples@, old(forest).width()),
    ensures
        final(forest).wf(),
        final(forest).same_setting(old(forest)),
        relearnt(*old(forest), *final(forest), samples@),
        forall|id: u64| #[trigger]
            final(forest).members().contains_key(id) <==> exists|i: int|
                0 <= i < samples@.len() && (#[trigger] samples@[i]).id == id,
{
    let count: usize = count_positives(samples);
    let share = Fraction { num: count as i128, den: samples.len() as u128 };
    assert(share == positive_share(samples@));
    forest.reset();
    let ghost blank = *forest;
    forest.init_streaming_class_k_with_counts(share, samples.len() as u64);
    let ghost start = *forest;
    let r = forest.add_samples_streaming(samples.as_slice(), true);
    let ghost done = *forest;
    proof {
        lemma_learnt_members(start, done, samples@, true, r);
    }
    forest.develop_streaming(samples.as_slice());
    assert(start_counted(blank, start, samples@));
    assert(learnt_all(start, done, samples@, true, r));
}

} // verus!
