//! Which samples are kept, and which have to go.

use crate::table::IdTable;
use vstd::prelude::*;

pub mod entry;
pub mod evict;
pub mod laws;
pub mod report;
pub mod scores;
pub mod select;
pub mod tallies;

pub use entry::{TrackedSample, TrackedView, INFLUENCE_ONE, MAX_HISTORY_LEN};

verus! {

/// The memory that samples may take if nothing else is said: 100 MiB.
pub const DEFAULT_MEMORY_LIMIT: usize = 104857600;

/// How many samples are kept, and which go first. Weights and ratios count parts of
/// [`INFLUENCE_ONE`].
#[derive(Clone, Copy, Debug)]
pub struct BudgetConfig {
    /// How many samples are kept at most.
    pub max_samples: usize,
    /// How many samples go at least when there are too many.
    pub eviction_batch_size: usize,
    /// A class with a smaller share of the samples than this is protected.
    pub minority_protection_ratio: i64,
    /// How much the age of a sample speaks for its going.
    pub age_weight: i64,
    /// How much the harm that a sample does speaks for its going.
    pub influence_weight: i64,
    /// How much it speaks for the staying of a sample that its class is the smaller one.
    pub class_weight: i64,
    /// Whether samples go by a pseudo-random number instead.
    pub random_eviction: bool,
    /// Whether a pseudo-random number takes the place of the age.
    pub class_aware_random: bool,
}

impl Default for BudgetConfig {
    fn default() -> (r: Self)
        ensures
            r.max_samples == 10000,
            r.eviction_batch_size == 100,
            r.minority_protection_ratio == 100000000,
            r.age_weight == 400000000,
            r.influence_weight == 400000000,
            r.class_weight == 200000000,
            !r.random_eviction,
            !r.class_aware_random,
    {
        BudgetConfig {
            max_samples: 10000,
            eviction_batch_size: 100,
            minority_protection_ratio: 100000000,
            age_weight: 400000000,
            influence_weight: 400000000,
            class_weight: 200000000,
            random_eviction: false,
            class_aware_random: false,
        }
    }
}

/// What is known of the samples that have gone for want of room.
#[derive(Clone, Copy, Debug, PartialEq, Eq, Structural)]
pub struct EvictionStats {
    pub evicted_count: usize,
    /// The negative ones.
    pub evicted_benign: usize,
    /// The positive ones.
    pub evicted_attack: usize,
    /// Those that had come to do harm.
    pub evicted_degraded: usize,
    /// Those whose influence was known.
    pub evicted_with_influence: usize,
    /// The sum of the known influences.
    pub evicted_influence_sum: i128,
}

impl Default for EvictionStats {
    fn default() -> (r: Self)
        ensures
            r == no_evictions(),
    {
        EvictionStats {
            evicted_count: 0,
            evicted_benign: 0,
            evicted_attack: 0,
            evicted_degraded: 0,
            evicted_with_influence: 0,
            evicted_influence_sum: 0,
        }
    }
}

/// Nothing has gone.
pub open spec fn no_evictions() -> EvictionStats {
    EvictionStats {
        evicted_count: 0,
        evicted_benign: 0,
        evicted_attack: 0,
        evicted_degraded: 0,
        evicted_with_influence: 0,
        evicted_influence_sum: 0,
    }
}

/// What a registry holds.
#[verifier::ext_equal]
pub struct RegistryView {
    /// What is kept of each sample.
    pub kept: Map<u64, TrackedView>,
    /// The places at which the samples came, with the samples, in order.
    pub order: Seq<(u64, u64)>,
    /// The estimate of the memory that the samples take.
    pub bytes: usize,
    /// The memory that they may take.
    pub limit: usize,
    /// The place in the stream: how many samples have come.
    pub place: u64,
    pub budget: Option<BudgetConfig>,
    pub evictions: EvictionStats,
    /// Whether the influence before the latest one is remembered.
    pub remembers: bool,
}

/// A list of places without that of a sample.
pub open spec fn unlisted(order: Seq<(u64, u64)>, id: u64) -> Seq<(u64, u64)>
    decreases order.len(),
{
    if order.len() == 0 {
        order
    } else {
        let rest = unlisted(order.drop_last(), id);
        if order.last().1 == id {
            rest
        } else {
            rest.push(order.last())
        }
    }
}

/// A difference that stops at zero.
pub open spec fn less(a: usize, b: usize) -> usize {
    if a >= b {
        (a - b) as usize
    } else {
        0
    }
}

/// A sum that stops at its upper bound.
pub open spec fn more(a: usize, b: usize) -> usize {
    if a + b <= usize::MAX {
        (a + b) as usize
    } else {
        usize::MAX
    }
}

/// The samples of a class.
pub open spec fn of_class(kept: Map<u64, TrackedView>, label: bool) -> Set<u64> {
    kept.dom().filter(|id: u64| kept[id].label == label)
}

impl RegistryView {
    /// Whether places and samples belong together: each sample stands once in the list,
    /// at the place at which it came, and the list is in order.
    pub open spec fn wf(&self) -> bool {
        &&& self.place <= i64::MAX
        &&& self.kept.dom().finite()
        &&& forall|i: int, j: int|
            0 <= i < j < self.order.len() ==> (#[trigger] self.order[i]).0 < (
            #[trigger] self.order[j]).0
        &&& forall|i: int|
            0 <= i < self.order.len() ==> {
                let e = #[trigger] self.order[i];
                e.0 < self.place && self.kept.contains_key(e.1) && self.kept[e.1].position == e.0
            }
        &&& forall|id: u64| #[trigger]
            self.kept.contains_key(id) ==> self.order.contains((self.kept[id].position, id))
                && self.kept[id].wf()
    }

    /// The registry without a sample.
    pub open spec fn without(&self, id: u64) -> RegistryView {
        if self.kept.contains_key(id) {
            RegistryView {
                kept: self.kept.remove(id),
                order: unlisted(self.order, id),
                bytes: less(self.bytes, self.kept[id].bytes_held()),
                ..*self
            }
        } else {
            *self
        }
    }

    /// The registry with a sample that has just come; what was kept of it before is gone.
    pub open spec fn with(&self, id: u64, trees: Seq<usize>, label: bool) -> RegistryView {
        let rest = self.without(id);
        let sample = TrackedView::fresh(trees, label, self.place);
        RegistryView {
            kept: rest.kept.insert(id, sample),
            order: rest.order.push((self.place, id)),
            bytes: more(rest.bytes, sample.bytes_held()),
            place: (self.place + 1) as u64,
            ..rest
        }
    }

    /// The registry without the sample that came first.
    pub open spec fn popped(&self) -> RegistryView {
        let id = self.order[0].1;
        RegistryView {
            kept: self.kept.remove(id),
            order: self.order.drop_first(),
            bytes: less(self.bytes, self.kept[id].bytes_held()),
            ..*self
        }
    }

    /// The registry with something else kept of a sample.
    pub open spec fn changed(&self, id: u64, sample: TrackedView) -> RegistryView {
        RegistryView { kept: self.kept.insert(id, sample), ..*self }
    }

    /// The registry with something else kept of a sample, which may take more memory or
    /// less than before.
    pub open spec fn resized(&self, id: u64, sample: TrackedView) -> RegistryView {
        RegistryView {
            bytes: more(
                less(self.bytes, self.kept[id].bytes_held()),
                sample.bytes_held(),
            ),
            ..self.changed(id, sample)
        }
    }

    /// The registry once those that came first have gone until the samples take no more
    /// memory than they may.
    pub open spec fn trimmed(&self) -> RegistryView
        decreases self.order.len(),
    {
        if self.bytes > self.limit && self.order.len() > 0 {
            self.popped().trimmed()
        } else {
            *self
        }
    }

    /// How many samples have to go until they take no more memory than they may.
    pub open spec fn excess(&self) -> nat
        decreases self.order.len(),
    {
        if self.bytes > self.limit && self.order.len() > 0 {
            1 + self.popped().excess()
        } else {
            0
        }
    }

    /// The registry once so many of those that came first have gone.
    pub open spec fn shortened(&self, n: nat) -> RegistryView
        decreases n,
    {
        if n > 0 && self.order.len() > 0 {
            self.popped().shortened((n - 1) as nat)
        } else {
            *self
        }
    }
}

/// The samples of a list of places.
pub open spec fn listed_ids(order: Seq<(u64, u64)>) -> Seq<u64> {
    Seq::new(order.len(), |i: int| order[i].1)
}

/// The memory that the samples of a list take.
pub open spec fn bytes_of(kept: Map<u64, TrackedView>, order: Seq<(u64, u64)>) -> int
    decreases order.len(),
{
    if order.len() == 0 {
        0
    } else {
        bytes_of(kept, order.drop_last()) + kept[order.last().1].bytes()
    }
}

/// Whether the estimate of the memory is the sum over the samples.
pub open spec fn balanced(v: RegistryView) -> bool {
    v.bytes == bytes_of(v.kept, v.order)
}

/// In a registry in order no sample stands in the list twice.
pub proof fn lemma_listed_once(v: RegistryView)
    requires
        v.wf(),
    ensures
        listed_ids(v.order).no_duplicates(),
        listed_ids(v.order).to_set() == v.kept.dom(),
        v.order.len() == v.kept.len(),
{
    let l = listed_ids(v.order);
    assert forall|i: int, j: int| 0 <= i < j < l.len() implies l[i] != l[j] by {
        assert(v.order[i].0 < v.order[j].0);
        if l[i] == l[j] {
            assert(v.kept[v.order[i].1].position == v.order[i].0);
            assert(v.kept[v.order[j].1].position == v.order[j].0);
        }
    }
    assert forall|id: u64| l.to_set().contains(id) == v.kept.dom().contains(id) by {
        if v.kept.contains_key(id) {
            let e = (v.kept[id].position, id);
            assert(v.order.contains(e));
            let i = v.order.index_of(e);
            assert(l[i] == id);
        }
        if l.to_set().contains(id) {
            let i = choose|i: int| 0 <= i < l.len() && l[i] == id;
            assert(v.kept.contains_key(v.order[i].1));
        }
    }
    assert(l.to_set() =~= v.kept.dom());
    l.unique_seq_to_set();
}

/// What taking a sample off a list leaves, where it stands there once.
pub proof fn lemma_unlisted(order: Seq<(u64, u64)>, i: int)
    requires
        0 <= i < order.len(),
        listed_ids(order).no_duplicates(),
    ensures
        unlisted(order, order[i].1) == order.remove(i),
    decreases order.len(),
{
    let id = order[i].1;
    let front = order.drop_last();
    let l = listed_ids(order);
    assert forall|a: int, b: int| 0 <= a < b < front.len() implies listed_ids(front)[a]
        != listed_ids(front)[b] by {
        assert(l[a] != l[b]);
    }
    if i == order.len() - 1 {
        assert forall|j: int| 0 <= j < front.len() implies (#[trigger] front[j]).1 != id by {
            assert(l[j] != l[i]);
        }
        lemma_unlisted_absent(front, id);
        assert(order.remove(i) =~= front);
    } else {
        lemma_unlisted(front, i);
        assert(l[i] != l[order.len() - 1]);
        assert(order.remove(i) =~= front.remove(i).push(order.last()));
    }
}

/// A list on which a sample does not stand stays as it is.
pub proof fn lemma_unlisted_absent(order: Seq<(u64, u64)>, id: u64)
    requires
        forall|j: int| 0 <= j < order.len() ==> (#[trigger] order[j]).1 != id,
    ensures
        unlisted(order, id) == order,
    decreases order.len(),
{
    if order.len() > 0 {
        lemma_unlisted_absent(order.drop_last(), id);
        assert(order =~= order.drop_last().push(order.last()));
    }
}

/// Where a sample stands on the list of a registry in order.
pub proof fn lemma_place_of(v: RegistryView, id: u64) -> (i: int)
    requires
        v.wf(),
        v.kept.contains_key(id),
    ensures
        0 <= i < v.order.len(),
        v.order[i] == (v.kept[id].position, id),
        unlisted(v.order, id) == v.order.remove(i),
{
    let e = (v.kept[id].position, id);
    let i = v.order.index_of(e);
    lemma_listed_once(v);
    lemma_unlisted(v.order, i);
    i
}

/// A registry in order stays in order when a sample goes.
pub proof fn lemma_without_wf(v: RegistryView, id: u64)
    requires
        v.wf(),
    ensures
        v.without(id).wf(),
        v.kept.contains_key(id) ==> v.without(id).order.len() == v.order.len() - 1,
        v.kept.contains_key(id) ==> v.without(id).kept.len() == v.kept.len() - 1,
{
    if v.kept.contains_key(id) {
        let i = lemma_place_of(v, id);
        let w = v.without(id);
        lemma_listed_once(v);
        let l = listed_ids(v.order);
        assert forall|j: int| 0 <= j < w.order.len() implies {
            let e = #[trigger] w.order[j];
            e.0 < w.place && w.kept.contains_key(e.1) && w.kept[e.1].position == e.0
        } by {
            let k = if j < i {
                j
            } else {
                j + 1
            };
            assert(w.order[j] == v.order[k]);
            assert(l[k] != l[i]);
        }
        assert forall|a: int, b: int| 0 <= a < b < w.order.len() implies (#[trigger] w.order[a]).0
            < (#[trigger] w.order[b]).0 by {
            let x = if a < i {
                a
            } else {
                a + 1
            };
            let y = if b < i {
                b
            } else {
                b + 1
            };
            assert(w.order[a] == v.order[x] && w.order[b] == v.order[y]);
        }
        assert forall|x: u64| #[trigger] w.kept.contains_key(x) implies w.order.contains(
            (w.kept[x].position, x),
        ) && w.kept[x].wf() by {
            assert(v.kept.contains_key(x));
            let e = (v.kept[x].position, x);
            let k = v.order.index_of(e);
            assert(k != i);
            if k < i {
                assert(w.order[k] == e);
            } else {
                assert(w.order[k - 1] == e);
            }
        }
    }
}

/// A registry in order stays in order when a sample comes.
pub proof fn lemma_with_wf(v: RegistryView, id: u64, trees: Seq<usize>, label: bool)
    requires
        v.wf(),
        v.place < i64::MAX,
    ensures
        v.with(id, trees, label).wf(),
        v.with(id, trees, label).kept.len() <= v.kept.len() + 1,
{
    lemma_without_wf(v, id);
    let rest = v.without(id);
    let w = v.with(id, trees, label);
    assert(!rest.kept.contains_key(id));
    assert forall|j: int| 0 <= j < w.order.len() implies {
        let e = #[trigger] w.order[j];
        e.0 < w.place && w.kept.contains_key(e.1) && w.kept[e.1].position == e.0
    } by {
        if j < rest.order.len() {
            assert(w.order[j] == rest.order[j]);
        }
    }
    assert forall|x: u64| #[trigger] w.kept.contains_key(x) implies w.order.contains(
        (w.kept[x].position, x),
    ) && w.kept[x].wf() by {
        if x == id {
            assert(w.order[rest.order.len() as int] == (w.kept[x].position, x));
        } else {
            assert(rest.kept.contains_key(x));
            let e = (rest.kept[x].position, x);
            let k = rest.order.index_of(e);
            assert(w.order[k] == e);
        }
    }
}

/// Letting the sample go that came first is letting a sample go.
pub proof fn lemma_popped(v: RegistryView)
    requires
        v.wf(),
        v.order.len() > 0,
    ensures
        v.popped() == v.without(v.order[0].1),
        v.popped().wf(),
{
    let id = v.order[0].1;
    lemma_listed_once(v);
    lemma_unlisted(v.order, 0);
    assert(v.kept.contains_key(id));
    assert(v.order.remove(0) =~= v.order.drop_first());
    lemma_without_wf(v, id);
}

/// Samples go from memory in the order in which they came, and go on going until the rest
/// takes no more memory than it may, or nothing is left.
pub proof fn law_memory_is_bounded(v: RegistryView)
    requires
        v.wf(),
    ensures
        v.trimmed() == v.shortened(v.excess()),
        v.trimmed().wf(),
        v.trimmed().bytes <= v.limit || v.trimmed().order.len() == 0,
        v.excess() <= v.order.len(),
        v.trimmed().order == v.order.skip(v.excess() as int),
    decreases v.order.len(),
{
    if v.bytes > v.limit && v.order.len() > 0 {
        lemma_popped(v);
        law_memory_is_bounded(v.popped());
        assert(v.popped().order.skip(v.popped().excess() as int) =~= v.order.skip(
            v.excess() as int,
        ));
    } else {
        assert(v.order.skip(0) =~= v.order);
    }
}

/// What is left once so many samples have gone.
pub proof fn lemma_shortened(v: RegistryView, n: nat)
    requires
        v.wf(),
    ensures
        v.shortened(n).wf(),
        n <= v.order.len() ==> v.shortened(n).order == v.order.skip(n as int),
        n > v.order.len() ==> v.shortened(n).order.len() == 0,
    decreases n,
{
    if n > 0 && v.order.len() > 0 {
        lemma_popped(v);
        lemma_shortened(v.popped(), (n - 1) as nat);
        if n <= v.order.len() {
            assert(v.popped().order.skip(n - 1) =~= v.order.skip(n as int));
        }
    } else if n == 0 {
        assert(v.order.skip(0) =~= v.order);
    } else {
        assert(v.order.len() == 0);
    }
}

/// The memory of a list rests on the samples that stand on it.
proof fn lemma_bytes_frame(
    a: Map<u64, TrackedView>,
    b: Map<u64, TrackedView>,
    order: Seq<(u64, u64)>,
)
    requires
        forall|i: int| 0 <= i < order.len() ==> a[(#[trigger] order[i]).1] == b[order[i].1],
    ensures
        bytes_of(a, order) == bytes_of(b, order),
        bytes_of(a, order) >= 0,
    decreases order.len(),
{
    if order.len() > 0 {
        assert(a[order[order.len() - 1].1] == b[order[order.len() - 1].1]);
        assert forall|i: int| 0 <= i < order.drop_last().len() implies a[(
        #[trigger] order.drop_last()[i]).1] == b[order.drop_last()[i].1] by {
            assert(order.drop_last()[i] == order[i]);
        }
        lemma_bytes_frame(a, b, order.drop_last());
    }
}

/// What taking an entry off a list does to its memory.
proof fn lemma_bytes_remove(kept: Map<u64, TrackedView>, order: Seq<(u64, u64)>, i: int)
    requires
        0 <= i < order.len(),
    ensures
        bytes_of(kept, order) == bytes_of(kept, order.remove(i)) + kept[order[i].1].bytes(),
    decreases order.len(),
{
    if i == order.len() - 1 {
        assert(order.remove(i) =~= order.drop_last());
    } else {
        lemma_bytes_remove(kept, order.drop_last(), i);
        assert(order.remove(i).drop_last() =~= order.drop_last().remove(i));
        assert(order.remove(i).last() == order.last());
    }
}

/// The estimate of the memory is kept true by samples that go, and by samples that come as
/// long as a number can hold it.
pub proof fn law_memory_estimate(v: RegistryView, id: u64, trees: Seq<usize>, label: bool)
    requires
        v.wf(),
        balanced(v),
        v.place < i64::MAX,
        v.bytes + TrackedView::fresh(trees, label, v.place).bytes() <= usize::MAX,
    ensures
        balanced(v.without(id)),
        balanced(v.with(id, trees, label)),
{
    let rest = v.without(id);
    if v.kept.contains_key(id) {
        let i = lemma_place_of(v, id);
        lemma_bytes_remove(v.kept, v.order, i);
        lemma_listed_once(v);
        let l = listed_ids(v.order);
        assert forall|j: int| 0 <= j < rest.order.len() implies v.kept[(#[trigger] rest.order[j]).1]
            == rest.kept[rest.order[j].1] by {
            let k = if j < i {
                j
            } else {
                j + 1
            };
            assert(rest.order[j] == v.order[k]);
            assert(l[k] != l[i]);
        }
        lemma_bytes_frame(v.kept, rest.kept, rest.order);
    }
    let w = v.with(id, trees, label);
    lemma_without_wf(v, id);
    assert(w.order.drop_last() =~= rest.order);
    assert forall|j: int| 0 <= j < rest.order.len() implies w.kept[(#[trigger] rest.order[j]).1]
        == rest.kept[rest.order[j].1] by {
        assert(rest.kept.contains_key(rest.order[j].1));
    }
    lemma_bytes_frame(w.kept, rest.kept, rest.order);
    assert(w.kept[w.order.last().1] == TrackedView::fresh(trees, label, v.place));
}

/// The estimate of the memory is kept true when something else is kept of a sample, as
/// long as a number can hold it: when an influence or a rank is recorded, and when other
/// trees are noted.
pub proof fn law_memory_estimate_of_changes(v: RegistryView, id: u64, sample: TrackedView)
    requires
        v.wf(),
        balanced(v),
        v.kept.contains_key(id),
        v.bytes - v.kept[id].bytes() + sample.bytes() <= usize::MAX,
        sample.bytes() <= usize::MAX,
    ensures
        balanced(v.resized(id, sample)),
{
    let w = v.resized(id, sample);
    let i = lemma_place_of(v, id);
    let rest = v.order.remove(i);
    lemma_bytes_remove(v.kept, v.order, i);
    lemma_bytes_remove(w.kept, v.order, i);
    lemma_listed_once(v);
    let l = listed_ids(v.order);
    assert forall|j: int| 0 <= j < rest.len() implies v.kept[(#[trigger] rest[j]).1]
        == w.kept[rest[j].1] by {
        let k = if j < i {
            j
        } else {
            j + 1
        };
        assert(rest[j] == v.order[k]);
        assert(l[k] != l[i]);
    }
    lemma_bytes_frame(v.kept, w.kept, rest);
}

/// What a sample that goes or comes does to the sizes of the classes.
proof fn lemma_class(kept: Map<u64, TrackedView>, id: u64, sample: TrackedView, label: bool)
    requires
        kept.dom().finite(),
    ensures
        of_class(kept, label).finite(),
        of_class(kept, label).len() <= kept.len(),
        kept.contains_key(id) ==> of_class(kept.remove(id), label).len() == of_class(
            kept,
            label,
        ).len() - (if kept[id].label == label {
            1int
        } else {
            0int
        }),
        !kept.contains_key(id) ==> of_class(kept.insert(id, sample), label).len() == of_class(
            kept,
            label,
        ).len() + (if sample.label == label {
            1int
        } else {
            0int
        }),
{
    let s = of_class(kept, label);
    vstd::set_lib::lemma_len_subset(s, kept.dom());
    if kept.contains_key(id) {
        let t = of_class(kept.remove(id), label);
        if kept[id].label == label {
            assert(t =~= s.remove(id));
        } else {
            assert(t =~= s);
        }
    } else {
        let t = of_class(kept.insert(id, sample), label);
        if sample.label == label {
            assert(t =~= s.insert(id));
        } else {
            assert(t =~= s);
        }
    }
}

/// The samples that are kept, with what is known of them, and the rules by which samples
/// have to go when there are too many.
pub struct InfluenceRegistry {
    samples: IdTable<TrackedSample>,
    /// Places and samples, in order.
    position_index: Vec<(u64, u64)>,
    max_bytes: usize,
    current_bytes: usize,
    current_position: u64,
    count_minus: usize,
    count_plus: usize,
    budget_config: Option<BudgetConfig>,
    cumulative_eviction_stats: EvictionStats,
    influence_tracking_enabled: bool,
}

/// What is kept of samples.
pub open spec fn entry_views(samples: Map<u64, TrackedSample>) -> Map<u64, TrackedView> {
    samples.map_values(|s: TrackedSample| s@)
}

impl View for InfluenceRegistry {
    type V = RegistryView;

    closed spec fn view(&self) -> RegistryView {
        RegistryView {
            kept: entry_views(self.samples@),
            order: self.position_index@,
            bytes: self.current_bytes,
            limit: self.max_bytes,
            place: self.current_position,
            budget: self.budget_config,
            evictions: self.cumulative_eviction_stats,
            remembers: self.influence_tracking_enabled,
        }
    }
}

impl InfluenceRegistry {
    /// Whether places and samples belong together and the classes are counted right.
    pub closed spec fn wf(&self) -> bool {
        &&& self@.wf()
        &&& self.count_minus == of_class(self@.kept, false).len()
        &&& self.count_plus == of_class(self@.kept, true).len()
    }

    /// Places and samples of a registry belong together.
    pub proof fn lemma_view_wf(&self)
        requires
            self.wf(),
        ensures
            self@.wf(),
    {
    }

    /// A registry without samples, with the usual limit of memory.
    pub fn new() -> (r: Self)
        ensures
            r.wf(),
            r@ == blank_registry(DEFAULT_MEMORY_LIMIT),
    {
        Self::with_max_bytes(DEFAULT_MEMORY_LIMIT)
    }

    /// A registry without samples, with a limit of memory.
    pub fn with_fixed_limit(max_bytes: usize) -> (r: Self)
        ensures
            r.wf(),
            r@ == blank_registry(max_bytes),
    {
        Self::with_max_bytes(max_bytes)
    }

    /// A registry without samples, with a limit of memory.
    pub fn with_max_bytes(max_bytes: usize) -> (r: Self)
        ensures
            r.wf(),
            r@ == blank_registry(max_bytes),
    {
        let r = InfluenceRegistry {
            samples: IdTable::new(),
            position_index: Vec::new(),
            max_bytes,
            current_bytes: 0,
            current_position: 0,
            count_minus: 0,
            count_plus: 0,
            budget_config: None,
            cumulative_eviction_stats: EvictionStats::default(),
            influence_tracking_enabled: false,
        };
        proof {
            assert(r@.kept =~= Map::<u64, TrackedView>::empty());
            assert(r@.order =~= Seq::<(u64, u64)>::empty());
            assert(of_class(r@.kept, false) =~= Set::<u64>::empty());
            assert(of_class(r@.kept, true) =~= Set::<u64>::empty());
        }
        r
    }

    /// Sets how many samples are kept, and which go first.
    pub fn set_budget_config(&mut self, config: BudgetConfig)
        requires
            old(self).wf(),
        ensures
            final(self).wf(),
            final(self)@ == (RegistryView { budget: Some(config), ..old(self)@ }),
    {
        self.budget_config = Some(config);
    }

    /// Sets how many samples are kept, if there is a budget.
    pub fn set_budget_max_samples(&mut self, max_samples: usize)
        requires
            old(self).wf(),
        ensures
            final(self).wf(),
            final(self)@ == (RegistryView {
                budget: match old(self)@.budget {
                    Some(config) => Some(BudgetConfig { max_samples, ..config }),
                    None => None,
                },
                ..old(self)@
            }),
    {
        match self.budget_config {
            Some(config) => {
                self.budget_config = Some(BudgetConfig { max_samples, ..config });
            },
            None => {},
        }
    }

    /// Sets whether the influence before the latest one is remembered.
    pub fn set_influence_tracking(&mut self, enabled: bool)
        requires
            old(self).wf(),
        ensures
            final(self).wf(),
            final(self)@ == (RegistryView { remembers: enabled, ..old(self)@ }),
    {
        self.influence_tracking_enabled = enabled;
    }

    /// Finds where a sample stands on the list.
    fn find_place(&self, position: u64) -> (r: usize)
        requires
            self@.wf(),
            exists|i: int| 0 <= i < self.position_index@.len() && (#[trigger] self.position_index@[i]).0 == position,
        ensures
            r < self.position_index@.len(),
            self.position_index@[r as int].0 == position,
    {
        let ghost w = choose|i: int|
            0 <= i < self.position_index@.len() && (#[trigger] self.position_index@[i]).0
                == position;
        let mut low: usize = 0;
        let mut high: usize = self.position_index.len();
        while high - low > 1
            invariant
                self@.wf(),
                low <= w < high <= self.position_index@.len(),
                self.position_index@[w].0 == position,
            decreases high - low,
        {
            let middle: usize = low + (high - low) / 2;
            assert(w < middle ==> self@.order[w].0 < self@.order[middle as int].0);
            assert(w > middle ==> self@.order[middle as int].0 < self@.order[w].0);
            if self.position_index[middle].0 <= position {
                low = middle;
            } else {
                high = middle;
            }
        }
        low
    }

    /// Lets a sample go. Says whether it was kept.
    pub fn remove(&mut self, sample_id: u64) -> (r: bool)
        requires
            old(self).wf(),
        ensures
            final(self).wf(),
            final(self)@ == old(self)@.without(sample_id),
            r == old(self)@.kept.contains_key(sample_id),
    {
        let ghost v = self@;
        proof {
            lemma_class(v.kept, sample_id, v.kept[sample_id], false);
            lemma_class(v.kept, sample_id, v.kept[sample_id], true);
            lemma_without_wf(v, sample_id);
        }
        let position: u64 = match self.samples.get(sample_id) {
            Some(sample) => sample.position,
            None => {
                return false;
            },
        };
        let ghost at = lemma_place_of(v, sample_id);
        assert(self.position_index@[at].0 == position);
        let i: usize = self.find_place(position);
        proof {
            if i < at {
                assert(v.order[i as int].0 < v.order[at].0);
            }
            if at < i {
                assert(v.order[at].0 < v.order[i as int].0);
            }
        }
        self.position_index.remove(i);
        match self.samples.remove(sample_id) {
            Some(sample) => {
                let bytes: usize = sample.memory_bytes();
                self.current_bytes = self.current_bytes.saturating_sub(bytes);
                if sample.label {
                    self.count_plus = self.count_plus - 1;
                } else {
                    self.count_minus = self.count_minus - 1;
                }
            },
            None => {},
        }
        proof {
            assert(self@.kept =~= v.kept.remove(sample_id));
            assert(self@.order =~= v.order.remove(at));
        }
        true
    }

    /// Lets samples go. Says how many of them were kept.
    pub fn remove_batch(&mut self, sample_ids: &[u64]) -> (r: usize)
        requires
            old(self).wf(),
        ensures
            final(self).wf(),
            final(self)@ == without_each(old(self)@, sample_ids@, sample_ids@.len() as int),
            r == old(self)@.kept.len() - final(self)@.kept.len(),
    {
        let mut count: usize = 0;
        let mut i: usize = 0;
        while i < sample_ids.len()
            invariant
                i <= sample_ids@.len(),
                self.wf(),
                self@ == without_each(old(self)@, sample_ids@, i as int),
                count <= i,
                count + self@.kept.len() == old(self)@.kept.len(),
            decreases sample_ids@.len() - i,
        {
            proof {
                lemma_without_wf(self@, sample_ids@[i as int]);
            }
            if self.remove(sample_ids[i]) {
                count = count + 1;
            }
            i = i + 1;
        }
        count
    }

    /// Keeps a sample that has just come, without looking at the limits.
    fn register_internal(&mut self, sample_id: u64, tree_indices: Vec<usize>, label: bool)
        requires
            old(self).wf(),
            old(self)@.place < i64::MAX,
        ensures
            final(self).wf(),
            final(self)@ == old(self)@.with(sample_id, tree_indices@, label),
    {
        let ghost v = self@;
        let position: u64 = self.current_position;
        let ghost trees = tree_indices@;
        self.remove(sample_id);
        let ghost rest = self@;
        let sample = TrackedSample::new(tree_indices, label, position);
        let sample_bytes: usize = sample.memory_bytes();
        proof {
            lemma_class(rest.kept, sample_id, sample@, false);
            lemma_class(rest.kept, sample_id, sample@, true);
            lemma_with_wf(v, sample_id, trees, label);
            lemma_listed_once(rest);
        }
        self.samples.insert(sample_id, sample);
        let kept: usize = self.samples.len();
        proof {
            let now = rest.kept.insert(sample_id, sample@);
            assert(now.dom() =~= self.samples@.dom());
            lemma_class(now, sample_id, sample@, label);
            assert(of_class(now, label).len() <= kept);
        }
        self.position_index.push((position, sample_id));
        self.current_bytes = self.current_bytes.saturating_add(sample_bytes);
        self.current_position = position + 1;
        if label {
            self.count_plus = self.count_plus + 1;
        } else {
            self.count_minus = self.count_minus + 1;
        }
        proof {
            assert(self@.kept =~= rest.kept.insert(sample_id, TrackedView::fresh(trees, label, position)));
            assert(self@ =~= v.with(sample_id, trees, label));
        }
    }

    /// Lets those that came first go until the samples take no more memory than they may.
    /// Says which have gone.
    fn enforce_fixed_limit(&mut self) -> (r: Vec<u64>)
        requires
            old(self).wf(),
        ensures
            final(self).wf(),
            final(self)@ == old(self)@.trimmed(),
            r@ == listed_ids(old(self)@.order.take(old(self)@.excess() as int)),
    {
        let mut evicted: Vec<u64> = Vec::new();
        let ghost v = self@;
        proof {
            law_memory_is_bounded(v);
            assert(listed_ids(v.order.take(0)) =~= Seq::<u64>::empty());
            assert(v.order.skip(0) =~= v.order);
        }
        while self.current_bytes > self.max_bytes && self.position_index.len() > 0
            invariant
                self.wf(),
                v.wf(),
                v.trimmed() == self@.trimmed(),
                v.excess() == evicted@.len() + self@.excess(),
                evicted@.len() <= v.order.len(),
                self@.order == v.order.skip(evicted@.len() as int),
                evicted@ == listed_ids(v.order.take(evicted@.len() as int)),
            decreases self.position_index@.len(),
        {
            let oldest: u64 = self.position_index[0].1;
            let ghost before = self@;
            let ghost gone = evicted@;
            proof {
                lemma_popped(before);
            }
            self.remove(oldest);
            evicted.push(oldest);
            proof {
                let k = gone.len() as int;
                assert(v.order.skip(k)[0] == v.order[k]);
                assert(self@.order =~= v.order.skip(k + 1));
                assert(evicted@ =~= listed_ids(v.order.take(k + 1)));
            }
        }
        evicted
    }
}

/// A registry without samples.
pub open spec fn blank_registry(max_bytes: usize) -> RegistryView {
    RegistryView {
        kept: Map::empty(),
        order: Seq::empty(),
        bytes: 0,
        limit: max_bytes,
        place: 0,
        budget: None,
        evictions: no_evictions(),
        remembers: false,
    }
}

/// A registry once some samples have gone.
pub open spec fn without_each(v: RegistryView, ids: Seq<u64>, n: int) -> RegistryView
    decreases n,
{
    if n <= 0 {
        v
    } else {
        without_each(v, ids, n - 1).without(ids[n - 1])
    }
}

/// A registry once some samples have come.
pub open spec fn with_each(
    v: RegistryView,
    ids: Seq<u64>,
    trees: Seq<Vec<usize>>,
    labels: Seq<bool>,
    n: int,
) -> RegistryView
    decreases n,
{
    if n <= 0 {
        v
    } else {
        with_each(v, ids, trees, labels, n - 1).with(
            ids[n - 1],
            trees[n - 1]@,
            labels[n - 1],
        )
    }
}

} // verus!
