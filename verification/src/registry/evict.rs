//! Letting samples go when there are too many.

use super::entry::TrackedView;
use super::select::{
    admitted, chosen_by, law_choice_is_determined, law_highest_scores_go, Rule, Scales,
};
use super::{
    law_memory_is_bounded, lemma_listed_once, lemma_popped, lemma_with_wf, lemma_without_wf,
    listed_ids, more, of_class, with_each, without_each, BudgetConfig, EvictionStats,
    InfluenceRegistry, RegistryView,
};
use vstd::prelude::*;

verus! {

/// Whether a pair holds the smallest and the largest known influence; there is none if
/// none is known.
pub open spec fn spans_influences(
    kept: Map<u64, TrackedView>,
    span: Option<(i64, i64)>,
) -> bool {
    match span {
        Some((low, high)) => {
            &&& forall|id: u64| #[trigger]
                kept.contains_key(id) && kept[id].cached_influence is Some ==> low
                    <= kept[id].cached_influence->0 <= high
            &&& exists|id: u64| #[trigger]
                kept.contains_key(id) && kept[id].cached_influence == Some(low)
            &&& exists|id: u64| #[trigger]
                kept.contains_key(id) && kept[id].cached_influence == Some(high)
        },
        None => forall|id: u64| #[trigger]
            kept.contains_key(id) ==> kept[id].cached_influence is None,
    }
}

/// The smallest and the largest known influence.
pub open spec fn influence_span(kept: Map<u64, TrackedView>) -> Option<(i64, i64)> {
    choose|span: Option<(i64, i64)>| spans_influences(kept, span)
}

/// There is only one smallest and one largest influence.
proof fn lemma_influence_span(kept: Map<u64, TrackedView>, span: Option<(i64, i64)>)
    requires
        spans_influences(kept, span),
    ensures
        influence_span(kept) == span,
{
    let other = influence_span(kept);
    assert(spans_influences(kept, other));
    match (span, other) {
        (Some((low, high)), Some((a, b))) => {
            let i = choose|id: u64| #[trigger]
                kept.contains_key(id) && kept[id].cached_influence == Some(low);
            let j = choose|id: u64| #[trigger]
                kept.contains_key(id) && kept[id].cached_influence == Some(high);
            let k = choose|id: u64| #[trigger]
                kept.contains_key(id) && kept[id].cached_influence == Some(a);
            let l = choose|id: u64| #[trigger]
                kept.contains_key(id) && kept[id].cached_influence == Some(b);
            assert(kept.contains_key(i) && kept.contains_key(j) && kept.contains_key(k)
                && kept.contains_key(l));
        },
        (Some((low, high)), None) => {
            let i = choose|id: u64| #[trigger]
                kept.contains_key(id) && kept[id].cached_influence == Some(low);
            assert(kept[i].cached_influence is None);
        },
        (None, Some((a, b))) => {
            let k = choose|id: u64| #[trigger]
                kept.contains_key(id) && kept[id].cached_influence == Some(a);
            assert(kept[k].cached_influence is None);
        },
        (None, None) => {},
    }
}

/// What the eviction scores of a registry go by.
pub open spec fn scales_of(v: RegistryView, config: BudgetConfig) -> Scales {
    let minus = of_class(v.kept, false).len() as usize;
    let plus = of_class(v.kept, true).len() as usize;
    let oldest = if v.order.len() > 0 && v.place >= v.order[0].0 {
        (v.place - v.order[0].0) as u64
    } else {
        0
    };
    Scales {
        config,
        minority: plus < minus,
        max_age: if oldest < 1 {
            1
        } else {
            oldest
        },
        span: influence_span(v.kept),
        total: v.kept.len() as usize,
        minus,
        plus,
    }
}

/// The rule by which samples go.
pub open spec fn eviction_rule(v: RegistryView, config: BudgetConfig) -> Rule {
    if config.random_eviction {
        Rule::Scrambled
    } else {
        Rule::Eviction { scales: scales_of(v, config) }
    }
}

/// How many samples have to go for the budget.
pub open spec fn overrun(v: RegistryView) -> int {
    match v.budget {
        Some(config) => if v.kept.len() <= config.max_samples {
            0
        } else if v.kept.len() - config.max_samples < config.eviction_batch_size {
            config.eviction_batch_size as int
        } else {
            v.kept.len() - config.max_samples
        },
        None => 0,
    }
}

/// How many of the first samples of a list are of a class.
pub open spec fn gone_of_class(
    kept: Map<u64, TrackedView>,
    ids: Seq<u64>,
    n: int,
    label: bool,
) -> nat
    decreases n,
{
    if n <= 0 {
        0
    } else {
        gone_of_class(kept, ids, n - 1, label) + if kept[ids[n - 1]].label == label {
            1nat
        } else {
            0nat
        }
    }
}

/// How many of the first samples of a list had come to do harm.
pub open spec fn gone_degraded(kept: Map<u64, TrackedView>, ids: Seq<u64>, n: int) -> nat
    decreases n,
{
    if n <= 0 {
        0
    } else {
        gone_degraded(kept, ids, n - 1) + if kept[ids[n - 1]].degraded() {
            1nat
        } else {
            0nat
        }
    }
}

/// How many of the first samples of a list had a known influence.
pub open spec fn gone_known(kept: Map<u64, TrackedView>, ids: Seq<u64>, n: int) -> nat
    decreases n,
{
    if n <= 0 {
        0
    } else {
        gone_known(kept, ids, n - 1) + if kept[ids[n - 1]].cached_influence is Some {
            1nat
        } else {
            0nat
        }
    }
}

/// A sum with the known influences of the first samples of a list; a summand for which
/// there is no room is left out.
pub open spec fn gone_sum(kept: Map<u64, TrackedView>, ids: Seq<u64>, n: int, from: i128) -> i128
    decreases n,
{
    if n <= 0 {
        from
    } else {
        let before = gone_sum(kept, ids, n - 1, from);
        match kept[ids[n - 1]].cached_influence {
            Some(x) => if i128::MIN <= before + x <= i128::MAX {
                (before + x) as i128
            } else {
                before
            },
            None => before,
        }
    }
}

/// What is known of the samples that have gone once some more have.
pub open spec fn evictions_with(
    stats: EvictionStats,
    kept: Map<u64, TrackedView>,
    ids: Seq<u64>,
) -> EvictionStats {
    let n = ids.len() as int;
    EvictionStats {
        evicted_count: more(stats.evicted_count, n as usize),
        evicted_benign: more(stats.evicted_benign, gone_of_class(kept, ids, n, false) as usize),
        evicted_attack: more(stats.evicted_attack, gone_of_class(kept, ids, n, true) as usize),
        evicted_degraded: more(stats.evicted_degraded, gone_degraded(kept, ids, n) as usize),
        evicted_with_influence: more(
            stats.evicted_with_influence,
            gone_known(kept, ids, n) as usize,
        ),
        evicted_influence_sum: gone_sum(kept, ids, n, stats.evicted_influence_sum),
    }
}

/// Whether a registry has let go of the samples that the budget asks to go.
pub open spec fn budgeted(before: RegistryView, after: RegistryView, ids: Seq<u64>) -> bool {
    if overrun(before) == 0 {
        after == before && ids.len() == 0
    } else {
        &&& chosen_by(before, eviction_rule(before, before.budget->0), overrun(before), ids)
        &&& after == (RegistryView {
            evictions: evictions_with(before.evictions, before.kept, ids),
            ..without_each(before, ids, ids.len() as int)
        })
    }
}

/// Whether a registry has been brought within its budget and then within its memory.
pub open spec fn limited(before: RegistryView, after: RegistryView, gone: Seq<u64>) -> bool {
    exists|between: RegistryView, ids: Seq<u64>| #[trigger]
        budgeted(before, between, ids) && after == between.trimmed() && gone == ids + listed_ids(
            between.order.take(between.excess() as int),
        )
}

/// The two classes have all the samples between them.
pub proof fn law_classes_add_up(v: RegistryView)
    requires
        v.wf(),
    ensures
        of_class(v.kept, false).len() + of_class(v.kept, true).len() == v.kept.len(),
{
    let minus = of_class(v.kept, false);
    let plus = of_class(v.kept, true);
    vstd::set_lib::lemma_len_subset(minus, v.kept.dom());
    vstd::set_lib::lemma_len_subset(plus, v.kept.dom());
    assert(minus.disjoint(plus));
    vstd::set_lib::lemma_set_disjoint_lens(minus, plus);
    assert(minus + plus =~= v.kept.dom());
}

/// A sample that is registered where there is room for it is kept with its trees and its
/// class and with nothing else known of it, as the newest one. What was kept of it before
/// is gone, the others stay as they are, and none has to go.
pub proof fn law_registering(
    v: RegistryView,
    after: RegistryView,
    gone: Seq<u64>,
    id: u64,
    trees: Seq<usize>,
    label: bool,
)
    requires
        v.wf(),
        v.place < i64::MAX,
        limited(v.with(id, trees, label), after, gone),
        overrun(v.with(id, trees, label)) == 0,
        v.with(id, trees, label).bytes <= v.limit,
    ensures
        gone.len() == 0,
        after.wf(),
        after.place == v.place + 1,
        after.kept.contains_key(id),
        after.kept[id] == TrackedView::fresh(trees, label, v.place),
        after.kept[id].cached_influence is None,
        forall|other: u64|
            other != id ==> #[trigger] after.kept.contains_key(other) == v.kept.contains_key(other)
                && (v.kept.contains_key(other) ==> after.kept[other] == v.kept[other]),
        v.kept.contains_key(id) ==> after.kept.len() == v.kept.len()
            && !after.order.contains((v.kept[id].position, id)),
        !v.kept.contains_key(id) ==> after.kept.len() == v.kept.len() + 1,
        after.order.len() > 0,
        listed_ids(after.order).reverse()[0] == id,
        of_class(after.kept, false).len() + of_class(after.kept, true).len() == after.kept.len(),
{
    let w = v.with(id, trees, label);
    let (between, ids) = choose|between: RegistryView, ids: Seq<u64>| #[trigger]
        budgeted(w, between, ids) && after == between.trimmed() && gone == ids + listed_ids(
            between.order.take(between.excess() as int),
        );
    assert(between == w);
    assert(after == w);
    lemma_without_wf(v, id);
    lemma_with_wf(v, id, trees, label);
    law_classes_add_up(after);
    let rest = v.without(id);
    assert(!rest.kept.contains_key(id));
    if v.kept.contains_key(id) {
        let e = (v.kept[id].position, id);
        assert(v.order.contains(e));
        if after.order.contains(e) {
            let i = after.order.index_of(e);
            assert(after.kept[after.order[i].1].position == e.0);
        }
    }
}

/// Samples that go leave the place alone.
proof fn lemma_without_each_place(v: RegistryView, ids: Seq<u64>, n: int)
    ensures
        without_each(v, ids, n).place == v.place,
    decreases n,
{
    if n > 0 {
        lemma_without_each_place(v, ids, n - 1);
    }
}

/// Trimming leaves the place alone.
proof fn lemma_trimmed_place(v: RegistryView)
    ensures
        v.trimmed().place == v.place,
    decreases v.order.len(),
{
    if v.bytes > v.limit && v.order.len() > 0 {
        lemma_trimmed_place(v.popped());
    }
}

/// Bringing a registry within its limits leaves its place alone.
pub proof fn lemma_limited_place(before: RegistryView, after: RegistryView, gone: Seq<u64>)
    requires
        limited(before, after, gone),
    ensures
        after.place == before.place,
{
    let (between, ids) = choose|between: RegistryView, ids: Seq<u64>| #[trigger]
        budgeted(before, between, ids) && after == between.trimmed() && gone == ids + listed_ids(
            between.order.take(between.excess() as int),
        );
    lemma_without_each_place(before, ids, ids.len() as int);
    lemma_trimmed_place(between);
}

/// Letting samples go one after the other takes out each of them.
proof fn lemma_without_each(v: RegistryView, ids: Seq<u64>, n: int)
    requires
        v.wf(),
        0 <= n <= ids.len(),
        ids.no_duplicates(),
        forall|i: int| 0 <= i < ids.len() ==> v.kept.contains_key(#[trigger] ids[i]),
    ensures
        without_each(v, ids, n).wf(),
        without_each(v, ids, n).kept.len() == v.kept.len() - n,
        without_each(v, ids, n).budget == v.budget,
        without_each(v, ids, n).place == v.place,
        forall|i: int|
            n <= i < ids.len() ==> without_each(v, ids, n).kept.contains_key(#[trigger] ids[i])
                && without_each(v, ids, n).kept[ids[i]] == v.kept[ids[i]],
    decreases n,
{
    if n > 0 {
        lemma_without_each(v, ids, n - 1);
        let w = without_each(v, ids, n - 1);
        lemma_without_wf(w, ids[n - 1]);
        assert(w.kept.contains_key(ids[n - 1]));
        assert forall|i: int| n <= i < ids.len() implies without_each(
            v,
            ids,
            n,
        ).kept.contains_key(#[trigger] ids[i]) && without_each(v, ids, n).kept[ids[i]]
            == v.kept[ids[i]] by {
            assert(ids[i] != ids[n - 1]);
        }
    }
}

/// The samples that are chosen differ.
pub proof fn lemma_chosen_differ(v: RegistryView, rule: Rule, n: int, list: Seq<u64>)
    requires
        chosen_by(v, rule, n, list),
    ensures
        list.no_duplicates(),
        forall|i: int| 0 <= i < list.len() ==> v.kept.contains_key(#[trigger] list[i]),
{
    assert forall|i: int, j: int| 0 <= i < j < list.len() implies list[i] != list[j] by {
        assert(super::select::stands_before(v, rule, list[i], list[j]));
    }
    assert forall|i: int| 0 <= i < list.len() implies v.kept.contains_key(#[trigger] list[i]) by {
        assert(admitted(v, rule).contains(list[i]));
    }
}

/// The samples that go first are determined by the registry and the budget: they are as
/// many as asked for, or all that there are, each once; their scores do not rise along the
/// list, equal scores stand by identifier, and no sample that is left out would stand
/// before one of them. Asking again gives the same list.
pub proof fn law_candidates_are_determined(
    v: RegistryView,
    config: BudgetConfig,
    n: int,
    a: Seq<u64>,
    b: Seq<u64>,
)
    requires
        !config.random_eviction,
        0 <= n,
        chosen_by(v, eviction_rule(v, config), n, a),
        chosen_by(v, eviction_rule(v, config), n, b),
    ensures
        a == b,
        a.no_duplicates(),
        a.len() == (if n <= v.kept.len() {
            n
        } else {
            v.kept.len() as int
        }),
        forall|i: int| 0 <= i < a.len() ==> v.kept.contains_key(#[trigger] a[i]),
        forall|i: int, id: u64|
            0 <= i < a.len() && #[trigger] v.kept.contains_key(id) && !a.take(i + 1).contains(id)
                ==> {
                let scales = scales_of(v, config);
                let x = scales.score(v.place, #[trigger] a[i], v.kept[a[i]]);
                let y = scales.score(v.place, id, v.kept[id]);
                x > y || (x == y && a[i] < id)
            },
{
    let rule = eviction_rule(v, config);
    law_choice_is_determined(v, rule, n, a, b);
    lemma_chosen_differ(v, rule, n, a);
    assert(admitted(v, rule) =~= v.kept.dom());
    assert forall|i: int, id: u64|
        0 <= i < a.len() && #[trigger] v.kept.contains_key(id) && !a.take(i + 1).contains(
            id,
        ) implies {
        let scales = scales_of(v, config);
        let x = scales.score(v.place, #[trigger] a[i], v.kept[a[i]]);
        let y = scales.score(v.place, id, v.kept[id]);
        x > y || (x == y && a[i] < id)
    } by {
        law_highest_scores_go(v, scales_of(v, config), n, a, i, id);
    }
}

/// A registry that has been brought within its budget holds no more samples than that.
pub proof fn law_budget_is_kept(before: RegistryView, after: RegistryView, ids: Seq<u64>)
    requires
        before.wf(),
        before.budget is Some,
        budgeted(before, after, ids),
    ensures
        after.wf(),
        after.kept.len() <= before.budget->0.max_samples,
{
    if overrun(before) != 0 {
        let rule = eviction_rule(before, before.budget->0);
        lemma_chosen_differ(before, rule, overrun(before), ids);
        assert(admitted(before, rule) =~= before.kept.dom());
        lemma_without_each(before, ids, ids.len() as int);
    }
}

/// Letting samples go for memory leaves no more of them.
proof fn lemma_trimmed_len(v: RegistryView)
    requires
        v.wf(),
    ensures
        v.trimmed().kept.len() <= v.kept.len(),
        v.trimmed().place == v.place,
        v.trimmed().budget == v.budget,
        v.trimmed().limit == v.limit,
    decreases v.order.len(),
{
    if v.bytes > v.limit && v.order.len() > 0 {
        lemma_popped(v);
        lemma_without_wf(v, v.order[0].1);
        lemma_trimmed_len(v.popped());
    }
}

/// A registry that has been brought within its limits holds no more samples than its budget
/// allows, and they take no more memory than they may, unless none is left.
pub proof fn law_limits_are_kept(before: RegistryView, after: RegistryView, gone: Seq<u64>)
    requires
        before.wf(),
        limited(before, after, gone),
    ensures
        after.wf(),
        before.budget is Some ==> after.kept.len() <= before.budget->0.max_samples,
        after.bytes <= before.limit || after.kept.len() == 0,
{
    let (between, ids) = choose|between: RegistryView, ids: Seq<u64>| #[trigger]
        budgeted(before, between, ids) && after == between.trimmed() && gone == ids + listed_ids(
            between.order.take(between.excess() as int),
        );
    if overrun(before) != 0 {
        let rule = eviction_rule(before, before.budget->0);
        lemma_chosen_differ(before, rule, overrun(before), ids);
        lemma_without_each(before, ids, ids.len() as int);
        lemma_limit_stays(before, ids, ids.len() as int);
    }
    if before.budget is Some {
        law_budget_is_kept(before, between, ids);
    }
    law_memory_is_bounded(between);
    lemma_trimmed_len(between);
    lemma_listed_once(after);
}

/// The limit of memory stays.
proof fn lemma_limit_stays(v: RegistryView, ids: Seq<u64>, n: int)
    requires
        0 <= n,
    ensures
        without_each(v, ids, n).limit == v.limit,
    decreases n,
{
    if n > 0 {
        lemma_limit_stays(v, ids, n - 1);
    }
}

/// Samples that come one after the other.
proof fn lemma_with_each(
    v: RegistryView,
    ids: Seq<u64>,
    trees: Seq<Vec<usize>>,
    labels: Seq<bool>,
    n: int,
)
    requires
        v.wf(),
        0 <= n,
        v.place + n <= i64::MAX,
    ensures
        with_each(v, ids, trees, labels, n).wf(),
        with_each(v, ids, trees, labels, n).place == v.place + n,
        with_each(v, ids, trees, labels, n).budget == v.budget,
        with_each(v, ids, trees, labels, n).limit == v.limit,
    decreases n,
{
    if n > 0 {
        lemma_with_each(v, ids, trees, labels, n - 1);
        lemma_with_wf(
            with_each(v, ids, trees, labels, n - 1),
            ids[n - 1],
            trees[n - 1]@,
            labels[n - 1],
        );
    }
}

/// Counts of the first samples are no larger than their number.
proof fn lemma_gone_bounds(kept: Map<u64, TrackedView>, ids: Seq<u64>, n: int)
    requires
        0 <= n,
    ensures
        gone_of_class(kept, ids, n, false) + gone_of_class(kept, ids, n, true) == n,
        gone_degraded(kept, ids, n) <= n,
        gone_known(kept, ids, n) <= n,
    decreases n,
{
    if n > 0 {
        lemma_gone_bounds(kept, ids, n - 1);
    }
}

/// The number of entries of lists that are taken together.
pub open spec fn shortest(a: int, b: int, c: int) -> int {
    let x = if a <= b {
        a
    } else {
        b
    };
    if x <= c {
        x
    } else {
        c
    }
}

impl InfluenceRegistry {
    /// Finds the smallest and the largest known influence.
    fn find_span(&self) -> (r: Option<(i64, i64)>)
        requires
            self.wf(),
        ensures
            spans_influences(self@.kept, r),
            r == influence_span(self@.kept),
    {
        let ghost kept = self@.kept;
        let count: usize = self.samples.len();
        let ghost order = self.samples.order();
        let mut span: Option<(i64, i64)> = None;
        let mut i: usize = 0;
        while i < count
            invariant
                i <= count == order.len(),
                order == self.samples.order(),
                kept == self@.kept,
                forall|j: int| 0 <= j < i ==> kept.contains_key(#[trigger] order[j]),
                match span {
                    Some((low, high)) => {
                        &&& forall|j: int|
                            0 <= j < i && kept[#[trigger] order[j]].cached_influence is Some ==> low
                                <= kept[order[j]].cached_influence->0 <= high
                        &&& exists|id: u64| #[trigger]
                            kept.contains_key(id) && kept[id].cached_influence == Some(low)
                        &&& exists|id: u64| #[trigger]
                            kept.contains_key(id) && kept[id].cached_influence == Some(high)
                    },
                    None => forall|j: int|
                        0 <= j < i ==> kept[#[trigger] order[j]].cached_influence is None,
                },
            decreases count - i,
        {
            let sample = self.samples.value_at(i);
            assert(kept.contains_key(order[i as int]) && kept[order[i as int]] == sample@);
            match sample.cached_influence {
                Some(x) => {
                    span = match span {
                        Some((low, high)) => Some(
                            (
                                if x < low {
                                    x
                                } else {
                                    low
                                },
                                if x > high {
                                    x
                                } else {
                                    high
                                },
                            ),
                        ),
                        None => Some((x, x)),
                    };
                },
                None => {},
            }
            i = i + 1;
        }
        proof {
            assert forall|id: u64| #[trigger] kept.contains_key(id) implies exists|j: int|
                0 <= j < order.len() && #[trigger] order[j] == id by {
                assert(self.samples@.contains_key(id));
                assert(order.to_set().contains(id));
            }
            lemma_influence_span(kept, span);
        }
        span
    }

    /// Chooses the samples that go first.
    pub fn compute_eviction_candidates(&self, n: usize, config: &BudgetConfig) -> (r: Vec<u64>)
        requires
            self.wf(),
        ensures
            chosen_by(self@, eviction_rule(self@, *config), n as int, r@),
    {
        let ghost v = self@;
        if config.random_eviction {
            return self.choose_by(&Rule::Scrambled, n);
        }
        let total: usize = self.samples.len();
        let oldest: u64 = if self.position_index.len() > 0 {
            self.current_position.saturating_sub(self.position_index[0].0)
        } else {
            0
        };
        let scales = Scales {
            config: *config,
            minority: self.count_plus < self.count_minus,
            max_age: if oldest < 1 {
                1
            } else {
                oldest
            },
            span: self.find_span(),
            total,
            minus: self.count_minus,
            plus: self.count_plus,
        };
        proof {
            assert(v.kept.dom() =~= self.samples@.dom());
            assert(scales == scales_of(v, *config));
            assert forall|id: u64| #[trigger] v.kept.contains_key(id) implies scales.fits(
                v.place,
                v.kept[id],
            ) by {
                let e = (v.kept[id].position, id);
                assert(v.order.contains(e));
                let i = v.order.index_of(e);
                if i > 0 {
                    assert(v.order[0].0 < v.order[i].0);
                }
                assert(v.order[i].0 < v.place);
                match scales.span {
                    Some((low, high)) => {
                        let k = choose|x: u64| #[trigger]
                            v.kept.contains_key(x) && v.kept[x].cached_influence == Some(low);
                        assert(v.kept.contains_key(k));
                    },
                    None => {},
                }
            }
        }
        self.choose_by(&Rule::Eviction { scales }, n)
    }

    /// Lets samples go if there are more than the budget allows. Says which have gone.
    fn enforce_budget(&mut self) -> (r: Vec<u64>)
        requires
            old(self).wf(),
        ensures
            final(self).wf(),
            budgeted(old(self)@, final(self)@, r@),
    {
        let ghost v = self@;
        let config: BudgetConfig = match self.budget_config {
            Some(config) => config,
            None => {
                return Vec::new();
            },
        };
        let total: usize = self.samples.len();
        proof {
            assert(v.kept.dom() =~= self.samples@.dom());
        }
        if total <= config.max_samples {
            return Vec::new();
        }
        let extra: usize = total - config.max_samples;
        let wanted: usize = if extra < config.eviction_batch_size {
            config.eviction_batch_size
        } else {
            extra
        };
        let ids = self.compute_eviction_candidates(wanted, &config);
        let ghost rule = eviction_rule(v, config);
        proof {
            lemma_chosen_differ(v, rule, wanted as int, ids@);
        }
        let mut benign: usize = 0;
        let mut attack: usize = 0;
        let mut degraded: usize = 0;
        let mut known: usize = 0;
        let mut sum: i128 = self.cumulative_eviction_stats.evicted_influence_sum;
        let mut i: usize = 0;
        while i < ids.len()
            invariant
                i <= ids@.len(),
                self.wf(),
                v.wf(),
                self@ == without_each(v, ids@, i as int),
                ids@.no_duplicates(),
                forall|j: int| 0 <= j < ids@.len() ==> v.kept.contains_key(#[trigger] ids@[j]),
                benign == gone_of_class(v.kept, ids@, i as int, false),
                attack == gone_of_class(v.kept, ids@, i as int, true),
                degraded == gone_degraded(v.kept, ids@, i as int),
                known == gone_known(v.kept, ids@, i as int),
                sum == gone_sum(v.kept, ids@, i as int, v.evictions.evicted_influence_sum),
            decreases ids@.len() - i,
        {
            let id: u64 = ids[i];
            proof {
                lemma_without_each(v, ids@, i as int);
                lemma_gone_bounds(v.kept, ids@, i as int);
                assert(self@.kept.contains_key(ids@[i as int]));
            }
            match self.samples.get(id) {
                Some(sample) => {
                    if sample.label {
                        attack = attack + 1;
                    } else {
                        benign = benign + 1;
                    }
                    if sample.is_influence_degraded() {
                        degraded = degraded + 1;
                    }
                    match sample.cached_influence {
                        Some(x) => {
                            known = known + 1;
                            match sum.checked_add(x as i128) {
                                Some(s) => {
                                    sum = s;
                                },
                                None => {},
                            }
                        },
                        None => {},
                    }
                },
                None => {},
            }
            self.remove(id);
            i = i + 1;
        }
        proof {
            lemma_without_each(v, ids@, i as int);
            lemma_stats_stay(v, ids@, i as int);
        }
        let stats = self.cumulative_eviction_stats;
        self.cumulative_eviction_stats = EvictionStats {
            evicted_count: stats.evicted_count.saturating_add(ids.len()),
            evicted_benign: stats.evicted_benign.saturating_add(benign),
            evicted_attack: stats.evicted_attack.saturating_add(attack),
            evicted_degraded: stats.evicted_degraded.saturating_add(degraded),
            evicted_with_influence: stats.evicted_with_influence.saturating_add(known),
            evicted_influence_sum: sum,
        };
        ids
    }

    /// Lets samples go until the registry is within its budget and its memory. Says which
    /// have gone.
    fn enforce_limits(&mut self) -> (r: Vec<u64>)
        requires
            old(self).wf(),
        ensures
            final(self).wf(),
            limited(old(self)@, final(self)@, r@),
    {
        let mut gone = self.enforce_budget();
        let ghost between = self@;
        let ghost ids = gone@;
        let mut rest = self.enforce_fixed_limit();
        let ghost tail = rest@;
        gone.append(&mut rest);
        assert(gone@ =~= ids + tail);
        assert(budgeted(old(self)@, between, ids));
        gone
    }

    /// Keeps a sample that has just come, and lets others go if there are too many. Says
    /// which have gone.
    pub fn register(&mut self, sample_id: u64, tree_indices: Vec<usize>, label: bool) -> (r: Vec<
        u64,
    >)
        requires
            old(self).wf(),
            old(self)@.place < i64::MAX,
        ensures
            final(self).wf(),
            limited(old(self)@.with(sample_id, tree_indices@, label), final(self)@, r@),
    {
        self.register_internal(sample_id, tree_indices, label);
        self.enforce_limits()
    }

    /// Keeps samples that have just come, without looking at the limits.
    fn register_all(&mut self, sample_ids: &[u64], trees: &[Vec<usize>], labels: &[bool])
        requires
            old(self).wf(),
            old(self)@.place + shortest(
                sample_ids@.len() as int,
                trees@.len() as int,
                labels@.len() as int,
            ) <= i64::MAX,
        ensures
            final(self).wf(),
            final(self)@ == with_each(
                old(self)@,
                sample_ids@,
                trees@,
                labels@,
                shortest(sample_ids@.len() as int, trees@.len() as int, labels@.len() as int),
            ),
    {
        let mut n: usize = sample_ids.len();
        if trees.len() < n {
            n = trees.len();
        }
        if labels.len() < n {
            n = labels.len();
        }
        let mut i: usize = 0;
        while i < n
            invariant
                i <= n,
                n <= sample_ids@.len(),
                n <= trees@.len(),
                n <= labels@.len(),
                old(self)@.wf(),
                old(self)@.place + n <= i64::MAX,
                self.wf(),
                self@ == with_each(old(self)@, sample_ids@, trees@, labels@, i as int),
            decreases n - i,
        {
            proof {
                lemma_with_each(old(self)@, sample_ids@, trees@, labels@, i as int);
            }
            let list = copy_trees(&trees[i]);
            self.register_internal(sample_ids[i], list, labels[i]);
            i = i + 1;
        }
    }

    /// Keeps samples that have just come, and then lets others go if there are too many.
    /// Says which have gone.
    pub fn register_batch(
        &mut self,
        sample_ids: &[u64],
        tree_indices_list: &[Vec<usize>],
        labels: &[bool],
    ) -> (r: Vec<u64>)
        requires
            old(self).wf(),
            old(self)@.place + shortest(
                sample_ids@.len() as int,
                tree_indices_list@.len() as int,
                labels@.len() as int,
            ) <= i64::MAX,
        ensures
            final(self).wf(),
            limited(
                with_each(
                    old(self)@,
                    sample_ids@,
                    tree_indices_list@,
                    labels@,
                    shortest(
                        sample_ids@.len() as int,
                        tree_indices_list@.len() as int,
                        labels@.len() as int,
                    ),
                ),
                final(self)@,
                r@,
            ),
    {
        self.register_all(sample_ids, tree_indices_list, labels);
        self.enforce_limits()
    }

    /// Keeps samples that have just come, and then lets those go that came first until
    /// there are no more than the budget allows. Says which have gone.
    pub fn register_batch_fifo(
        &mut self,
        sample_ids: &[u64],
        tree_indices_list: &[Vec<usize>],
        labels: &[bool],
    ) -> (r: Vec<u64>)
        requires
            old(self).wf(),
            old(self)@.place + shortest(
                sample_ids@.len() as int,
                tree_indices_list@.len() as int,
                labels@.len() as int,
            ) <= i64::MAX,
        ensures
            final(self).wf(),
            ({
                let v = with_each(
                    old(self)@,
                    sample_ids@,
                    tree_indices_list@,
                    labels@,
                    shortest(
                        sample_ids@.len() as int,
                        tree_indices_list@.len() as int,
                        labels@.len() as int,
                    ),
                );
                let n = surplus(v);
                &&& final(self)@ == v.shortened(n)
                &&& r@ == listed_ids(v.order.take(n as int))
            }),
    {
        self.register_all(sample_ids, tree_indices_list, labels);
        let ghost v = self@;
        let max_samples: usize = match self.budget_config {
            Some(config) => config.max_samples,
            None => usize::MAX,
        };
        let total: usize = self.position_index.len();
        let n: usize = if total > max_samples {
            total - max_samples
        } else {
            0
        };
        proof {
            lemma_listed_once(v);
            assert(v.kept.dom() =~= self.samples@.dom());
            assert(n == surplus(v));
            assert(v.order.skip(0) =~= v.order);
        }
        let mut evicted: Vec<u64> = Vec::new();
        assert(listed_ids(v.order.take(0)) =~= Seq::<u64>::empty());
        while evicted.len() < n
            invariant
                self.wf(),
                v.wf(),
                evicted@.len() <= n <= v.order.len(),
                v.shortened(n as nat) == self@.shortened((n - evicted@.len()) as nat),
                self@.order == v.order.skip(evicted@.len() as int),
                evicted@ == listed_ids(v.order.take(evicted@.len() as int)),
            decreases n - evicted@.len(),
        {
            let ghost before = self@;
            let ghost gone = evicted@;
            proof {
                lemma_popped(before);
            }
            let oldest: u64 = self.position_index[0].1;
            self.remove(oldest);
            evicted.push(oldest);
            proof {
                let k = gone.len() as int;
                assert(v.order.skip(k)[0] == v.order[k]);
                assert(self@.order =~= v.order.skip(k + 1));
                assert(evicted@ =~= listed_ids(v.order.take(k + 1)));
            }
        }
        evicted
    }
}

/// How many samples there are more than the budget allows.
pub open spec fn surplus(v: RegistryView) -> nat {
    match v.budget {
        Some(config) => if v.kept.len() > config.max_samples {
            (v.kept.len() - config.max_samples) as nat
        } else {
            0
        },
        None => 0,
    }
}

/// What is known of the samples that have gone stays.
proof fn lemma_stats_stay(v: RegistryView, ids: Seq<u64>, n: int)
    requires
        0 <= n,
    ensures
        without_each(v, ids, n).evictions == v.evictions,
    decreases n,
{
    if n > 0 {
        lemma_stats_stay(v, ids, n - 1);
    }
}

/// Copies a list of trees.
fn copy_trees(list: &Vec<usize>) -> (r: Vec<usize>)
    ensures
        r@ == list@,
{
    let mut copy: Vec<usize> = Vec::new();
    while copy.len() < list.len()
        invariant
            copy@.len() <= list@.len(),
            copy@ == list@.take(copy@.len() as int),
        decreases list@.len() - copy@.len(),
    {
        copy.push(list[copy.len()]);
        assert(copy@ =~= list@.take(copy@.len() as int));
    }
    assert(copy@ =~= list@);
    copy
}

} // verus!
