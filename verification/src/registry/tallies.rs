//! What holds of the numbers that a registry keeps and reports.

use super::entry::{appended, TrackedView};
use super::evict::{
    budgeted, evictions_with, gone_degraded, gone_known, gone_of_class, gone_sum, overrun,
    surplus,
};
use super::report::{
    age_total, correlated, covariation, influence_replaced, influence_set, influence_total,
    off_centre, rank_spread, ranked, with_influence, Diagnostics,
};
use super::select::{age_of, law_choice_is_determined};
use super::{with_each, without_each, EvictionStats, RegistryView};
use crate::count::{lemma_those, those};
use vstd::prelude::*;

verus! {

/// A history ends with its latest entry, and keeps the twenty entries before it that came
/// last, or all if there are not more.
pub proof fn law_history_keeps_latest<T>(history: Seq<T>, entry: T)
    requires
        history.len() <= 20,
    ensures
        appended(history, entry).last() == entry,
        appended(history, entry).len() == (if history.len() < 20 {
            history.len() + 1
        } else {
            20
        }),
        forall|i: int|
            0 <= i < appended(history, entry).len() - 1 ==> #[trigger] appended(history, entry)[i]
                == history[history.len() - (appended(history, entry).len() - 1) + i],
{
}

/// An influence that is recorded is the latest one, the one before it is remembered, and
/// nothing but the history changes besides.
pub proof fn law_recording_remembers(s: TrackedView, position: u64, influence: i64, rank: usize)
    requires
        s.wf(),
    ensures
        s.with_influence(position, influence).cached_influence == Some(influence),
        s.with_influence(position, influence).prev_influence == s.cached_influence,
        s.with_influence(position, influence).influence_history.last() == (position, influence),
        s.with_influence(position, influence).removal_rank_history == s.removal_rank_history,
        s.with_influence(position, influence).label == s.label,
        s.with_influence(position, influence).position == s.position,
        s.with_influence(position, influence).tree_indices == s.tree_indices,
        s.with_rank(position, rank).removal_rank_history.last() == (position, rank),
        s.with_rank(position, rank).influence_history == s.influence_history,
        s.with_rank(position, rank).cached_influence == s.cached_influence,
        s.with_rank(position, rank).prev_influence == s.prev_influence,
{
}

/// An influence that is noted becomes that of its sample alone; the one before it is
/// remembered if that is asked for.
pub proof fn law_noting_changes_one_sample(v: RegistryView, id: u64, influence: i64, other: u64)
    requires
        v.kept.contains_key(id),
        v.kept.contains_key(other),
    ensures
        ({
            let after = influence_set(v, id, influence);
            &&& after.kept.dom() == v.kept.dom()
            &&& after.order == v.order
            &&& after.kept[id].cached_influence == Some(influence)
            &&& after.kept[id].prev_influence == (if v.remembers {
                v.kept[id].cached_influence
            } else {
                v.kept[id].prev_influence
            })
            &&& after.kept[id].label == v.kept[id].label
            &&& after.kept[id].position == v.kept[id].position
            &&& other != id ==> after.kept[other] == v.kept[other]
        }),
{
    assert(influence_set(v, id, influence).kept.dom() =~= v.kept.dom());
}

/// Samples that go are counted by what was known of them: by class, by whether they had
/// come to do harm, and by whether their influence was known.
pub proof fn law_gone_are_counted(kept: Map<u64, TrackedView>, ids: Seq<u64>, n: int, label: bool)
    requires
        0 <= n <= ids.len(),
    ensures
        gone_of_class(kept, ids, n, label) == those(
            n,
            |i: int| kept[ids[i]].label == label,
        ).len(),
        gone_of_class(kept, ids, n, false) + gone_of_class(kept, ids, n, true) == n,
        gone_degraded(kept, ids, n) == those(
            n,
            |i: int|
                kept[ids[i]].prev_influence is Some && kept[ids[i]].prev_influence->0 >= 0
                    && kept[ids[i]].cached_influence is Some && kept[ids[i]].cached_influence->0
                    < 0,
        ).len(),
        gone_known(kept, ids, n) == those(
            n,
            |i: int| kept[ids[i]].cached_influence is Some,
        ).len(),
    decreases n,
{
    lemma_those(n, |i: int| kept[ids[i]].label == label);
    lemma_those(
        n,
        |i: int|
            kept[ids[i]].prev_influence is Some && kept[ids[i]].prev_influence->0 >= 0
                && kept[ids[i]].cached_influence is Some && kept[ids[i]].cached_influence->0 < 0,
    );
    lemma_those(n, |i: int| kept[ids[i]].cached_influence is Some);
    if n > 0 {
        law_gone_are_counted(kept, ids, n - 1, label);
    }
}

/// The known influences of the samples that go are added up.
pub proof fn law_gone_influences_add_up(
    kept: Map<u64, TrackedView>,
    ids: Seq<u64>,
    n: int,
    from: i128,
)
    requires
        0 <= n <= ids.len() <= 0xffff_ffff_ffff_ffff,
        -0x1000_0000_0000_0000_0000_0000_0000_0000 <= from
            <= 0x1000_0000_0000_0000_0000_0000_0000_0000,
        n <= 0x2000_0000_0000_0000,
    ensures
        gone_sum(kept, ids, n, from) == ids.take(n).fold_left(
            from as int,
            |sum: int, id: u64|
                sum + (if kept[id].cached_influence is Some {
                    kept[id].cached_influence->0 as int
                } else {
                    0
                }),
        ),
        from - n * 0x8000_0000_0000_0000 <= gone_sum(kept, ids, n, from) <= from + n
            * 0x8000_0000_0000_0000,
    decreases n,
{
    if n > 0 {
        law_gone_influences_add_up(kept, ids, n - 1, from);
        assert(ids.take(n).drop_last() =~= ids.take(n - 1));
        assert(ids.take(n).last() == ids[n - 1]);
    } else {
        assert(ids.take(n).len() == 0);
    }
}

/// For the budget as many samples go as there are too many, or as many as go at once if that
/// is more; each of them was kept, none is kept after, and all others are. Where there are
/// not too many, none goes.
pub proof fn law_budget_lets_enough_go(before: RegistryView, after: RegistryView, ids: Seq<u64>)
    requires
        before.wf(),
        budgeted(before, after, ids),
    ensures
        before.budget is None ==> after == before && ids.len() == 0,
        before.budget matches Some(config) ==> {
            let n = before.kept.len() as int;
            if n <= config.max_samples {
                after == before && ids.len() == 0
            } else {
                let extra = n - config.max_samples;
                let wanted = if extra < config.eviction_batch_size {
                    config.eviction_batch_size as int
                } else {
                    extra
                };
                &&& ids.len() == (if wanted < n {
                    wanted
                } else {
                    n
                })
                &&& ids.no_duplicates()
                &&& forall|i: int| 0 <= i < ids.len() ==> before.kept.contains_key(#[trigger] ids[i])
            }
        },
{
    if overrun(before) != 0 {
        let config = before.budget->0;
        let rule = super::evict::eviction_rule(before, config);
        law_choice_is_determined(before, rule, overrun(before), ids, ids);
        let all = super::select::admitted(before, rule);
        assert(all =~= before.kept.dom());
        assert forall|i: int| 0 <= i < ids.len() implies before.kept.contains_key(
            #[trigger] ids[i],
        ) by {
            assert(all.contains(ids[i]));
        }
    }
}

/// What is known of the samples that have gone: each is counted once in all and once in its
/// class, as long as a number can hold the counts.
pub proof fn law_evictions_add_up(
    stats: EvictionStats,
    kept: Map<u64, TrackedView>,
    ids: Seq<u64>,
)
    requires
        stats.evicted_count + ids.len() <= usize::MAX,
        stats.evicted_benign + stats.evicted_attack == stats.evicted_count,
    ensures
        ({
            let after = evictions_with(stats, kept, ids);
            let n = ids.len() as int;
            &&& after.evicted_count == stats.evicted_count + n
            &&& after.evicted_benign + after.evicted_attack == after.evicted_count
            &&& after.evicted_attack == stats.evicted_attack + those(
                n,
                |i: int| kept[ids[i]].label == true,
            ).len()
        }),
{
    let n = ids.len() as int;
    law_gone_are_counted(kept, ids, n, true);
    law_gone_are_counted(kept, ids, n, false);
}

/// Ranks that are noted: the latest rank of each sample of a list is its place in the list,
/// and nothing else is known of any sample than before.
pub proof fn law_ranks_are_places(v: RegistryView, ids: Seq<u64>, n: int, i: int)
    requires
        0 <= i < n <= ids.len() <= usize::MAX,
        ids.no_duplicates(),
        v.kept.contains_key(ids[i]),
        v.kept[ids[i]].wf(),
    ensures
        ranked(v, ids, n).kept.dom() == v.kept.dom(),
        ranked(v, ids, n).kept[ids[i]].removal_rank_history.last() == (v.place, i as usize),
        ranked(v, ids, n).kept[ids[i]] == v.kept[ids[i]].with_rank(v.place, i as usize),
    decreases n,
{
    lemma_ranked(v, ids, n);
    lemma_ranked(v, ids, n - 1);
    if i < n - 1 {
        law_ranks_are_places(v, ids, n - 1, i);
        assert(ids[i] != ids[n - 1]);
    } else {
        assert(!ids.take(n - 1).contains(ids[i])) by {
            if ids.take(n - 1).contains(ids[i]) {
                let j = ids.take(n - 1).index_of(ids[i]);
                assert(ids[j] == ids[i]);
            }
        }
    }
}

/// Noting ranks keeps the samples, and what is known of those that are not named.
proof fn lemma_ranked(v: RegistryView, ids: Seq<u64>, n: int)
    requires
        0 <= n <= ids.len(),
    ensures
        ranked(v, ids, n).kept.dom() == v.kept.dom(),
        forall|id: u64|
            v.kept.contains_key(id) && !ids.take(n).contains(id) ==> #[trigger] ranked(
                v,
                ids,
                n,
            ).kept[id] == v.kept[id],
    decreases n,
{
    if n > 0 {
        lemma_ranked(v, ids, n - 1);
        let before = ranked(v, ids, n - 1);
        assert(ranked(v, ids, n).kept.dom() =~= v.kept.dom());
        assert forall|id: u64| v.kept.contains_key(id) && !ids.take(n).contains(id) implies
            #[trigger] ranked(v, ids, n).kept[id] == v.kept[id] by {
            assert(ids.take(n)[n - 1] == ids[n - 1]);
            if ids.take(n - 1).contains(id) {
                let j = ids.take(n - 1).index_of(id);
                assert(ids.take(n)[j] == id);
            }
            assert(before.kept[id] == v.kept[id]);
        }
    }
}

/// Ages and influences are added up over a list.
pub proof fn law_report_adds_up(v: RegistryView, ids: Seq<u64>, n: int)
    requires
        0 <= n <= ids.len(),
    ensures
        age_total(v, ids, n) == ids.take(n).fold_left(
            0int,
            |sum: int, id: u64| sum + age_of(v.place, v.kept[id]),
        ),
        influence_total(v, ids, n) == ids.take(n).fold_left(
            0int,
            |sum: int, id: u64| sum + v.kept[id].cached_influence->0,
        ),
    decreases n,
{
    if n > 0 {
        law_report_adds_up(v, ids, n - 1);
        assert(ids.take(n).drop_last() =~= ids.take(n - 1));
        assert(ids.take(n).last() == ids[n - 1]);
    } else {
        assert(ids.take(n).len() == 0);
    }
}

/// How far all ranks lie from the middle, as far as the first of them go.
proof fn lemma_rank_spread(n: int, k: int)
    requires
        0 <= k,
    ensures
        3 * rank_spread(n, k) == 2 * ((k - 1) * k * (2 * k - 1)) - 6 * ((n - 1) * (k * (k - 1))) + 3
            * (k * ((n - 1) * (n - 1))),
    decreases k,
{
    if k > 0 {
        lemma_rank_spread(n, k - 1);
        let d = off_centre(k - 1, n);
        let m = n - 1;
        let j = k - 1;
        assert(d == 2 * j - m);
        assert(d * d == 4 * (j * j) - 4 * (m * j) + m * m) by (nonlinear_arith)
            requires
                d == 2 * j - m,
        ;
        assert(2 * (j * (j + 1) * (2 * (j + 1) - 1)) == 2 * ((j - 1) * j * (2 * j - 1)) + 12 * (j
            * j)) by (nonlinear_arith);
        assert(6 * (m * ((j + 1) * j)) == 6 * (m * (j * (j - 1))) + 12 * (m * j))
            by (nonlinear_arith);
        assert(3 * ((j + 1) * (m * m)) == 3 * (j * (m * m)) + 3 * (m * m)) by (nonlinear_arith);
    } else {
        assert(2 * ((0 - 1) * 0 * (2 * 0 - 1)) - 6 * ((n - 1) * (0 * (0 - 1))) + 3 * (0 * ((n - 1)
            * (n - 1))) == 0) by (nonlinear_arith);
    }
}

/// What rank correlations are divided by: a third of the number of samples times one less
/// than its square, in quarters.
pub proof fn law_spread_of_ranks(n: int)
    requires
        0 <= n,
    ensures
        3 * rank_spread(n, n) == n * (n * n - 1),
{
    lemma_rank_spread(n, n);
    assert(2 * ((n - 1) * n * (2 * n - 1)) - 6 * ((n - 1) * (n * (n - 1))) + 3 * (n * ((n - 1) * (n
        - 1))) == n * (n * n - 1)) by (nonlinear_arith);
}

/// How far ranks go the same way does not depend on which are named first, and changes its
/// sign if one of them is turned round.
pub proof fn law_ranks_go_together(
    a: Seq<usize>,
    b: Seq<usize>,
    turned: Seq<usize>,
    n: int,
    k: int,
)
    requires
        0 <= k <= n,
        a.len() == n,
        b.len() == n,
        turned.len() == n,
        forall|i: int| 0 <= i < n ==> #[trigger] turned[i] == n - 1 - b[i],
    ensures
        covariation(a, b, n, k) == covariation(b, a, n, k),
        covariation(a, turned, n, k) == -covariation(a, b, n, k),
    decreases k,
{
    if k > 0 {
        law_ranks_go_together(a, b, turned, n, k - 1);
        let x = off_centre(a[k - 1] as int, n);
        let y = off_centre(b[k - 1] as int, n);
        let z = off_centre(turned[k - 1] as int, n);
        assert(z == -y);
        assert(x * y == y * x && x * (-y) == -(x * y)) by (nonlinear_arith);
    }
}

/// If both ranks are in order, they go the same way as far as ranks can.
pub proof fn law_equal_ranks_go_together(a: Seq<usize>, n: int, k: int)
    requires
        0 <= k <= n,
        a.len() == n,
        forall|i: int| 0 <= i < n ==> #[trigger] a[i] == i,
    ensures
        covariation(a, a, n, k) == rank_spread(n, k),
    decreases k,
{
    if k > 0 {
        law_equal_ranks_go_together(a, n, k - 1);
        assert(a[k - 1] == k - 1);
    }
}

/// For want of memory no more samples go than have to: with one fewer gone the samples would
/// take more than they may.
pub proof fn law_no_more_go_than_have_to(v: RegistryView)
    requires
        v.excess() > 0,
    ensures
        v.shortened((v.excess() - 1) as nat).bytes > v.limit,
    decreases v.order.len(),
{
    if v.popped().excess() > 0 {
        law_no_more_go_than_have_to(v.popped());
        assert(v.shortened((v.excess() - 1) as nat) == v.popped().shortened(
            (v.excess() - 2) as nat,
        ));
    } else {
        assert(v.excess() == 1);
        assert(v.shortened(0) == v);
    }
}

/// A sample takes eight bytes more for each of its trees, and sixteen for each entry of its
/// histories.
pub proof fn law_memory_grows_with_what_is_kept(s: TrackedView, trees: Seq<usize>)
    requires
        s.influence_history.len() < 20,
        s.removal_rank_history.len() < 20,
    ensures
        ({
            let bare = TrackedView::fresh(Seq::empty(), s.label, s.position);
            let moved = TrackedView { tree_indices: trees, ..s };
            &&& bare.bytes() == 84
            &&& moved.bytes() - s.bytes() == 8 * (trees.len() - s.tree_indices.len())
            &&& s.with_influence(s.position, 0).bytes() == s.bytes() + 16
            &&& s.with_rank(s.position, 0).bytes() == s.bytes() + 16
        }),
{
}

/// Samples that go are no longer kept, whichever order they go in, and of the others the same
/// is kept as before.
pub proof fn law_named_samples_go(v: RegistryView, ids: Seq<u64>, n: int)
    requires
        0 <= n <= ids.len(),
    ensures
        without_each(v, ids, n).kept == v.kept.remove_keys(ids.take(n).to_set()),
        without_each(v, ids, n).place == v.place,
    decreases n,
{
    let after = without_each(v, ids, n);
    if n > 0 {
        law_named_samples_go(v, ids, n - 1);
        assert forall|x: u64| #[trigger] ids.take(n).contains(x) == (ids.take(n - 1).contains(x) || x
            == ids[n - 1]) by {
            if ids.take(n).contains(x) {
                let j = ids.take(n).index_of(x);
                if j < n - 1 {
                    assert(ids.take(n - 1)[j] == x);
                }
            }
            if ids.take(n - 1).contains(x) {
                let j = ids.take(n - 1).index_of(x);
                assert(ids.take(n)[j] == x);
            }
            assert(ids.take(n)[n - 1] == ids[n - 1]);
        }
        assert(after.kept =~= v.kept.remove_keys(ids.take(n).to_set()));
    } else {
        assert(after.kept =~= v.kept.remove_keys(ids.take(n).to_set()));
    }
}

/// Samples that come are kept as new ones in order: the last of those with an identifier at
/// its own place in the stream, with its trees and its class.
pub proof fn law_coming_samples_are_kept(
    v: RegistryView,
    ids: Seq<u64>,
    trees: Seq<Vec<usize>>,
    labels: Seq<bool>,
    n: int,
    i: int,
)
    requires
        0 <= i < n <= ids.len(),
        v.place + n <= u64::MAX,
        forall|j: int| i < j < n ==> #[trigger] ids[j] != ids[i],
    ensures
        with_each(v, ids, trees, labels, n).place == v.place + n,
        with_each(v, ids, trees, labels, n).kept.contains_key(ids[i]),
        with_each(v, ids, trees, labels, n).kept[ids[i]] == TrackedView::fresh(
            trees[i]@,
            labels[i],
            (v.place + i) as u64,
        ),
    decreases n,
{
    lemma_with_each_place(v, ids, trees, labels, n - 1);
    if i < n - 1 {
        law_coming_samples_are_kept(v, ids, trees, labels, n - 1, i);
        assert(ids[n - 1] != ids[i]);
    }
}

/// Samples that come move the place in the stream on.
proof fn lemma_with_each_place(
    v: RegistryView,
    ids: Seq<u64>,
    trees: Seq<Vec<usize>>,
    labels: Seq<bool>,
    n: int,
)
    requires
        0 <= n,
        v.place + n <= u64::MAX,
    ensures
        with_each(v, ids, trees, labels, n).place == v.place + n,
    decreases n,
{
    if n > 0 {
        lemma_with_each_place(v, ids, trees, labels, n - 1);
    }
}

/// A report counts the samples with a known influence, tells their share of all, and averages
/// their ages and their influences.
pub proof fn law_report_averages(v: RegistryView, d: Diagnostics, ids: Seq<u64>)
    requires
        v.wf(),
        correlated(v, d, ids),
        ids.len() > 0,
        v.kept.len() <= usize::MAX,
        -0x8000_0000_0000_0000_0000_0000_0000_0000 <= influence_total(v, ids, ids.len() as int)
            <= 0x7fff_ffff_ffff_ffff_ffff_ffff_ffff_ffff,
        age_total(v, ids, ids.len() as int) <= 0x7fff_ffff_ffff_ffff_ffff_ffff_ffff_ffff,
        age_total(v, ids, ids.len() as int) >= 0,
    ensures
        forall|id: u64| #[trigger]
            ids.contains(id) <==> v.kept.contains_key(id) && v.kept[id].cached_influence is Some,
        d.n_with_influence == ids.len(),
        d.mean_age.num == ids.fold_left(
            0int,
            |sum: int, id: u64| sum + age_of(v.place, v.kept[id]),
        ),
        d.mean_influence.num == ids.fold_left(
            0int,
            |sum: int, id: u64| sum + v.kept[id].cached_influence->0,
        ),
        d.mean_age.den == ids.len(),
        d.mean_influence.den == ids.len(),
        d.influence_coverage.num * v.kept.len() == ids.len() * d.influence_coverage.den,
        d.age_influence_spearman is Some <==> ids.len() >= 3,
{
    let n = ids.len() as int;
    law_report_adds_up(v, ids, n);
    assert(ids.take(n) =~= ids);
    assert forall|id: u64| #[trigger] ids.contains(id) <==> v.kept.contains_key(id)
        && v.kept[id].cached_influence is Some by {
        assert(ids.to_set().contains(id) == with_influence(v).contains(id));
    }
    assert(ids.contains(ids[0]));
    ids.unique_seq_to_set();
    vstd::set_lib::lemma_len_subset(ids.to_set(), v.kept.dom());
    let k = v.kept.len();
    assert(n * k == k * n) by (nonlinear_arith);
}

/// An influence that is replaced leaves the one before it alone.
pub proof fn law_replacing_forgets_nothing(v: RegistryView, id: u64, influence: i64, other: u64)
    requires
        v.kept.contains_key(id),
        v.kept.contains_key(other),
    ensures
        ({
            let after = influence_replaced(v, id, influence);
            &&& after.kept.dom() == v.kept.dom()
            &&& after.kept[id].cached_influence == Some(influence)
            &&& after.kept[id].prev_influence == v.kept[id].prev_influence
            &&& after.kept[id].influence_history == v.kept[id].influence_history
            &&& other != id ==> after.kept[other] == v.kept[other]
        }),
{
    assert(influence_replaced(v, id, influence).kept.dom() =~= v.kept.dom());
}

/// There are as many samples too many as come on top of what the budget allows.
pub proof fn law_surplus_comes_on_top(v: RegistryView)
    ensures
        v.budget is None ==> surplus(v) == 0,
        v.budget matches Some(config) ==> {
            &&& surplus(v) > 0 <==> v.kept.len() > config.max_samples
            &&& surplus(v) > 0 ==> v.kept.len() == config.max_samples + surplus(v)
        },
{
}

} // verus!
