//! What holds of the samples that are chosen, in terms of what is known of them.

use super::entry::{influence_sum, risk_count, TrackedView, INFLUENCE_ONE};
use super::select::{
    admitted, age_of, chosen_by, law_choice_is_determined, law_declining_is_exact, stands_before,
    Rule,
};
use super::RegistryView;
use crate::count::{lemma_those, those};
use vstd::prelude::*;

verus! {

/// The sum of the influences of a history.
pub open spec fn total(history: Seq<(u64, i64)>) -> int {
    history.fold_left(0int, |sum: int, entry: (u64, i64)| sum + entry.1)
}

/// The sum of the squares of the influences of a history.
pub open spec fn squares(history: Seq<(u64, i64)>) -> int {
    history.fold_left(0int, |sum: int, entry: (u64, i64)| sum + entry.1 * entry.1)
}

/// The influences from one place of a history up to another add up to the total of that
/// part.
pub proof fn law_influences_add_up(history: Seq<(u64, i64)>, from: int, to: int)
    requires
        0 <= from <= to <= history.len(),
    ensures
        influence_sum(history, from, to) == total(history.subrange(from, to)),
    decreases to - from,
{
    let part = history.subrange(from, to);
    if from < to {
        law_influences_add_up(history, from, to - 1);
        assert(part.drop_last() =~= history.subrange(from, to - 1));
        assert(part.last() == history[to - 1]);
    }
}

/// The number of ranks below a bound is the number of places of the history that hold one.
pub proof fn law_risks_are_counted(history: Seq<(u64, usize)>, top_n: usize, n: int)
    requires
        0 <= n <= history.len(),
    ensures
        risk_count(history, top_n, n) == those(n, |i: int| history[i].1 < top_n).len(),
    decreases n,
{
    let p = |i: int| history[i].1 < top_n;
    lemma_those(n, p);
    if n > 0 {
        law_risks_are_counted(history, top_n, n - 1);
    }
}

/// The first squared deviations, from the sums of the influences and of their squares.
proof fn lemma_spread(s: TrackedView, n: int)
    requires
        0 <= n <= s.influence_history.len(),
    ensures
        ({
            let all = s.influence_history.len() as int;
            let whole = influence_sum(s.influence_history, 0, all);
            let part = s.influence_history.take(n);
            s.spread(n) == all * all * squares(part) - 2 * all * whole * total(part) + n * (whole
                * whole)
        }),
    decreases n,
{
    let all = s.influence_history.len() as int;
    let whole = influence_sum(s.influence_history, 0, all);
    let part = s.influence_history.take(n);
    if n > 0 {
        lemma_spread(s, n - 1);
        let before = s.influence_history.take(n - 1);
        assert(part.drop_last() =~= before);
        let x = s.influence_history[n - 1].1 as int;
        assert(part.last() == s.influence_history[n - 1]);
        let q = squares(before);
        let t = total(before);
        assert(squares(part) == q + x * x);
        assert(total(part) == t + x);
        let d = all * x - whole;
        assert(all * all * (q + x * x) - 2 * all * whole * (t + x) + n * (whole * whole) == all * all
            * q - 2 * all * whole * t + (n - 1) * (whole * whole) + d * d) by (nonlinear_arith)
            requires
                d == all * x - whole,
        ;
    } else {
        assert(all * all * 0 - 2 * all * whole * 0 + 0 * (whole * whole) == 0) by (nonlinear_arith);
    }
}

/// A history is steady if there is one and the average square of its influences is above the
/// square of their average by no more than the bound.
pub proof fn law_steady_is_small_variance(s: TrackedView, max_variance: i64)
    ensures
        s.steady(max_variance) <==> {
            let h = s.influence_history;
            let n = h.len() as int;
            n > 0 && n * squares(h) - total(h) * total(h) <= max_variance * INFLUENCE_ONE * (n * n)
        },
{
    let h = s.influence_history;
    let n = h.len() as int;
    if n > 0 {
        lemma_spread(s, n);
        law_influences_add_up(h, 0, n);
        assert(h.take(n) =~= h);
        assert(h.subrange(0, n) =~= h);
        let q = squares(h);
        let t = total(h);
        let m = max_variance * INFLUENCE_ONE;
        assert(n * n * q - 2 * n * t * t + n * (t * t) == n * (n * q - t * t)) by (nonlinear_arith);
        assert(m * (n * n * n) == n * (m * (n * n))) by (nonlinear_arith);
        let x = n * q - t * t;
        let y = m * (n * n);
        assert(n * x <= n * y <==> x <= y) by (nonlinear_arith)
            requires
                n > 0,
        ;
    }
}

/// The average of a history is its total over its length.
pub proof fn law_average_is_total_over_length(s: TrackedView)
    requires
        s.wf(),
        s.influence_history.len() > 0,
    ensures
        s.average() is Some,
        s.average()->0.den == s.influence_history.len(),
        s.average()->0.num == total(s.influence_history),
{
    let h = s.influence_history;
    law_influences_add_up(h, 0, h.len() as int);
    assert(h.subrange(0, h.len() as int) =~= h);
    super::entry::lemma_influence_sum(h, 0, h.len() as int);
}

/// By how much the average of the second half of a history lies above that of the first
/// half, times the lengths of both.
pub open spec fn rise(history: Seq<(u64, i64)>) -> int {
    let n = history.len() as int;
    let h = n / 2;
    total(history.subrange(h, n)) * h - total(history.subrange(0, h)) * (n - h)
}

/// The product of the lengths of both halves of a history.
pub open spec fn halves(history: Seq<(u64, i64)>) -> int {
    let n = history.len() as int;
    (n / 2) * (n - n / 2)
}

/// The trend of a history is the average of its second half less that of its first half.
pub proof fn law_trend_compares_halves(s: TrackedView)
    requires
        s.wf(),
    ensures
        s.trend() is Some <==> s.influence_history.len() >= 2,
        s.trend() is Some ==> s.trend()->0.num == rise(s.influence_history) && s.trend()->0.den
            == halves(s.influence_history),
        s.trend() is Some ==> halves(s.influence_history) > 0,
{
    let h = s.influence_history;
    let n = h.len() as int;
    let m = n / 2;
    if n >= 2 {
        law_influences_add_up(h, 0, m);
        law_influences_add_up(h, m, n);
        super::entry::lemma_influence_sum(h, 0, m);
        super::entry::lemma_influence_sum(h, m, n);
        let x = influence_sum(h, m, n);
        let y = influence_sum(h, 0, m);
        let k = n - m;
        assert(1 <= m <= 10 && 1 <= k <= 10);
        assert(-0x8000_0000_0000_0000 * 10 <= x <= 0x8000_0000_0000_0000 * 10);
        assert(-0x8000_0000_0000_0000 * 10 <= y <= 0x8000_0000_0000_0000 * 10);
        assert(-0x8000_0000_0000_0000 * 200 <= x * m - y * k <= 0x8000_0000_0000_0000 * 200)
            by (nonlinear_arith)
            requires
                1 <= m <= 10,
                1 <= k <= 10,
                -0x8000_0000_0000_0000 * 10 <= x <= 0x8000_0000_0000_0000 * 10,
                -0x8000_0000_0000_0000 * 10 <= y <= 0x8000_0000_0000_0000 * 10,
        ;
        assert(1 <= m * k <= 100) by (nonlinear_arith)
            requires
                1 <= m <= 10,
                1 <= k <= 10,
        ;
    }
}

/// Whether a list holds the first of the samples that fit, without a gap: none twice, all
/// of them fit, all that fit are there if there was room for them, and none that comes
/// later or not at all would have had to come before.
pub open spec fn picks(
    v: RegistryView,
    n: int,
    list: Seq<u64>,
    fit: spec_fn(TrackedView) -> bool,
    before: spec_fn(TrackedView, TrackedView) -> bool,
) -> bool {
    &&& list.len() <= n
    &&& list.no_duplicates()
    &&& forall|i: int|
        0 <= i < list.len() ==> v.kept.contains_key(#[trigger] list[i]) && fit(v.kept[list[i]])
    &&& list.len() < n ==> forall|id: u64| #[trigger]
        v.kept.contains_key(id) && fit(v.kept[id]) ==> list.contains(id)
    &&& forall|i: int, id: u64|
        0 <= i < list.len() && #[trigger] v.kept.contains_key(id) && fit(v.kept[id]) && !list.take(
            i + 1,
        ).contains(id) ==> before(v.kept[#[trigger] list[i]], v.kept[id])
}

/// What is chosen by a rule is picked as the rule reads.
proof fn lemma_picks(
    v: RegistryView,
    rule: Rule,
    n: int,
    list: Seq<u64>,
    fit: spec_fn(TrackedView) -> bool,
    before: spec_fn(TrackedView, TrackedView) -> bool,
)
    requires
        v.wf(),
        n >= 0,
        chosen_by(v, rule, n, list),
        forall|id: u64| #[trigger]
            v.kept.contains_key(id) ==> rule.admits(v.kept[id]) == fit(v.kept[id]),
        forall|a: u64, b: u64| #[trigger]
            v.kept.contains_key(a) && #[trigger] v.kept.contains_key(b) && fit(v.kept[a]) && fit(
                v.kept[b],
            ) && rule.key(v.place, a, v.kept[a]) <= rule.key(v.place, b, v.kept[b]) ==> before(
                v.kept[a],
                v.kept[b],
            ),
    ensures
        picks(v, n, list, fit, before),
{
    let all = admitted(v, rule);
    law_choice_is_determined(v, rule, n, list, list);
    assert(all.subset_of(v.kept.dom()));
    vstd::set_lib::lemma_len_subset(all, v.kept.dom());
    assert forall|i: int| 0 <= i < list.len() implies v.kept.contains_key(#[trigger] list[i])
        && fit(v.kept[list[i]]) by {
        assert(all.contains(list[i]));
    }
    if list.len() < n {
        assert(list.to_set().subset_of(all));
        list.unique_seq_to_set();
        vstd::set_lib::lemma_subset_equality(list.to_set(), all);
        assert forall|id: u64| #[trigger] v.kept.contains_key(id) && fit(v.kept[id]) implies
            list.contains(id) by {
            assert(all.contains(id));
            assert(list.to_set().contains(id));
        }
    }
    assert forall|i: int, id: u64|
        0 <= i < list.len() && #[trigger] v.kept.contains_key(id) && fit(v.kept[id]) && !list.take(
            i + 1,
        ).contains(id) implies before(v.kept[#[trigger] list[i]], v.kept[id]) by {
        assert(all.contains(id));
        assert(all.contains(list[i]));
        if list.contains(id) {
            let j = list.index_of(id);
            if j <= i {
                assert(list.take(i + 1)[j] == id);
            }
            assert(stands_before(v, rule, list[i], list[j]));
        } else {
            assert(stands_before(v, rule, list[i], id));
        }
    }
}

/// A sample came before the place at which the stream is.
proof fn lemma_came(v: RegistryView, id: u64)
    requires
        v.wf(),
        v.kept.contains_key(id),
    ensures
        v.kept[id].position < v.place,
        age_of(v.place, v.kept[id]) == v.place - v.kept[id].position,
{
    let e = (v.kept[id].position, id);
    assert(v.order.contains(e));
    let i = v.order.index_of(e);
    assert(v.order[i].0 < v.place);
}

/// Those that have been kept longest are those that came first.
pub proof fn law_longest_kept_came_first(v: RegistryView, n: int, list: Seq<u64>)
    requires
        v.wf(),
        n >= 0,
        chosen_by(v, Rule::LongestSurviving, n, list),
    ensures
        picks(
            v,
            n,
            list,
            |s: TrackedView| true,
            |a: TrackedView, b: TrackedView| a.position <= b.position,
        ),
{
    assert forall|id: u64| #[trigger] v.kept.contains_key(id) implies age_of(v.place, v.kept[id])
        == v.place - v.kept[id].position by {
        lemma_came(v, id);
    }
    lemma_picks(
        v,
        Rule::LongestSurviving,
        n,
        list,
        |s: TrackedView| true,
        |a: TrackedView, b: TrackedView| a.position <= b.position,
    );
}

/// The oldest samples are those that came first, of the class asked for.
pub proof fn law_oldest_came_first(v: RegistryView, label: Option<bool>, n: int, list: Seq<u64>)
    requires
        v.wf(),
        n >= 0,
        chosen_by(v, Rule::Oldest { label }, n, list),
    ensures
        picks(
            v,
            n,
            list,
            |s: TrackedView| label is None || label == Some(s.label),
            |a: TrackedView, b: TrackedView| a.position <= b.position,
        ),
{
    lemma_picks(
        v,
        Rule::Oldest { label },
        n,
        list,
        |s: TrackedView| label is None || label == Some(s.label),
        |a: TrackedView, b: TrackedView| a.position <= b.position,
    );
}

/// Those whose influence declines are those with enough of a history whose second half has
/// a lower average than its first half, and the steepest decline comes first.
pub proof fn law_declining_fall_most(v: RegistryView, min: usize, n: int, list: Seq<u64>)
    requires
        v.wf(),
        n >= 0,
        chosen_by(v, Rule::Declining { min_observations: min }, n, list),
    ensures
        picks(
            v,
            n,
            list,
            |s: TrackedView|
                s.influence_history.len() >= min && s.influence_history.len() >= 2 && rise(
                    s.influence_history,
                ) < 0,
            |a: TrackedView, b: TrackedView|
                rise(a.influence_history) * halves(b.influence_history) <= rise(b.influence_history)
                    * halves(a.influence_history),
        ),
{
    let rule = Rule::Declining { min_observations: min };
    assert forall|id: u64| #[trigger] v.kept.contains_key(id) implies {
        let s = v.kept[id];
        &&& s.wf()
        &&& (s.trend() is Some <==> s.influence_history.len() >= 2)
        &&& (s.trend() is Some ==> s.trend()->0.num == rise(s.influence_history) && s.trend()->0.den
            == halves(s.influence_history))
    } by {
        law_trend_compares_halves(v.kept[id]);
    }
    assert forall|a: u64, b: u64| #[trigger]
        v.kept.contains_key(a) && #[trigger] v.kept.contains_key(b) && rule.admits(v.kept[a])
            && rule.admits(v.kept[b]) && rule.key(v.place, a, v.kept[a]) <= rule.key(
            v.place,
            b,
            v.kept[b],
        ) implies rise(v.kept[a].influence_history) * halves(v.kept[b].influence_history) <= rise(
        v.kept[b].influence_history,
    ) * halves(v.kept[a].influence_history) by {
        law_declining_is_exact(rule, v.place, b, a, v.kept[b], v.kept[a]);
    }
    lemma_picks(
        v,
        rule,
        n,
        list,
        |s: TrackedView|
            s.influence_history.len() >= min && s.influence_history.len() >= 2 && rise(
                s.influence_history,
            ) < 0,
        |a: TrackedView, b: TrackedView|
            rise(a.influence_history) * halves(b.influence_history) <= rise(b.influence_history)
                * halves(a.influence_history),
    );
}

/// How often a sample has been among so many next to go.
pub open spec fn narrow_escapes(s: TrackedView, top_n: usize) -> int {
    those(
        s.removal_rank_history.len() as int,
        |i: int| s.removal_rank_history[i].1 < top_n,
    ).len() as int
}

/// Those at high risk are those that have been among the next to go often enough, the most
/// often first.
pub proof fn law_risk_is_frequency(
    v: RegistryView,
    top_n: usize,
    min_risk_count: usize,
    n: int,
    list: Seq<u64>,
)
    requires
        v.wf(),
        n >= 0,
        chosen_by(v, Rule::HighRisk { top_n, min_risk_count }, n, list),
    ensures
        picks(
            v,
            n,
            list,
            |s: TrackedView| narrow_escapes(s, top_n) >= min_risk_count,
            |a: TrackedView, b: TrackedView| narrow_escapes(a, top_n) >= narrow_escapes(b, top_n),
        ),
{
    assert forall|id: u64| #[trigger] v.kept.contains_key(id) implies risk_count(
        v.kept[id].removal_rank_history,
        top_n,
        v.kept[id].removal_rank_history.len() as int,
    ) == narrow_escapes(v.kept[id], top_n) by {
        let h = v.kept[id].removal_rank_history;
        law_risks_are_counted(h, top_n, h.len() as int);
        crate::count::lemma_those_agree(
            h.len() as int,
            |i: int| h[i].1 < top_n,
            |i: int| v.kept[id].removal_rank_history[i].1 < top_n,
        );
    }
    lemma_picks(
        v,
        Rule::HighRisk { top_n, min_risk_count },
        n,
        list,
        |s: TrackedView| narrow_escapes(s, top_n) >= min_risk_count,
        |a: TrackedView, b: TrackedView| narrow_escapes(a, top_n) >= narrow_escapes(b, top_n),
    );
}

/// With a price on age, a sample comes before another if its influence less the price of
/// the places that it is older by is no higher.
pub proof fn law_age_costs_influence(
    v: RegistryView,
    label: Option<bool>,
    decay_rate: i64,
    n: int,
    list: Seq<u64>,
)
    requires
        v.wf(),
        n >= 0,
        chosen_by(v, Rule::TimeWeighted { label, decay_rate }, n, list),
    ensures
        picks(
            v,
            n,
            list,
            |s: TrackedView| s.cached_influence is Some && (label is None || label == Some(s.label)),
            |a: TrackedView, b: TrackedView|
                a.cached_influence->0 - decay_rate * (b.position - a.position)
                    <= b.cached_influence->0,
        ),
{
    let rule = Rule::TimeWeighted { label, decay_rate };
    assert forall|a: u64, b: u64| #[trigger]
        v.kept.contains_key(a) && #[trigger] v.kept.contains_key(b) && rule.key(
            v.place,
            a,
            v.kept[a],
        ) <= rule.key(v.place, b, v.kept[b]) implies v.kept[a].cached_influence->0 - decay_rate * (
    v.kept[b].position - v.kept[a].position) <= v.kept[b].cached_influence->0 by {
        lemma_came(v, a);
        lemma_came(v, b);
        let p = v.kept[a].position as int;
        let q = v.kept[b].position as int;
        let d = decay_rate as int;
        let w = v.place as int;
        assert(d * (w - p) - d * (w - q) == d * (q - p)) by (nonlinear_arith);
    }
    lemma_picks(
        v,
        rule,
        n,
        list,
        |s: TrackedView| s.cached_influence is Some && (label is None || label == Some(s.label)),
        |a: TrackedView, b: TrackedView|
            a.cached_influence->0 - decay_rate * (b.position - a.position)
                <= b.cached_influence->0,
    );
}

/// The influence of a sample, or zero if it is not known.
pub open spec fn known_influence(s: TrackedView) -> int {
    if s.cached_influence is Some {
        s.cached_influence->0 as int
    } else {
        0
    }
}

/// By age in steps, no sample comes before one that is older by a whole step; and of two
/// that have been kept for equally many whole steps the more harmful one comes first.
pub proof fn law_older_steps_come_first(v: RegistryView, size: u64, n: int, list: Seq<u64>)
    requires
        v.wf(),
        n >= 0,
        size >= 1,
        chosen_by(v, Rule::AgeBracket { size }, n, list),
    ensures
        picks(
            v,
            n,
            list,
            |s: TrackedView| true,
            |a: TrackedView, b: TrackedView|
                {
                    let x = (v.place - a.position) / size as int;
                    let y = (v.place - b.position) / size as int;
                    x > y || (x == y && known_influence(a) <= known_influence(b))
                },
        ),
{
    let rule = Rule::AgeBracket { size };
    assert forall|a: u64, b: u64| #[trigger]
        v.kept.contains_key(a) && #[trigger] v.kept.contains_key(b) && rule.key(
            v.place,
            a,
            v.kept[a],
        ) <= rule.key(v.place, b, v.kept[b]) implies {
        let x = (v.place - v.kept[a].position) / size as int;
        let y = (v.place - v.kept[b].position) / size as int;
        x > y || (x == y && known_influence(v.kept[a]) <= known_influence(v.kept[b]))
    } by {
        lemma_came(v, a);
        lemma_came(v, b);
    }
    lemma_picks(
        v,
        rule,
        n,
        list,
        |s: TrackedView| true,
        |a: TrackedView, b: TrackedView|
            {
                let x = (v.place - a.position) / size as int;
                let y = (v.place - b.position) / size as int;
                x > y || (x == y && known_influence(a) <= known_influence(b))
            },
    );
}

/// The most harmful samples are those with the lowest influences, below the bound if one
/// is given and of the class asked for.
pub proof fn law_harmful_have_lowest_influences(
    v: RegistryView,
    label: Option<bool>,
    below: Option<i64>,
    n: int,
    list: Seq<u64>,
)
    requires
        v.wf(),
        n >= 0,
        chosen_by(v, Rule::Harmful { label, below }, n, list),
    ensures
        picks(
            v,
            n,
            list,
            |s: TrackedView|
                s.cached_influence is Some && (label is None || label == Some(s.label)) && (
                below is None || s.cached_influence->0 < below->0),
            |a: TrackedView, b: TrackedView| a.cached_influence->0 <= b.cached_influence->0,
        ),
{
    lemma_picks(
        v,
        Rule::Harmful { label, below },
        n,
        list,
        |s: TrackedView|
            s.cached_influence is Some && (label is None || label == Some(s.label)) && (below is None
                || s.cached_influence->0 < below->0),
        |a: TrackedView, b: TrackedView| a.cached_influence->0 <= b.cached_influence->0,
    );
}

/// Those whose influence has fallen are those whose latest influence lies below the one
/// before by more than the bound, the steepest fall first.
pub proof fn law_falling_fell_most(v: RegistryView, min_delta: i64, n: int, list: Seq<u64>)
    requires
        v.wf(),
        n >= 0,
        chosen_by(v, Rule::Falling { min_delta }, n, list),
    ensures
        picks(
            v,
            n,
            list,
            |s: TrackedView|
                s.cached_influence is Some && s.prev_influence is Some && s.cached_influence->0
                    < s.prev_influence->0 + min_delta,
            |a: TrackedView, b: TrackedView|
                a.cached_influence->0 + b.prev_influence->0 <= b.cached_influence->0
                    + a.prev_influence->0,
        ),
{
    lemma_picks(
        v,
        Rule::Falling { min_delta },
        n,
        list,
        |s: TrackedView|
            s.cached_influence is Some && s.prev_influence is Some && s.cached_influence->0
                < s.prev_influence->0 + min_delta,
        |a: TrackedView, b: TrackedView|
            a.cached_influence->0 + b.prev_influence->0 <= b.cached_influence->0
                + a.prev_influence->0,
    );
}

/// Those that have come to do harm are those that did none by the influence before and do
/// by the latest one.
pub proof fn law_degraded_did_no_harm_before(v: RegistryView, n: int, list: Seq<u64>)
    requires
        v.wf(),
        n >= 0,
        chosen_by(v, Rule::Degraded, n, list),
    ensures
        picks(
            v,
            n,
            list,
            |s: TrackedView|
                s.cached_influence is Some && s.prev_influence is Some && s.prev_influence->0 >= 0
                    && s.cached_influence->0 < 0,
            |a: TrackedView, b: TrackedView| true,
        ),
{
    lemma_picks(
        v,
        Rule::Degraded,
        n,
        list,
        |s: TrackedView|
            s.cached_influence is Some && s.prev_influence is Some && s.prev_influence->0 >= 0
                && s.cached_influence->0 < 0,
        |a: TrackedView, b: TrackedView| true,
    );
}

/// The samples of the core are those with enough of a history whose influences add up to
/// the bound for each of them.
pub proof fn law_core_helps_on_average(
    v: RegistryView,
    min_observations: usize,
    min_avg_influence: i64,
    n: int,
    list: Seq<u64>,
)
    requires
        v.wf(),
        n >= 0,
        min_observations >= 1,
        chosen_by(v, Rule::CoreConcept { min_observations, min_avg_influence }, n, list),
    ensures
        picks(
            v,
            n,
            list,
            |s: TrackedView|
                s.influence_history.len() >= min_observations && total(s.influence_history)
                    >= min_avg_influence * s.influence_history.len(),
            |a: TrackedView, b: TrackedView| true,
        ),
{
    let rule = Rule::CoreConcept { min_observations, min_avg_influence };
    assert forall|id: u64| #[trigger] v.kept.contains_key(id) implies rule.admits(v.kept[id]) == (
    v.kept[id].influence_history.len() >= min_observations && total(v.kept[id].influence_history)
        >= min_avg_influence * v.kept[id].influence_history.len()) by {
        if v.kept[id].influence_history.len() >= min_observations {
            law_average_is_total_over_length(v.kept[id]);
        }
    }
    lemma_picks(
        v,
        rule,
        n,
        list,
        |s: TrackedView|
            s.influence_history.len() >= min_observations && total(s.influence_history)
                >= min_avg_influence * s.influence_history.len(),
        |a: TrackedView, b: TrackedView| true,
    );
}

/// The stable samples are those with enough of a history whose variance is at most the
/// bound.
pub proof fn law_stable_vary_little(
    v: RegistryView,
    max_variance: i64,
    min_observations: usize,
    n: int,
    list: Seq<u64>,
)
    requires
        v.wf(),
        n >= 0,
        chosen_by(v, Rule::Stable { max_variance, min_observations }, n, list),
    ensures
        picks(
            v,
            n,
            list,
            |s: TrackedView|
                {
                    let h = s.influence_history;
                    let k = h.len() as int;
                    k >= min_observations && k > 0 && k * squares(h) - total(h) * total(h)
                        <= max_variance * INFLUENCE_ONE * (k * k)
                },
            |a: TrackedView, b: TrackedView| true,
        ),
{
    assert forall|id: u64| #[trigger] v.kept.contains_key(id) implies v.kept[id].steady(
        max_variance,
    ) == {
        let h = v.kept[id].influence_history;
        let k = h.len() as int;
        k > 0 && k * squares(h) - total(h) * total(h) <= max_variance * INFLUENCE_ONE * (k * k)
    } by {
        law_steady_is_small_variance(v.kept[id], max_variance);
    }
    lemma_picks(
        v,
        Rule::Stable { max_variance, min_observations },
        n,
        list,
        |s: TrackedView|
            {
                let h = s.influence_history;
                let k = h.len() as int;
                k >= min_observations && k > 0 && k * squares(h) - total(h) * total(h)
                    <= max_variance * INFLUENCE_ONE * (k * k)
            },
        |a: TrackedView, b: TrackedView| true,
    );
}

/// The samples of a class are all those with its label.
pub proof fn law_class_is_its_label(v: RegistryView, label: bool, n: int, list: Seq<u64>)
    requires
        v.wf(),
        n >= 0,
        chosen_by(v, Rule::OfClass { label }, n, list),
    ensures
        picks(
            v,
            n,
            list,
            |s: TrackedView| s.label == label,
            |a: TrackedView, b: TrackedView| true,
        ),
{
    lemma_picks(
        v,
        Rule::OfClass { label },
        n,
        list,
        |s: TrackedView| s.label == label,
        |a: TrackedView, b: TrackedView| true,
    );
}

} // verus!
