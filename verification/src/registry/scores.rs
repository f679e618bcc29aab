//! What holds of the scores by which samples have to go.

use super::entry::{TrackedView, INFLUENCE_ONE};
use super::evict::{influence_span, law_classes_add_up, scales_of, spans_influences};
use super::select::{chosen_by, law_highest_scores_go, law_older_goes_first, scrambled, Rule, Scales};
use super::{of_class, BudgetConfig, RegistryView};
use vstd::prelude::*;

verus! {

/// A score as a sum of products.
proof fn lemma_score(scales: Scales, place: u64, id: u64, s: TrackedView)
    ensures
        ({
            let unit = scales.age_whole() * scales.influence_whole() * scales.protection(s.label);
            scales.score(place, id, s) == 40 * (scales.config.age_weight * scales.age_part(
                place,
                id,
                s,
            ) * (scales.influence_whole() * scales.protection(s.label))) + 20 * (
            scales.config.influence_weight * scales.influence_part(s) * (scales.age_whole()
                * scales.protection(s.label))) + 2 * (scales.config.influence_weight
                * Scales::bonus(s) * unit) + 20 * (scales.config.class_weight * scales.penalty(
                s.label,
            ) * unit)
        }),
        scales.influence_whole() >= 1,
        2 <= scales.protection(s.label) <= 10,
{
    let a = scales.age_whole();
    let r = scales.influence_whole();
    let p = scales.protection(s.label);
    let x = scales.age_part(place, id, s);
    let h = scales.influence_part(s);
    let b = Scales::bonus(s);
    let q = scales.penalty(s.label);
    let aw = scales.config.age_weight as int;
    let iw = scales.config.influence_weight as int;
    let cw = scales.config.class_weight as int;
    assert(aw * (40 * x * r) * p == 40 * (aw * x * (r * p))) by (nonlinear_arith);
    assert(iw * ((20 * h + 2 * b * r) * a) == 20 * (iw * h * a) + 2 * (iw * b * (a * r)))
        by (nonlinear_arith);
    assert(iw * h * a * p == iw * h * (a * p)) by (nonlinear_arith);
    assert(iw * b * (a * r) * p == iw * b * (a * r * p)) by (nonlinear_arith);
    assert(cw * (20 * q * a * r) * p == 20 * (cw * q * (a * r * p))) by (nonlinear_arith);
    let f = aw * (40 * x * r);
    let g = iw * h * a;
    let k = iw * b * (a * r);
    let l = cw * (20 * q * a * r);
    assert((f + (20 * g + 2 * k) + l) * p == f * p + 20 * (g * p) + 2 * (k * p) + l * p)
        by (nonlinear_arith);
}

/// Of two samples that differ in their class alone, less speaks for the going of the one of
/// the smaller class, if classes count at all.
pub proof fn law_minority_goes_last(
    scales: Scales,
    place: u64,
    id: u64,
    other: u64,
    minor: TrackedView,
    major: TrackedView,
)
    requires
        scales.fits(place, minor),
        scales.config.age_weight >= 0,
        scales.config.influence_weight >= 0,
        scales.config.class_weight >= 0,
        scales.config.class_aware_random ==> id == other,
        minor.label == scales.minority,
        if scales.minority {
            scales.plus <= scales.minus
        } else {
            scales.minus <= scales.plus
        },
        major == (TrackedView { label: !minor.label, ..minor }),
    ensures
        scales.score(place, id, minor) <= scales.score(place, other, major),
        scales.config.class_weight > 0 ==> scales.score(place, id, minor) < scales.score(
            place,
            other,
            major,
        ),
{
    let a = scales.age_whole();
    let r = scales.influence_whole();
    let p = scales.protection(minor.label);
    let q = scales.protection(major.label);
    let x = scales.age_part(place, id, minor);
    let h = scales.influence_part(minor);
    let b = Scales::bonus(minor);
    let aw = scales.config.age_weight as int;
    let iw = scales.config.influence_weight as int;
    let cw = scales.config.class_weight as int;
    assert(scales.age_part(place, other, major) == x);
    assert(p <= q) by {
        let small = scales.class_size(minor.label) as int;
        let large = scales.class_size(major.label) as int;
        assert(small <= large);
    }
    let base = aw * (40 * x * r) + iw * ((20 * h + 2 * b * r) * a);
    let cost = cw * (20 * a * r);
    assert(40 * x * r >= 0) by (nonlinear_arith)
        requires
            x >= 0,
            r >= 1,
    ;
    let harm = (20 * h + 2 * b * r) * a;
    assert(harm >= 0) by (nonlinear_arith)
        requires
            harm == (20 * h + 2 * b * r) * a,
            h >= 0,
            b >= 0,
            r >= 1,
            a >= 1,
    ;
    let old = 40 * x * r;
    assert(base >= 0) by (nonlinear_arith)
        requires
            base == aw * old + iw * harm,
            aw >= 0,
            iw >= 0,
            old >= 0,
            harm >= 0,
    ;
    assert(20 * a * r >= 1) by (nonlinear_arith)
        requires
            a >= 1,
            r >= 1,
    ;
    let unit = 20 * a * r;
    assert(cost >= 0 && (cw > 0 ==> cost > 0)) by (nonlinear_arith)
        requires
            cost == cw * unit,
            cw >= 0,
            unit >= 1,
    ;
    assert(cw * (20 * (-1) * a * r) == -cost) by (nonlinear_arith)
        requires
            cost == cw * (20 * a * r),
    ;
    assert(cw * (20 * 0 * a * r) == 0) by (nonlinear_arith);
    assert((base - cost) * p <= base * q && (cost > 0 ==> (base - cost) * p < base * q))
        by (nonlinear_arith)
        requires
            base >= 0,
            cost >= 0,
            2 <= p <= q,
    ;
}

/// What a share of its class does for a sample: of a class with less than a twentieth of
/// all samples it keeps a fifth of its score, of one with less than the protected share
/// a half, and of any other all.
pub proof fn law_rare_classes_are_protected(
    scales: Scales,
    roomy: Scales,
    place: u64,
    id: u64,
    s: TrackedView,
)
    requires
        roomy == (Scales { minus: roomy.minus, plus: roomy.plus, total: roomy.total, ..scales }),
        ({
            let size = if s.label {
                roomy.plus
            } else {
                roomy.minus
            };
            size * 20 >= roomy.total && size * INFLUENCE_ONE
                >= scales.config.minority_protection_ratio * roomy.total
        }),
    ensures
        ({
            let size = if s.label {
                scales.plus
            } else {
                scales.minus
            };
            let kept = scales.score(place, id, s);
            let whole = roomy.score(place, id, s);
            if size * 20 < scales.total {
                5 * kept == whole
            } else if size * INFLUENCE_ONE < scales.config.minority_protection_ratio
                * scales.total {
                2 * kept == whole
            } else {
                kept == whole
            }
        }),
{
    let a = scales.age_whole();
    let r = scales.influence_whole();
    let sum = scales.config.age_weight * (40 * scales.age_part(place, id, s) * r)
        + scales.config.influence_weight * ((20 * scales.influence_part(s) + 2 * Scales::bonus(s)
        * r) * a) + scales.config.class_weight * (20 * scales.penalty(s.label) * a * r);
    assert(scales.score(place, id, s) == sum * scales.protection(s.label));
    assert(roomy.score(place, id, s) == sum * 10);
}

/// The score grows evenly with the age, from that of a sample that has just come to that
/// of the oldest one.
pub proof fn law_score_grows_with_age(
    scales: Scales,
    place: u64,
    id: u64,
    s: TrackedView,
    newest: TrackedView,
    oldest: TrackedView,
)
    requires
        !scales.config.class_aware_random,
        scales.max_age >= 1,
        scales.max_age <= place,
        s.position <= place,
        newest == (TrackedView { position: place, ..s }),
        oldest == (TrackedView { position: (place - scales.max_age) as u64, ..s }),
    ensures
        ({
            let low = scales.score(place, id, newest);
            let high = scales.score(place, id, oldest);
            &&& scales.max_age * (scales.score(place, id, s) - low) == (place - s.position) * (high
                - low)
            &&& scales.config.age_weight > 0 ==> high > low
        }),
{
    lemma_score(scales, place, id, s);
    lemma_score(scales, place, id, newest);
    lemma_score(scales, place, id, oldest);
    let unit = scales.influence_whole() * scales.protection(s.label);
    let aw = scales.config.age_weight as int;
    let x = (place - s.position) as int;
    let m = scales.max_age as int;
    assert(unit >= 1) by (nonlinear_arith)
        requires
            unit == scales.influence_whole() * scales.protection(s.label),
            scales.influence_whole() >= 1,
            scales.protection(s.label) >= 2,
    ;
    assert(m * (40 * (aw * x * unit) - 40 * (aw * 0 * unit)) == x * (40 * (aw * m * unit) - 40 * (aw
        * 0 * unit))) by (nonlinear_arith);
    assert(aw > 0 ==> 40 * (aw * m * unit) > 40 * (aw * 0 * unit)) by (nonlinear_arith)
        requires
            m >= 1,
            unit >= 1,
    ;
}

/// What an influence counts for: the score falls evenly from that of the most harmful
/// sample to that of the most helpful one, an unknown influence counts as the middle
/// between them, a sample that has come to do harm counts three tenths of the whole
/// distance more, and one that has only become worse by more than a tenth half of that.
pub proof fn law_score_falls_with_influence(
    scales: Scales,
    place: u64,
    id: u64,
    s: TrackedView,
    low: i64,
    high: i64,
)
    requires
        scales.span == Some((low, high)),
        low < high,
    ensures
        ({
            let plain = TrackedView { prev_influence: None, ..s };
            let worst = scales.score(
                place,
                id,
                TrackedView { cached_influence: Some(low), ..plain },
            );
            let best = scales.score(
                place,
                id,
                TrackedView { cached_influence: Some(high), ..plain },
            );
            let base = scales.score(place, id, plain);
            let score = scales.score(place, id, s);
            &&& s.cached_influence is Some ==> (high - low) * (base - best) == (high
                - s.cached_influence->0) * (worst - best)
            &&& s.cached_influence is None ==> 2 * (base - best) == worst - best
            &&& match (s.cached_influence, s.prev_influence) {
                (Some(now), Some(before)) => if before >= 0 && now < 0 {
                    10 * (score - base) == 3 * (worst - best)
                } else if now - before < -100000000 {
                    20 * (score - base) == 3 * (worst - best)
                } else {
                    score == base
                },
                _ => score == base,
            }
            &&& scales.config.influence_weight > 0 && scales.age_whole() >= 1 ==> worst > best
        }),
{
    let plain = TrackedView { prev_influence: None, ..s };
    let bad = TrackedView { cached_influence: Some(low), ..plain };
    let good = TrackedView { cached_influence: Some(high), ..plain };
    lemma_score(scales, place, id, s);
    lemma_score(scales, place, id, plain);
    lemma_score(scales, place, id, bad);
    lemma_score(scales, place, id, good);
    let a = scales.age_whole();
    let p = scales.protection(s.label);
    let r = scales.influence_whole();
    assert(r == high - low);
    let iw = scales.config.influence_weight as int;
    let u = a * p;
    let unit = a * r * p;
    assert(iw * 0 * unit == 0 && iw * 0 * u == 0) by (nonlinear_arith);
    let h = scales.influence_part(s);
    let b = Scales::bonus(s);
    let d = iw * r * u;
    assert(iw * b * unit == b * d) by (nonlinear_arith)
        requires
            d == iw * r * u,
            u == a * p,
            unit == a * r * p,
    ;
    assert(iw * (2 * r) * u == 2 * d) by (nonlinear_arith)
        requires
            d == iw * r * u,
    ;
    assert(r * (iw * h * u) == h * d) by (nonlinear_arith)
        requires
            d == iw * r * u,
    ;
    assert(h == r ==> iw * h * u == d);
    let worst = scales.score(place, id, bad);
    let best = scales.score(place, id, good);
    let base = scales.score(place, id, plain);
    assert(worst - best == 40 * d);
    assert(base - best == 20 * (iw * h * u));
    if s.cached_influence is Some {
        let g = high - s.cached_influence->0;
        assert(h == 2 * g);
        let t = iw * h * u;
        assert(r * (20 * t) == g * (40 * d)) by (nonlinear_arith)
            requires
                r * t == h * d,
                h == 2 * g,
        ;
    }
    assert(iw > 0 && a >= 1 ==> d > 0) by {
        if iw > 0 && a >= 1 {
            assert(u >= 1) by (nonlinear_arith)
                requires
                    u == a * p,
                    a >= 1,
                    p >= 2,
            ;
            assert(d > 0) by (nonlinear_arith)
                requires
                    d == iw * r * u,
                    iw > 0,
                    r > 0,
                    u >= 1,
            ;
        }
    }
}

/// How the weights compare: the whole distance of the influences counts against that of
/// the ages as their weights do, and the class of a sample counts half of what its weight
/// would make of the ages.
pub proof fn law_weights_compare(
    scales: Scales,
    place: u64,
    id: u64,
    s: TrackedView,
    low: i64,
    high: i64,
)
    requires
        !scales.config.class_aware_random,
        1 <= scales.max_age <= place,
        scales.span == Some((low, high)),
        low < high,
    ensures
        ({
            let newest = scales.score(place, id, TrackedView { position: place, ..s });
            let oldest = scales.score(
                place,
                id,
                TrackedView { position: (place - scales.max_age) as u64, ..s },
            );
            let plain = TrackedView { prev_influence: None, ..s };
            let worst = scales.score(
                place,
                id,
                TrackedView { cached_influence: Some(low), ..plain },
            );
            let best = scales.score(
                place,
                id,
                TrackedView { cached_influence: Some(high), ..plain },
            );
            let minor = scales.score(place, id, TrackedView { label: scales.minority, ..s });
            let major = scales.score(place, id, TrackedView { label: !scales.minority, ..s });
            let spacious = |size: usize|
                size * 20 >= scales.total && size * INFLUENCE_ONE
                    >= scales.config.minority_protection_ratio * scales.total;
            &&& scales.config.age_weight * (worst - best) == scales.config.influence_weight * (oldest
                - newest)
            &&& spacious(scales.plus) && spacious(scales.minus) ==> 2 * (scales.config.age_weight * (
            major - minor)) == scales.config.class_weight * (oldest - newest)
        }),
{
    let fresh = TrackedView { position: place, ..s };
    let aged = TrackedView { position: (place - scales.max_age) as u64, ..s };
    let plain = TrackedView { prev_influence: None, ..s };
    let bad = TrackedView { cached_influence: Some(low), ..plain };
    let good = TrackedView { cached_influence: Some(high), ..plain };
    let small = TrackedView { label: scales.minority, ..s };
    let large = TrackedView { label: !scales.minority, ..s };
    lemma_score(scales, place, id, fresh);
    lemma_score(scales, place, id, aged);
    lemma_score(scales, place, id, bad);
    lemma_score(scales, place, id, good);
    lemma_score(scales, place, id, small);
    lemma_score(scales, place, id, large);
    let a = scales.max_age as int;
    let p = scales.protection(s.label);
    let r = scales.influence_whole();
    assert(r == high - low);
    let aw = scales.config.age_weight as int;
    let iw = scales.config.influence_weight as int;
    let cw = scales.config.class_weight as int;
    assert(aw * (20 * (iw * (2 * r) * (a * p)) - 20 * (iw * 0 * (a * p))) == iw * (40 * (aw * a * (r
        * p)) - 40 * (aw * 0 * (r * p)))) by (nonlinear_arith);
    assert(2 * (aw * (20 * (cw * 0 * (a * r * p)) - 20 * (cw * (-1) * (a * r * p)))) == cw * (40 * (aw
        * a * (r * p)) - 40 * (aw * 0 * (r * p)))) by (nonlinear_arith);
}

/// Some smallest and some largest influence there is, if any is known.
proof fn lemma_has_span(kept: Map<u64, TrackedView>)
    requires
        kept.dom().finite(),
    ensures
        spans_influences(kept, influence_span(kept)),
    decreases kept.dom().len(),
{
    if kept.dom().len() == 0 {
        assert(kept.dom() =~= Set::<u64>::empty());
        assert(forall|id: u64| !kept.contains_key(id));
        assert(spans_influences(kept, None));
    } else {
        let id = kept.dom().choose();
        assert(kept.contains_key(id));
        let rest = kept.remove(id);
        assert(rest.dom() =~= kept.dom().remove(id));
        lemma_has_span(rest);
        let before = influence_span(rest);
        assert forall|x: u64| #[trigger] kept.contains_key(x) && x != id implies rest.contains_key(
            x,
        ) && rest[x] == kept[x] by {}
        assert forall|x: u64| #[trigger] rest.contains_key(x) implies kept.contains_key(x)
            && rest[x] == kept[x] by {}
        match kept[id].cached_influence {
            Some(y) => {
                match before {
                    Some((low, high)) => {
                        let a = if y < low {
                            y
                        } else {
                            low
                        };
                        let b = if y > high {
                            y
                        } else {
                            high
                        };
                        let i = choose|x: u64| #[trigger]
                            rest.contains_key(x) && rest[x].cached_influence == Some(low);
                        let j = choose|x: u64| #[trigger]
                            rest.contains_key(x) && rest[x].cached_influence == Some(high);
                        assert(kept.contains_key(i) && kept.contains_key(j));
                        assert(spans_influences(kept, Some((a, b))));
                    },
                    None => {
                        assert(spans_influences(kept, Some((y, y))));
                    },
                }
            },
            None => {
                match before {
                    Some((low, high)) => {
                        let i = choose|x: u64| #[trigger]
                            rest.contains_key(x) && rest[x].cached_influence == Some(low);
                        let j = choose|x: u64| #[trigger]
                            rest.contains_key(x) && rest[x].cached_influence == Some(high);
                        assert(kept.contains_key(i) && kept.contains_key(j));
                        assert(spans_influences(kept, Some((low, high))));
                    },
                    None => {
                        assert(spans_influences(kept, None));
                    },
                }
            },
        }
    }
}

/// The scales of a registry fit its samples: none is older than the oldest age, and every
/// known influence lies in the span, whose ends are influences of samples.
pub proof fn law_scales_fit(v: RegistryView, config: BudgetConfig, id: u64)
    requires
        v.wf(),
        v.kept.contains_key(id),
    ensures
        ({
            let scales = scales_of(v, config);
            let s = v.kept[id];
            &&& scales.fits(v.place, s)
            &&& 1 <= v.place - s.position <= scales.max_age
            &&& exists|other: u64| #[trigger]
                v.kept.contains_key(other) && v.place - v.kept[other].position == scales.max_age
            &&& match scales.span {
                Some((low, high)) => {
                    &&& s.cached_influence is Some ==> low <= s.cached_influence->0 <= high
                    &&& exists|other: u64| #[trigger]
                        v.kept.contains_key(other) && v.kept[other].cached_influence == Some(low)
                    &&& exists|other: u64| #[trigger]
                        v.kept.contains_key(other) && v.kept[other].cached_influence == Some(high)
                },
                None => s.cached_influence is None,
            }
        }),
{
    let scales = scales_of(v, config);
    lemma_has_span(v.kept);
    let e = (v.kept[id].position, id);
    assert(v.order.contains(e));
    let i = v.order.index_of(e);
    if i > 0 {
        assert(v.order[0].0 < v.order[i].0);
    }
    assert(v.order[i].0 < v.place);
    assert(v.kept.contains_key(v.order[0].1));
    assert(v.order[0].0 < v.place);
    match scales.span {
        Some((low, high)) => {
            let k = choose|x: u64| #[trigger]
                v.kept.contains_key(x) && v.kept[x].cached_influence == Some(low);
            assert(v.kept.contains_key(k));
        },
        None => {},
    }
}

/// A sample of the smaller class does not go before one of the larger class of which the
/// same influences are known and that came earlier.
pub proof fn law_minority_outlasts_majority(
    v: RegistryView,
    config: BudgetConfig,
    n: int,
    list: Seq<u64>,
    i: int,
    other: u64,
)
    requires
        v.wf(),
        !config.class_aware_random,
        config.age_weight >= 0,
        config.influence_weight >= 0,
        config.class_weight > 0,
        chosen_by(v, Rule::Eviction { scales: scales_of(v, config) }, n, list),
        0 <= i < list.len(),
        v.kept.contains_key(list[i]),
        v.kept.contains_key(other),
        v.kept[list[i]].label != v.kept[other].label,
        of_class(v.kept, v.kept[list[i]].label).len() < of_class(v.kept, v.kept[other].label).len(),
        v.kept[other].position <= v.kept[list[i]].position,
        v.kept[other].cached_influence == v.kept[list[i]].cached_influence,
        v.kept[other].prev_influence == v.kept[list[i]].prev_influence,
        v.kept.len() <= usize::MAX,
    ensures
        list.take(i).contains(other),
{
    let scales = scales_of(v, config);
    let id = list[i];
    let minor = v.kept[id];
    let major = v.kept[other];
    law_classes_add_up(v);
    law_scales_fit(v, config, id);
    let twin = TrackedView { label: !minor.label, ..minor };
    law_minority_goes_last(scales, v.place, id, other, minor, twin);
    let older = TrackedView { position: major.position, ..twin };
    law_older_goes_first(scales, v.place, other, other, older, twin);
    assert(scales.score(v.place, other, older) == scales.score(v.place, other, major));
    if !list.take(i).contains(other) {
        assert(!list.take(i + 1).contains(other)) by {
            if list.take(i + 1).contains(other) {
                let j = list.take(i + 1).index_of(other);
                assert(list.take(i + 1)[j] == other);
                if j < i {
                    assert(list.take(i)[j] == other);
                }
            }
        }
        law_highest_scores_go(v, scales, n, list, i, other);
    }
}

/// Where ages are drawn they are shares too: not below zero, and below what they are parts of.
pub proof fn law_drawn_ages_are_shares(scales: Scales, place: u64, id: u64, s: TrackedView)
    requires
        scales.config.class_aware_random,
    ensures
        0 <= scales.age_part(place, id, s) < scales.age_whole(),
        forall|t: TrackedView| #[trigger]
            scales.age_part(place, id, t) == scales.age_part(place, id, s),
{
    let x = scrambled(id, place);
    assert(x >> 11 < 0x20_0000_0000_0000) by (bit_vector);
}

} // verus!
