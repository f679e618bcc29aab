//! What holds of leaves that are split on the spot.

use super::{
    leaf_split, placement_split, positives_in, seen_at_leaf, sorted_out, splits_now, states_split,
    surely_better, HoeffdingConfig,
};
use crate::count::{lemma_those, lemma_those_agree, those};
use crate::fraction::Fraction;
use crate::node::node_id::{law_level_bounds, level};
use crate::root::lemma_root;
use crate::sample::Sample;
use crate::split::Split;
use crate::split_stats::is_fine_share;
use crate::streaming::laws::{is_lowest, law_best_split_is_lowest, scores_are_fractions};
use crate::streaming::{runner_up, DelayTag, StateView};
use crate::tree::shape::Nodes;
use crate::tree::DynFrsTree;
use vstd::prelude::*;

verus! {

/// The bound on what is off: twice the number of samples times its square is the logarithm
/// of the inverse probability, up to rounding down. So it does not grow with the number of
/// samples.
pub proof fn law_bound_is_root(config: HoeffdingConfig, n: int)
    requires
        n > 0,
        config.log_inverse_delta >= 0,
    ensures
        config.bound(n) >= 0,
        2 * n * (config.bound(n) * config.bound(n)) <= config.log_inverse_delta * 1_000_000_000,
        config.log_inverse_delta * 1_000_000_000 < 2 * n * ((config.bound(n) + 1) * (config.bound(n)
            + 1)),
{
    let x = config.log_inverse_delta * 1_000_000_000;
    let d = 2 * n;
    let q = x / d;
    vstd::arithmetic::div_mod::lemma_fundamental_div_mod(x, d);
    assert(q >= 0) by (nonlinear_arith)
        requires
            q == x / d,
            x >= 0,
            d > 0,
    ;
    lemma_root(q);
    let r = config.bound(n);
    let s = r * r;
    let t = (r + 1) * (r + 1);
    assert(d * s <= d * q) by (nonlinear_arith)
        requires
            s <= q,
            d > 0,
    ;
    assert(d * (q + 1) <= d * t) by (nonlinear_arith)
        requires
            q + 1 <= t,
            d > 0,
    ;
    assert(d * (q + 1) == d * q + d) by (nonlinear_arith);
}

/// With more samples scores are off by no more.
pub proof fn law_bound_shrinks(config: HoeffdingConfig, n: int, m: int)
    requires
        0 < n <= m,
        config.log_inverse_delta >= 0,
    ensures
        config.bound(m) <= config.bound(n),
{
    law_bound_is_root(config, n);
    law_bound_is_root(config, m);
    let a = config.bound(n);
    let b = config.bound(m);
    if b > a {
        assert(2 * m * (b * b) >= 2 * n * ((a + 1) * (a + 1))) by (nonlinear_arith)
            requires
                b >= a + 1,
                a >= 0,
                0 < n <= m,
        ;
    }
}

/// A split is surely better than the second best one if its score is lower by more than the
/// bound; or if the bound is below the one that ends all doubt. Without any split nothing is
/// sure, and without a second one only the end of doubt is.
pub proof fn law_sure_is_beyond_bound(
    best: Option<Fraction>,
    second: Option<Fraction>,
    bound: i64,
    tau: i64,
)
    ensures
        best is None ==> !surely_better(best, second, bound, tau),
        best is Some && bound < tau ==> surely_better(best, second, bound, tau),
        second is None && bound >= tau ==> !surely_better(best, second, bound, tau),
        best is Some && second is Some && bound >= tau && is_fine_share(best->0) && is_fine_share(
            second->0,
        ) ==> (surely_better(best, second, bound, tau) <==> (second->0.num * best->0.den
            - best->0.num * second->0.den) * 1_000_000_000 > bound * (second->0.den
            * best->0.den)),
{
}

/// A leaf is split on the spot only if it has samples of both classes, and enough of them,
/// and one split is surely better than the second best; and then it is.
pub proof fn law_split_needs_both_classes(
    nodes: Nodes,
    states: Map<u64, StateView>,
    config: HoeffdingConfig,
    leaf: u64,
    best: Option<Fraction>,
    second: Option<Fraction>,
    bound: i64,
)
    requires
        nodes.contains_key(leaf),
        nodes[leaf] is Leaf,
        nodes[leaf].plus() <= nodes[leaf].samples(),
        states.contains_key(leaf),
    ensures
        splits_now(nodes, states, config, leaf, best, second, bound) <==> 0 < nodes[leaf].plus()
            < nodes[leaf].samples() && nodes[leaf].samples() >= config.grace_period
            && surely_better(best, second, bound, config.tau),
{
}

/// The positive samples of a list are those at the places that hold one.
pub proof fn law_positives_are_counted<S: Sample>(known: Map<u64, &S>, list: Seq<u64>)
    ensures
        positives_in(known, list) == those(
            list.len() as int,
            |i: int| known[list[i]].data().label,
        ).len(),
    decreases list.len(),
{
    let p = |i: int| known[list[i]].data().label;
    lemma_those(list.len() as int, p);
    if list.len() > 0 {
        let before = list.drop_last();
        law_positives_are_counted(known, before);
        lemma_those_agree(list.len() - 1, p, |i: int| known[before[i]].data().label);
    }
}

/// A leaf that is split becomes an inner node with the split; each of its samples that is
/// known goes to the one of its new leaves that the split sends it to, and the leaves count
/// what they name.
pub proof fn law_split_leaf_parts_samples<S: Sample>(
    nodes: Nodes,
    known: Map<u64, &S>,
    leaf: u64,
    split: Split,
    lefts: Seq<u64>,
    rights: Seq<u64>,
)
    requires
        0 < leaf < 0x8000_0000_0000_0000,
        nodes.contains_key(leaf),
        nodes[leaf] is Leaf,
        sorted_out(nodes[leaf]->sample_ids, known, split, lefts, rights),
        lefts.len() <= u32::MAX,
        rights.len() <= u32::MAX,
    ensures
        ({
            let after = leaf_split(nodes, known, leaf, split, lefts, rights);
            let left = after[(2 * leaf) as u64];
            let right = after[(2 * leaf + 1) as u64];
            let named = nodes[leaf]->sample_ids;
            &&& after[leaf] is Internal
            &&& after[leaf]->split == split
            &&& !after[leaf].pending()
            &&& after[leaf].samples() == nodes[leaf].samples()
            &&& after[leaf].plus() == nodes[leaf].plus()
            &&& left is Leaf
            &&& right is Leaf
            &&& forall|sid: u64|
                #![trigger left->sample_ids.contains(sid)]
                #![trigger right->sample_ids.contains(sid)]
                {
                    &&& left->sample_ids.contains(sid) <==> named.contains(sid)
                        && known.contains_key(sid) && split.routes_left(known[sid].data().values)
                    &&& right->sample_ids.contains(sid) <==> named.contains(sid)
                        && known.contains_key(sid) && !split.routes_left(known[sid].data().values)
                }
            &&& left.samples() == left->sample_ids.len()
            &&& right.samples() == right->sample_ids.len()
            &&& left.plus() == those(
                lefts.len() as int,
                |i: int| known[lefts[i]].data().label,
            ).len()
            &&& right.plus() == those(
                rights.len() as int,
                |i: int| known[rights[i]].data().label,
            ).len()
            &&& forall|id: u64|
                id != leaf && id != 2 * leaf && id != 2 * leaf + 1 ==> (#[trigger] after.contains_key(
                    id,
                ) == nodes.contains_key(id)) && (nodes.contains_key(id) ==> after[id] == nodes[id])
        }),
{
    law_positives_are_counted(known, lefts);
    law_positives_are_counted(known, rights);
    lemma_those(lefts.len() as int, |i: int| known[lefts[i]].data().label);
    lemma_those(rights.len() as int, |i: int| known[rights[i]].data().label);
    lefts.unique_seq_to_set();
    rights.unique_seq_to_set();
}

/// Each known sample of a leaf that is split is led to the new leaf that the split sends it
/// to, an unknown one is led nowhere, and samples of other leaves to where they were.
pub proof fn law_split_leaf_leads_samples<S: Sample>(
    leaves: Map<u64, u64>,
    named: Set<u64>,
    known: Map<u64, &S>,
    split: Split,
    leaf: u64,
    lefts: Seq<u64>,
    rights: Seq<u64>,
    sid: u64,
)
    requires
        0 < leaf < 0x8000_0000_0000_0000,
        sorted_out(named, known, split, lefts, rights),
    ensures
        ({
            let after = placement_split(leaves, named, leaf, lefts, rights);
            &&& named.contains(sid) && known.contains_key(sid) ==> after.contains_key(sid)
                && after[sid] == (if split.routes_left(known[sid].data().values) {
                2 * leaf
            } else {
                2 * leaf + 1
            })
            &&& named.contains(sid) && !known.contains_key(sid) ==> !after.contains_key(sid)
            &&& !named.contains(sid) ==> after.contains_key(sid) == leaves.contains_key(sid) && (
            leaves.contains_key(sid) ==> after[sid] == leaves[sid])
        }),
{
    assert(lefts.contains(sid) <==> named.contains(sid) && known.contains_key(sid)
        && split.routes_left(known[sid].data().values));
    assert(rights.contains(sid) <==> named.contains(sid) && known.contains_key(sid)
        && !split.routes_left(known[sid].data().values));
}

/// What streaming knows after a leaf has been split: of the node that it splits at the
/// attribute and the threshold and has no samples of its own, and of each new leaf, one step
/// deeper, its samples and how many of them are positive.
pub proof fn law_split_leaf_is_known<S: Sample>(
    states: Map<u64, StateView>,
    width: u8,
    known: Map<u64, &S>,
    leaf: u64,
    attr: u8,
    threshold: i64,
    lefts: Seq<u64>,
    rights: Seq<u64>,
)
    requires
        0 < leaf < 0x8000_0000_0000_0000,
        states.contains_key(leaf),
        lefts.len() <= u32::MAX,
        rights.len() <= u32::MAX,
    ensures
        ({
            let after = states_split(states, width, known, leaf, attr, threshold, lefts, rights);
            let top = after[leaf];
            let l = after[(2 * leaf) as u64];
            let r = after[(2 * leaf + 1) as u64];
            &&& top.split_attr == Some(attr)
            &&& top.split_threshold == threshold
            &&& top.sample_ids.len() == 0
            &&& top.delay == DelayTag::NoDelay
            &&& top.attr_stats == states[leaf].attr_stats
            &&& l.sample_ids == lefts && r.sample_ids == rights
            &&& l.attr_stats.total_samples == lefts.len()
            &&& r.attr_stats.total_samples == rights.len()
            &&& l.attr_stats.total_positive == those(
                lefts.len() as int,
                |i: int| known[lefts[i]].data().label,
            ).len()
            &&& r.attr_stats.total_positive == those(
                rights.len() as int,
                |i: int| known[rights[i]].data().label,
            ).len()
            &&& l.depth == level(leaf) + 1 && r.depth == level(leaf) + 1
            &&& l.split_attr is None && r.split_attr is None
            &&& l.delay == DelayTag::NoDelay && r.delay == DelayTag::NoDelay
            &&& forall|id: u64|
                id != leaf && id != 2 * leaf && id != 2 * leaf + 1 ==> (#[trigger] after.contains_key(
                    id,
                ) == states.contains_key(id)) && (states.contains_key(id) ==> after[id]
                    == states[id])
        }),
{
    law_positives_are_counted(known, lefts);
    law_positives_are_counted(known, rights);
    lemma_those(lefts.len() as int, |i: int| known[lefts[i]].data().label);
    lemma_those(rights.len() as int, |i: int| known[rights[i]].data().label);
    law_level_bounds(leaf);
}

/// What is done at a leaf: if it is not sure nothing is; if it is sure and its samples are at
/// hand, a leaf with room below it becomes an inner node that splits at the candidate with the
/// lowest score; without its samples it is marked and work is asked for.
pub proof fn law_sure_leaf_is_split<S: Sample>(
    before: DynFrsTree,
    after: DynFrsTree,
    config: HoeffdingConfig,
    known: Option<Map<u64, &S>>,
    leaf: u64,
    work: bool,
    i: int,
)
    requires
        seen_at_leaf(before, after, config, known, leaf, work),
        before.streams(),
        before.states().contains_key(leaf),
        scores_are_fractions(before.states()[leaf].attr_stats.candidates),
        is_lowest(before.states()[leaf].attr_stats.candidates, i),
        0 < leaf < 0x8000_0000_0000_0000,
    ensures
        ({
            let c = before.states()[leaf].attr_stats.candidates;
            let bound = config.bound(before.structure()[leaf].samples() as int) as i64;
            let sure = splits_now(
                before.structure(),
                before.states(),
                config,
                leaf,
                c[i].best_score,
                runner_up(c),
                bound,
            );
            &&& !sure ==> !work && after.structure() == before.structure() && after.states()
                == before.states()
            &&& sure && known is Some && c[i].attr_idx < before.width() && level(leaf)
                < before.limits().max_depth ==> !work && after.structure()[leaf] is Internal
                && after.structure()[leaf]->split == (Split::Numerical {
                attribute_index: c[i].attr_idx,
                threshold: c[i].best_threshold,
            })
            &&& sure && known is None ==> work && after.structure() == before.structure()
                && after.states()[leaf].delay == DelayTag::NeedsSeparateAndBuild
                && after.states()[leaf].split_attr == Some(c[i].attr_idx)
                && after.states()[leaf].split_threshold == c[i].best_threshold
        }),
{
    let c = before.states()[leaf].attr_stats.candidates;
    law_best_split_is_lowest(c, i);
}

} // verus!
