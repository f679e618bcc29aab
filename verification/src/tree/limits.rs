//! When a node is split, and when it is looked at again.

use super::develop::due;
use super::grow::{root_up, score_in, Plan};
use super::inspect::tagged;
use super::lazy::{divided, divided_at, ids_in_order};
use super::shape::{is_inner, Nodes};
use super::unlearn::{impurity_now, let_go, nodes_without, sides_impurity, worsened};
use super::{DynFrsTree, TreeConfig};
use crate::node::node_id::{within, MAX_PARENT, ROOT};
use crate::node::{LazyTag, NodeView};
use crate::sample::{
    lemma_rows, lemma_sides, listed, plus, rows, side, Rows, Sample, SampleData,
};
use crate::scan::{is_side, picked, tallies};
use crate::split::Split;
use crate::split_stats::laws::law_score_is_difference_of_sides;
use crate::split_stats::{lemma_weights, weighted_den, weighted_num, SplitStats};
use vstd::prelude::*;

verus! {

/// The root that is rounded up.
proof fn lemma_root_up(n: int, r: int)
    requires
        0 <= r,
        r == 0 || (r - 1) * (r - 1) < n,
        r <= n,
    ensures
        ({
            let k = root_up(n, r);
            &&& r <= k <= n
            &&& k * k >= n
            &&& k == 0 || (k - 1) * (k - 1) < n
        }),
    decreases n - r,
{
    if r * r >= n || r >= n {
        assert(r * r >= n) by (nonlinear_arith)
            requires
                r * r >= n || r >= n,
                0 <= r <= n,
        ;
    } else {
        lemma_root_up(n, r + 1);
    }
}

/// How many attributes are tried: as many as asked for, or else as many as the square root
/// of their number, rounded up; never more than there are.
pub proof fn law_features_tried(plan: Plan)
    ensures
        plan.features_tried() <= plan.width,
        plan.config.max_features is None ==> {
            let k = plan.features_tried();
            &&& k * k >= plan.width
            &&& k == 0 || (k - 1) * (k - 1) < plan.width
        },
        plan.config.max_features matches Some(k) ==> plan.features_tried() == (if k <= plan.width {
            k as int
        } else {
            plan.width as int
        }),
{
    lemma_root_up(plan.width as int, 0);
}

/// Samples of which none has a property are none.
proof fn lemma_none(m: Rows, p: spec_fn(SampleData) -> bool)
    ensures
        m.filter(p).len() == 0 <==> forall|d: SampleData| #[trigger] m.count(d) > 0 ==> !p(d),
{
    let part = m.filter(p);
    if part.len() == 0 {
        assert forall|d: SampleData| #[trigger] m.count(d) > 0 implies !p(d) by {
            if p(d) {
                assert(part.count(d) == m.count(d));
                assert(part.count(d) <= part.len());
            }
        }
    } else {
        let d = part.choose();
        assert(part.count(d) > 0);
        assert(m.count(d) > 0);
    }
}

/// A node is not split if it lies too deep, if it has too few samples, or if its samples are
/// all of one class; and in no other case has it to stay a leaf.
pub proof fn law_node_stops(plan: Plan, m: Rows, depth: int)
    ensures
        plan.must_stop(m, depth) <==> {
            ||| depth >= plan.config.max_depth
            ||| m.len() < plan.config.min_samples_split
            ||| forall|d: SampleData| #[trigger] m.count(d) > 0 ==> !d.label
            ||| forall|d: SampleData| #[trigger] m.count(d) > 0 ==> d.label
        },
{
    let yes = |d: SampleData| d.label;
    let no = |d: SampleData| !d.label;
    lemma_none(m, yes);
    lemma_none(m, no);
    assert(m =~= m.filter(yes).add(m.filter(no)));
    assert(plus(m) =~= m.filter(yes));
}

/// A split at which a grown tree parts samples puts enough of them on each side, parts the
/// classes unevenly, and stands at a node that may be split.
pub proof fn law_split_gains(plan: Plan, m: Rows, depth: int, split: Split)
    requires
        plan.may_split(m, depth, split),
        m.len() <= u32::MAX,
    ensures
        depth < plan.config.max_depth,
        m.len() >= plan.config.min_samples_split,
        ({
            let l = m.filter(|d: SampleData| split.routes_left(d.values));
            let r = m.filter(|d: SampleData| !split.routes_left(d.values));
            let pl = l.filter(|d: SampleData| d.label).len();
            let pr = r.filter(|d: SampleData| d.label).len();
            &&& l.len() >= plan.config.min_samples_leaf
            &&& r.len() >= plan.config.min_samples_leaf
            &&& l.len() > 0
            &&& r.len() > 0
            &&& l.len() + r.len() == m.len()
            &&& pl * r.len() != pr * l.len()
        }),
{
    let l = m.filter(|d: SampleData| split.routes_left(d.values));
    let r = m.filter(|d: SampleData| !split.routes_left(d.values));
    assert(side(m, split, true) =~= l);
    assert(side(m, split, false) =~= r);
    assert(m =~= l.add(r));
    let splits = choose|splits: Seq<Split>| #[trigger]
        plan.drawn(m, splits) && super::grow::pick(m, splits) == Some(split) && plan.balanced(
            m,
            split,
        );
    super::grow::law_pick_is_best(m, splits, splits.len() as int);
    assert(score_in(m, split) is Some && score_in(m, split)->0 > 0);
    let pl = plus(l).len() as int;
    let pr = plus(r).len() as int;
    let ml = l.len() - pl;
    let mr = r.len() - pr;
    assert(l.len() > 0 && r.len() > 0);
    assert(plus(m) =~= plus(l).add(plus(r)));
    assert(l =~= plus(l).add(l.filter(|d: SampleData| !d.label)));
    assert(r =~= plus(r).add(r.filter(|d: SampleData| !d.label)));
    assert(ml >= 0 && mr >= 0);
    law_score_is_difference_of_sides(pl, ml, pr, mr);
    let n = pl + ml + pr + mr;
    let gap = pl * mr - pr * ml;
    let parts = n * n * ((pl + ml) * (pr + mr));
    let score = score_in(m, split)->0;
    assert(score * parts > 0) by (nonlinear_arith)
        requires
            score > 0,
            parts > 0,
    ;
    assert(gap != 0) by (nonlinear_arith)
        requires
            2000000000000 * (gap * gap) > 0,
    ;
    assert(pl * (pr + mr) - pr * (pl + ml) == gap) by (nonlinear_arith)
        requires
            gap == pl * mr - pr * ml,
    ;
    assert(l.filter(|d: SampleData| d.label) =~= plus(l));
    assert(r.filter(|d: SampleData| d.label) =~= plus(r));
}

/// An inner node is to be grown anew if it is marked, or if more places of the stream have
/// passed since it was made than a split may be old; a leaf never is.
pub proof fn law_due_is_marked_or_old(n: NodeView, position: u64, max_age: Option<u64>)
    ensures
        n is Leaf ==> !due(n, position, max_age),
        n is Internal && n->lazy_tag != LazyTag::Clean ==> due(n, position, max_age),
        n is Internal && n->lazy_tag == LazyTag::Clean && max_age is None ==> !due(
            n,
            position,
            max_age,
        ),
        n is Internal && n->lazy_tag == LazyTag::Clean && max_age is Some ==> (due(
            n,
            position,
            max_age,
        ) <==> n->created_at + max_age->0 < position),
{
}

/// The impurity that a split leaves is that of both sides, each weighed by its share of the
/// samples: the impurity of a side is one less the squares of the shares of the classes. If
/// a side is empty it is that of the other one.
pub proof fn law_sides_are_weighed(pl: int, ml: int, pr: int, mr: int)
    requires
        0 <= pl,
        0 <= ml,
        0 <= pr,
        0 <= mr,
        0 < pl + ml + pr + mr <= u32::MAX,
    ensures
        ({
            let nl = pl + ml;
            let nr = pr + mr;
            let f = sides_impurity(nl, pl, nr, pr);
            let left = nl * nl - pl * pl - ml * ml;
            let right = nr * nr - pr * pr - mr * mr;
            &&& f.den > 0
            &&& nl > 0 && nr > 0 ==> f.num * ((nl + nr) * (nl * nr)) == f.den * (left * nr + right
                * nl)
            &&& nr == 0 ==> f.num * (nl * nl) == f.den * left
            &&& nl == 0 ==> f.num * (nr * nr) == f.den * right
        }),
{
    let nl = pl + ml;
    let nr = pr + mr;
    if nl == 0 {
        crate::split_stats::laws::law_impurity_is_one_less_squares(pr, mr);
    } else if nr == 0 {
        crate::split_stats::laws::law_impurity_is_one_less_squares(pl, ml);
    } else {
        lemma_weights(pl, ml, pr, mr);
        let left = nl * nl - pl * pl - ml * ml;
        let right = nr * nr - pr * pr - mr * mr;
        assert(left == 2 * (pl * ml)) by (nonlinear_arith)
            requires
                nl == pl + ml,
                left == nl * nl - pl * pl - ml * ml,
        ;
        assert(right == 2 * (pr * mr)) by (nonlinear_arith)
            requires
                nr == pr + mr,
                right == nr * nr - pr * pr - mr * mr,
        ;
        let a = pl * ml;
        let b = pr * mr;
        assert((2 * a) * nr + (2 * b) * nl == 2 * (a * nr + b * nl)) by (nonlinear_arith);
        let x = weighted_num(pl, ml, pr, mr);
        let y = weighted_den(pl, ml, pr, mr);
        assert(pl + ml + pr + mr == nl + nr);
        assert(x * y == y * x) by (nonlinear_arith);
    }
}

/// What becomes of an inner node on the way of a sample that goes: it counts one sample
/// less; it is to be looked at if too few samples are left to split, and otherwise its mark
/// stays, and with it its split.
pub proof fn law_node_lets_sample_go(n: NodeView, config: TreeConfig, sid: u64, positive: bool)
    requires
        n is Internal,
        n.samples() > 0,
        positive ==> n.plus() > 0,
        config.min_samples_split <= u32::MAX,
    ensures
        ({
            let after = let_go(n, config, sid, positive);
            &&& after is Internal
            &&& after->split == n->split
            &&& after.samples() == n.samples() - 1
            &&& after.plus() == n.plus() - (if positive {
                1int
            } else {
                0
            })
            &&& after->lazy_tag == (if n.samples() - 1 < config.min_samples_split {
                LazyTag::Dirty
            } else {
                n->lazy_tag
            })
        }),
{
}

/// Forgetting a sample that a leaf names changes the nodes from the leaf up to the root and
/// no others. On the way an inner node that is left with too few samples is to be looked at;
/// of the others one without a mark is to be grown anew if and only if its split has become
/// worse than allowed.
pub proof fn law_forgetting_marks_the_way(
    nodes: Nodes,
    leaves: Map<u64, u64>,
    config: TreeConfig,
    sid: u64,
    positive: bool,
    id: u64,
)
    requires
        leaves.contains_key(sid),
        nodes.contains_key(id),
        id >= 1,
        config.min_samples_split <= u32::MAX,
    ensures
        ({
            let leaf = leaves[sid];
            let after = nodes_without(nodes, leaves, config, sid, positive);
            &&& after.dom() == nodes.dom()
            &&& !within(leaf, id) ==> after[id] == nodes[id]
            &&& id == leaf ==> after[id] == nodes[id].without_sample(sid, positive)
            &&& within(leaf, id) && id != leaf && nodes[id] is Internal && nodes[id].samples() > 0
                && (positive ==> nodes[id].plus() > 0) ==> {
                &&& after[id] is Internal
                &&& after[id]->split == nodes[id]->split
                &&& after[id].samples() == nodes[id].samples() - 1
                &&& if after[id].samples() < config.min_samples_split {
                    after[id]->lazy_tag == LazyTag::Dirty
                } else if nodes[id]->lazy_tag == LazyTag::Clean {
                    after[id]->lazy_tag == (if config.split_quality_threshold is Some && worsened(
                        super::unlearn::counted_out(nodes, config, leaf, ROOT, sid, positive),
                        id,
                        config.split_quality_threshold->0,
                    ) {
                        LazyTag::Rebuild
                    } else {
                        LazyTag::Clean
                    })
                } else {
                    after[id]->lazy_tag == nodes[id]->lazy_tag
                }
            }
        }),
{
    let leaf = leaves[sid];
    let after = nodes_without(nodes, leaves, config, sid, positive);
    assert(after.dom() =~= nodes.dom());
}

/// A node whose samples are divided anew asks the new question and counts all of them; a leaf
/// below it names those that go its way and counts them, and an inner node below it is to be
/// looked at.
pub proof fn law_division_parts_samples<S: Sample>(
    before: DynFrsTree,
    after: DynFrsTree,
    known: Map<u64, &S>,
    id: u64,
    refs: Seq<&S>,
    split: Split,
)
    requires
        1 <= id <= MAX_PARENT,
        refs.len() <= u32::MAX,
        divided(before, after, known, id, refs, split),
    ensures
        ({
            let l = (2 * id) as u64;
            let r = (2 * id + 1) as u64;
            let nodes = before.structure();
            let node = after.structure()[id];
            &&& node is Internal
            &&& node->split == split
            &&& !node.pending()
            &&& node.samples() == refs.len()
            &&& nodes.contains_key(l) ==> side_taken(nodes[l], after.structure()[l], refs, split, true)
            &&& nodes.contains_key(r) ==> side_taken(
                nodes[r],
                after.structure()[r],
                refs,
                split,
                false,
            )
        }),
{
    let (lefts, rights) = choose|lefts: Seq<usize>, rights: Seq<usize>|
        {
            &&& is_side(refs, refs.len() as int, split, true, lefts)
            &&& is_side(refs, refs.len() as int, split, false, rights)
            &&& #[trigger] divided_at(before, after, known, id, refs, split, lefts, rights)
        };
    let m = rows(refs);
    lemma_rows(refs);
    lemma_sides(m, split);
    lemma_side_named(refs, split, true, lefts);
    lemma_side_named(refs, split, false, rights);
}

/// Whether a child has taken over the samples that go to its side.
pub open spec fn side_taken<S: Sample>(
    before: NodeView,
    after: NodeView,
    refs: Seq<&S>,
    split: Split,
    left: bool,
) -> bool {
    &&& after is Leaf <==> before is Leaf
    &&& after.samples() == rows(refs).filter(
        |d: SampleData| split.routes_left(d.values) == left,
    ).len()
    &&& after is Internal ==> after->lazy_tag == LazyTag::Dirty
    &&& after is Leaf ==> forall|sid: u64| #[trigger]
        after->sample_ids.contains(sid) <==> exists|i: int|
            0 <= i < refs.len() && (#[trigger] refs[i]).data().id == sid && split.routes_left(
                refs[i].data().values,
            ) == left
}

/// The identifiers at the places of a side are those of the samples that go there.
proof fn lemma_side_named<S: Sample>(refs: Seq<&S>, split: Split, left: bool, places: Seq<usize>)
    requires
        is_side(refs, refs.len() as int, split, left, places),
        refs.len() <= u32::MAX,
    ensures
        forall|sid: u64| #[trigger]
            ids_in_order(picked(refs, places)).to_set().contains(sid) <==> exists|i: int|
                0 <= i < refs.len() && (#[trigger] refs[i]).data().id == sid && split.routes_left(
                    refs[i].data().values,
                ) == left,
{
    let list = ids_in_order(picked(refs, places));
    lemma_rows(refs);
    assert forall|sid: u64| #[trigger] list.to_set().contains(sid) <==> exists|i: int|
        0 <= i < refs.len() && (#[trigger] refs[i]).data().id == sid && split.routes_left(
            refs[i].data().values,
        ) == left by {
        if list.contains(sid) {
            let j = list.index_of(sid);
            let i = places[j] as int;
            assert(refs[i].data().id == sid);
        }
        if exists|i: int|
            0 <= i < refs.len() && (#[trigger] refs[i]).data().id == sid && split.routes_left(
                refs[i].data().values,
            ) == left {
            let i = choose|i: int|
                0 <= i < refs.len() && (#[trigger] refs[i]).data().id == sid && split.routes_left(
                    refs[i].data().values,
                ) == left;
            let k = i as usize;
            assert(k as int == i);
            assert(listed(refs)[k as int] == refs[i].data());
            assert(split.routes_left(refs[k as int].data().values) == left);
            assert(places.contains(k));
            let j = places.index_of(k);
            assert(list[j] == sid);
        }
    }
}

/// Every inner node has one of the three marks, and no leaf has any.
pub proof fn law_marks_part_inner_nodes(nodes: Nodes, id: u64)
    ensures
        is_inner(nodes, id) <==> {
            ||| tagged(nodes, LazyTag::Clean).contains(id)
            ||| tagged(nodes, LazyTag::Dirty).contains(id)
            ||| tagged(nodes, LazyTag::Rebuild).contains(id)
        },
        tagged(nodes, LazyTag::Clean).disjoint(tagged(nodes, LazyTag::Dirty)),
        tagged(nodes, LazyTag::Clean).disjoint(tagged(nodes, LazyTag::Rebuild)),
        tagged(nodes, LazyTag::Dirty).disjoint(tagged(nodes, LazyTag::Rebuild)),
        tagged(nodes, LazyTag::Clean).contains(id) <==> is_inner(nodes, id)
            && !nodes[id].pending(),
{
}

/// The counts of a split are those of the samples on each side, by class.
pub proof fn law_split_counts_sides(stats: SplitStats, m: Rows, split: Split)
    requires
        tallies(stats, m, split),
    ensures
        stats.num_plus_left == m.filter(
            |d: SampleData| split.routes_left(d.values) && d.label,
        ).len(),
        stats.num_minus_left == m.filter(
            |d: SampleData| split.routes_left(d.values) && !d.label,
        ).len(),
        stats.num_plus_right == m.filter(
            |d: SampleData| !split.routes_left(d.values) && d.label,
        ).len(),
        stats.num_minus_right == m.filter(
            |d: SampleData| !split.routes_left(d.values) && !d.label,
        ).len(),
{
    let l = side(m, split, true);
    let r = side(m, split, false);
    let pl = m.filter(|d: SampleData| split.routes_left(d.values) && d.label);
    let ml = m.filter(|d: SampleData| split.routes_left(d.values) && !d.label);
    let pr = m.filter(|d: SampleData| !split.routes_left(d.values) && d.label);
    let mr = m.filter(|d: SampleData| !split.routes_left(d.values) && !d.label);
    assert(plus(l) =~= pl);
    assert(plus(r) =~= pr);
    assert(l =~= pl.add(ml));
    assert(r =~= pr.add(mr));
}

/// The impurity that is recorded with a split is that of both sides, each weighed by its share
/// of the samples, if the quality of splits is watched; otherwise none is.
pub proof fn law_recorded_is_what_is_left(plan: Plan, m: Rows, split: Split)
    requires
        m.len() <= u32::MAX,
        side(m, split, true).len() > 0,
        side(m, split, false).len() > 0,
    ensures
        plan.config.split_quality_threshold is None ==> plan.recorded(m, split).num == 0,
        plan.config.split_quality_threshold is Some ==> {
            let l = m.filter(|d: SampleData| split.routes_left(d.values));
            let r = m.filter(|d: SampleData| !split.routes_left(d.values));
            let pl = l.filter(|d: SampleData| d.label).len() as int;
            let pr = r.filter(|d: SampleData| d.label).len() as int;
            let ml = l.len() - pl;
            let mr = r.len() - pr;
            let nl = l.len() as int;
            let nr = r.len() as int;
            let f = plan.recorded(m, split);
            &&& f.den > 0
            &&& f.num * ((nl + nr) * (nl * nr)) == f.den * ((nl * nl - pl * pl - ml * ml) * nr + (nr
                * nr - pr * pr - mr * mr) * nl)
        },
{
    let l = m.filter(|d: SampleData| split.routes_left(d.values));
    let r = m.filter(|d: SampleData| !split.routes_left(d.values));
    assert(side(m, split, true) =~= l);
    assert(side(m, split, false) =~= r);
    assert(l.filter(|d: SampleData| d.label) =~= plus(l));
    assert(r.filter(|d: SampleData| d.label) =~= plus(r));
    lemma_sides(m, split);
    let pl = plus(l).len() as int;
    let pr = plus(r).len() as int;
    law_sides_are_weighed(pl, l.len() - pl, pr, r.len() - pr);
}

/// The impurity that the split of a node leaves now is told by the counts of its children, if
/// it has both and they have samples.
pub proof fn law_impurity_is_told_by_children(nodes: Nodes, id: u64)
    requires
        1 <= id <= MAX_PARENT,
    ensures
        ({
            let l = (2 * id) as u64;
            let r = (2 * id + 1) as u64;
            &&& impurity_now(nodes, id) is Some <==> is_inner(nodes, id) && nodes.contains_key(l)
                && nodes.contains_key(r) && (nodes[l].samples() > 0 || nodes[r].samples() > 0)
            &&& impurity_now(nodes, id) is Some ==> impurity_now(nodes, id)->0 == sides_impurity(
                nodes[l].samples() as int,
                nodes[l].plus() as int,
                nodes[r].samples() as int,
                nodes[r].plus() as int,
            )
        }),
{
}

} // verus!
