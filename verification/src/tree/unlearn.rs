//! Forgetting a sample by its identifier alone, and working on what that leaves behind.

use super::grow::{left_impurity, Plan};
use super::laws::{lemma_forgotten_represents, represents};
use super::shape::{
    end_of, exact, forgotten, full, is_inner, lemma_end_path, lemma_ids_positive, lemma_room, linked,
    narrow, reaches, same_splits, Nodes,
};
use super::stream::{lemma_above_gap, lemma_above_is_inner};
use super::{DynFrsTree, TreeConfig};
use crate::fraction::Fraction;
use crate::node::node_id::{
    left_child, lemma_within_order, lemma_within_root, parent, right_child, within, ROOT,
};
use crate::node::{LazyTag, Node, NodeView};
use crate::sample::{Rows, SampleData};
use crate::split_stats::{gini, has_risen, is_fine, is_fine_share, risen};
use vstd::prelude::*;

verus! {

/// The impurity that a split leaves, as the counts of its sides tell it.
pub open spec fn sides_impurity(nl: int, pl: int, nr: int, pr: int) -> Fraction {
    if nl == 0 {
        gini(pr, nr)
    } else if nr == 0 {
        gini(pl, nl)
    } else {
        left_impurity(pl, nl - pl, pr, nr - pr)
    }
}

/// The impurity that the split of a node leaves now.
pub open spec fn impurity_now(nodes: Nodes, id: u64) -> Option<Fraction> {
    let l = (2 * id) as u64;
    let r = (2 * id + 1) as u64;
    if is_inner(nodes, id) && nodes.contains_key(l) && nodes.contains_key(r) && nodes[l].samples()
        + nodes[r].samples() > 0 {
        Some(
            sides_impurity(
                nodes[l].samples() as int,
                nodes[l].plus() as int,
                nodes[r].samples() as int,
                nodes[r].plus() as int,
            ),
        )
    } else {
        None
    }
}

/// Whether the impurity of a split has risen by more than a limit since it was made.
pub open spec fn worsened(nodes: Nodes, id: u64, limit: i64) -> bool {
    impurity_now(nodes, id) matches Some(now) && is_fine_share(now) && is_fine_share(
        nodes[id]->split_gini,
    ) && risen(now, nodes[id]->split_gini, limit)
}

/// A node on the way of a sample that goes: an inner node that is left with too few
/// samples is to be looked at.
pub open spec fn let_go(n: NodeView, config: TreeConfig, sid: u64, positive: bool) -> NodeView {
    let less = n.without_sample(sid, positive);
    if less is Internal && less.samples() < config.min_samples_split as u32 {
        less.with_tag(LazyTag::Dirty)
    } else {
        less
    }
}

/// The nodes after those from a leaf up to a node have let a sample go.
pub open spec fn counted_out(
    nodes: Nodes,
    config: TreeConfig,
    leaf: u64,
    up_to: u64,
    sid: u64,
    positive: bool,
) -> Nodes {
    Map::new(
        |x: u64| nodes.contains_key(x),
        |x: u64|
            if x == leaf {
                nodes[x].without_sample(sid, positive)
            } else if within(leaf, x) && x >= up_to {
                let_go(nodes[x], config, sid, positive)
            } else {
                nodes[x]
            },
    )
}

/// The nodes after those from above a leaf up to a node have been marked where their
/// splits have worsened.
pub open spec fn looked_over(nodes: Nodes, limit: i64, leaf: u64, up_to: u64) -> Nodes {
    Map::new(
        |x: u64| nodes.contains_key(x),
        |x: u64|
            if x != leaf && within(leaf, x) && x >= up_to && nodes[x].tag() == Some(
                LazyTag::Clean,
            ) && worsened(nodes, x, limit) {
                nodes[x].with_tag(LazyTag::Rebuild)
            } else {
                nodes[x]
            },
    )
}

/// The nodes after a sample has been forgotten.
pub open spec fn nodes_without(
    nodes: Nodes,
    leaves: Map<u64, u64>,
    config: TreeConfig,
    sid: u64,
    positive: bool,
) -> Nodes {
    if leaves.contains_key(sid) {
        let less = counted_out(nodes, config, leaves[sid], ROOT, sid, positive);
        match config.split_quality_threshold {
            Some(limit) => looked_over(less, limit, leaves[sid], ROOT),
            None => less,
        }
    } else {
        nodes
    }
}

/// One more node on the way has let the sample go.
proof fn lemma_count_out_step(
    nodes: Nodes,
    config: TreeConfig,
    leaf: u64,
    current: u64,
    sid: u64,
    positive: bool,
)
    requires
        current > ROOT,
        within(leaf, current),
    ensures
        ({
            let done = counted_out(nodes, config, leaf, current, sid, positive);
            let up = current / 2;
            &&& within(leaf, up)
            &&& counted_out(nodes, config, leaf, up, sid, positive) == (if done.contains_key(up) {
                done.insert(up, let_go(done[up], config, sid, positive))
            } else {
                done
            })
        }),
{
    let done = counted_out(nodes, config, leaf, current, sid, positive);
    let up = current / 2;
    lemma_above_gap(leaf, current, current);
    lemma_within_order(leaf, current);
    assert forall|x: u64| within(leaf, x) && x > up implies x >= current by {
        lemma_above_gap(leaf, current, x);
    }
    assert(counted_out(nodes, config, leaf, up, sid, positive) =~= (if done.contains_key(up) {
        done.insert(up, let_go(done[up], config, sid, positive))
    } else {
        done
    }));
}

/// One more node on the way has been looked over.
proof fn lemma_look_over_step(nodes: Nodes, limit: i64, leaf: u64, current: u64)
    requires
        current > ROOT,
        within(leaf, current),
    ensures
        ({
            let done = looked_over(nodes, limit, leaf, current);
            let up = current / 2;
            &&& within(leaf, up)
            &&& looked_over(nodes, limit, leaf, up) == (if done.contains_key(up) && done[up].tag()
                == Some(LazyTag::Clean) && worsened(done, up, limit) {
                done.insert(up, done[up].with_tag(LazyTag::Rebuild))
            } else {
                done
            })
        }),
{
    let done = looked_over(nodes, limit, leaf, current);
    let up = current / 2;
    lemma_above_gap(leaf, current, current);
    lemma_within_order(leaf, current);
    assert forall|x: u64| within(leaf, x) && x > up implies x >= current by {
        lemma_above_gap(leaf, current, x);
    }
    assert(done.contains_key(up) ==> done[up] == nodes[up]);
    assert(impurity_now(done, up) == impurity_now(nodes, up));
    assert(looked_over(nodes, limit, leaf, up) =~= (if done.contains_key(up) && done[up].tag()
        == Some(LazyTag::Clean) && worsened(done, up, limit) {
        done.insert(up, done[up].with_tag(LazyTag::Rebuild))
    } else {
        done
    }));
}

/// Nodes that keep their kinds and splits keep hanging together.
pub proof fn lemma_same_splits_linked(a: Nodes, b: Nodes, max_depth: int, width: u8)
    requires
        linked(a, max_depth),
        narrow(a, width),
        same_splits(a, b),
    ensures
        linked(b, max_depth),
        narrow(b, width),
        forall|plan: Plan| plan.suits_all(a) ==> #[trigger] plan.suits_all(b),
{
    assert forall|id: u64| #[trigger] is_inner(b, id) == is_inner(a, id) by {
        assert(a.contains_key(id) == a.dom().contains(id));
        assert(b.contains_key(id) == b.dom().contains(id));
    }
    assert(linked(b, max_depth)) by {
        reveal(linked);
        assert forall|id: u64| #[trigger] b.contains_key(id) implies a.contains_key(id) by {
            assert(b.dom().contains(id));
        }
    }
    assert forall|plan: Plan| plan.suits_all(a) implies #[trigger] plan.suits_all(b) by {
        assert forall|id: u64| #[trigger] is_inner(b, id) implies plan.suits(b[id]->split) by {
            assert(is_inner(a, id));
        }
    }
}

/// Forgetting a sample changes no split.
pub proof fn lemma_without_same_splits(
    nodes: Nodes,
    leaves: Map<u64, u64>,
    config: TreeConfig,
    sid: u64,
    positive: bool,
)
    ensures
        same_splits(nodes, nodes_without(nodes, leaves, config, sid, positive)),
{
    let after = nodes_without(nodes, leaves, config, sid, positive);
    assert(nodes.dom() =~= after.dom());
}

/// A tree that represents some samples represents those without one of them after that
/// one has been forgotten by its identifier.
pub proof fn law_forgetting_by_id_is_exact(
    nodes: Nodes,
    leaves: Map<u64, u64>,
    config: TreeConfig,
    m: Rows,
    d: SampleData,
)
    requires
        represents(nodes, leaves, m),
        m.count(d) > 0,
    ensures
        represents(
            nodes_without(nodes, leaves, config, d.id, d.label),
            leaves.remove(d.id),
            m.remove(d),
        ),
        full(nodes) ==> full(nodes_without(nodes, leaves, config, d.id, d.label)),
{
    let leaf = leaves[d.id];
    let after = nodes_without(nodes, leaves, config, d.id, d.label);
    assert(leaves.dom().contains(d.id));
    assert(leaf == end_of(nodes, d.values, ROOT));
    lemma_without_same_splits(nodes, leaves, config, d.id, d.label);
    assert(exact(nodes, m));
    lemma_end_path(nodes, d.values, ROOT, leaf);
    assert(forgotten(nodes, after, d)) by {
        assert forall|id: u64| #[trigger] nodes.contains_key(id) implies {
            let n = if reaches(nodes, d.values, ROOT, id) {
                nodes[id].without_sample(d.id, d.label)
            } else {
                nodes[id]
            };
            &&& after[id].samples() == n.samples()
            &&& after[id].plus() == n.plus()
            &&& nodes[id] is Leaf ==> after[id]->sample_ids == n->sample_ids
        } by {
            lemma_end_path(nodes, d.values, ROOT, id);
            if id >= 1 {
                lemma_within_root(id);
                if within(leaf, id) && id != leaf {
                    lemma_above_is_inner(nodes, d.values, leaf, id);
                }
            }
        }
    }
    lemma_forgotten_represents(nodes, after, leaves, m, d);
}

/// What forgetting a sample by its identifier does to a tree.
pub open spec fn forgot_by_id(
    before: DynFrsTree,
    after: DynFrsTree,
    sid: u64,
    positive: bool,
) -> bool {
    &&& after.same_setting(&before)
    &&& after.structure() == nodes_without(
        before.structure(),
        before.placement(),
        before.limits(),
        sid,
        positive,
    )
    &&& after.placement() == before.placement().remove(sid)
    &&& after.states() == before.states()
}

/// A tree that has forgotten a sample by its identifier suits the attributes that it
/// suited before.
pub proof fn lemma_forgot_by_id_suits(
    before: DynFrsTree,
    after: DynFrsTree,
    sid: u64,
    positive: bool,
    plan: Plan,
)
    requires
        before.wf(),
        forgot_by_id(before, after, sid, positive),
        plan.suits_all(before.structure()),
    ensures
        plan.suits_all(after.structure()),
{
    lemma_without_same_splits(
        before.structure(),
        before.placement(),
        before.limits(),
        sid,
        positive,
    );
    lemma_same_splits_linked(
        before.structure(),
        after.structure(),
        before.limits().max_depth as int,
        before.width(),
    );
}

impl DynFrsTree {
    /// Takes a sample out of the count of a node above its leaf.
    #[verifier::truncate]
    fn count_out(&mut self, id: u64, sample_id: u64, was_positive: bool)
        ensures
            final(self).same_but_nodes(old(self)),
            final(self).states() == old(self).states(),
            final(self).placement() == old(self).placement(),
            final(self).same_setting(old(self)),
            old(self).wf_states() ==> final(self).wf_states(),
            final(self).structure() == (if old(self).structure().contains_key(id) {
                old(self).structure().insert(
                    id,
                    let_go(
                        old(self).structure()[id],
                        old(self).limits(),
                        sample_id,
                        was_positive,
                    ),
                )
            } else {
                old(self).structure()
            }),
    {
        let few: u32 = self.config.min_samples_split as u32;
        match self.nodes.get_mut(id) {
            Some(node) => {
                node.remove_sample(sample_id, was_positive);
                if node.is_internal() && node.num_samples() < few {
                    node.set_lazy_tag(LazyTag::Dirty);
                }
            },
            None => {},
        }
        assert(self.structure() =~= (if old(self).structure().contains_key(id) {
            old(self).structure().insert(
                id,
                let_go(old(self).structure()[id], old(self).limits(), sample_id, was_positive),
            )
        } else {
            old(self).structure()
        }));
    }

    /// Computes the impurity that the split of a node leaves now. There is none for a
    /// leaf, for a node that lacks a child, or without samples.
    pub fn compute_current_split_gini(&self, nid: u64) -> (r: Option<Fraction>)
        requires
            self.wf(),
        ensures
            r == impurity_now(self.structure(), nid),
    {
        proof {
            lemma_room(self.structure(), self.config.max_depth as int);
        }
        match self.nodes.get(nid) {
            Some(node) => {
                if !node.is_internal() {
                    return None;
                }
            },
            None => {
                return None;
            },
        }
        assert(is_inner(self.structure(), nid));
        match (self.nodes.get(left_child(nid)), self.nodes.get(right_child(nid))) {
            (Some(left), Some(right)) => {
                let nl: u32 = left.num_samples();
                let nr: u32 = right.num_samples();
                if nl == 0 && nr == 0 {
                    return None;
                }
                Some(impurity_of_sides(nl, left.num_plus(), nr, right.num_plus()))
            },
            _ => None,
        }
    }

    /// Marks a node for rebuilding if its split has worsened by more than a limit.
    fn look_over(&mut self, id: u64, limit: i64)
        requires
            old(self).wf(),
        ensures
            final(self).same_but_nodes(old(self)),
            final(self).states() == old(self).states(),
            final(self).placement() == old(self).placement(),
            final(self).same_setting(old(self)),
            final(self).wf(),
            final(self).structure() == (if old(self).structure().contains_key(id)
                && old(self).structure()[id].tag() == Some(LazyTag::Clean) && worsened(
                old(self).structure(),
                id,
                limit,
            ) {
                old(self).structure().insert(
                    id,
                    old(self).structure()[id].with_tag(LazyTag::Rebuild),
                )
            } else {
                old(self).structure()
            }),
    {
        let before: Fraction = match self.nodes.get(id) {
            Some(Node::Internal { lazy_tag: LazyTag::Clean, split_gini, .. }) => *split_gini,
            _ => {
                return;
            },
        };
        match self.compute_current_split_gini(id) {
            Some(now) => {
                if is_fine(now) && is_fine(before) && has_risen(now, before, limit) {
                    match self.nodes.get_mut(id) {
                        Some(node) => {
                            node.set_lazy_tag(LazyTag::Rebuild);
                        },
                        None => {},
                    }
                    let ghost after = old(self).structure().insert(
                        id,
                        old(self).structure()[id].with_tag(LazyTag::Rebuild),
                    );
                    assert(self.structure() =~= after);
                    assert(old(self).structure().dom() =~= after.dom());
                    proof {
                        lemma_same_splits_linked(
                            old(self).structure(),
                            after,
                            self.config.max_depth as int,
                            self.width(),
                        );
                    }
                }
            },
            None => {},
        }
    }

    /// Forgets a sample by its identifier: takes it out of its leaf and of the counts of
    /// every node above, marks inner nodes that are left with too few samples, and those
    /// whose splits have worsened too much. Says whether the tree had the sample.
    pub fn forget(&mut self, sample_id: u64, was_positive: bool) -> (r: bool)
        requires
            old(self).wf(),
        ensures
            final(self).wf(),
            final(self).same_setting(old(self)),
            final(self).source() == old(self).source(),
            r == old(self).placement().contains_key(sample_id),
            final(self).structure() == nodes_without(
                old(self).structure(),
                old(self).placement(),
                old(self).limits(),
                sample_id,
                was_positive,
            ),
            final(self).placement() == old(self).placement().remove(sample_id),
            final(self).states() == old(self).states(),
    {
        let leaf: u64 = match self.sample_leaf_map.remove(sample_id) {
            Some(id) => id,
            None => {
                assert(self.placement() =~= old(self).placement());
                return false;
            },
        };
        let ghost nodes = self.structure();
        let ghost config = self.limits();
        let ghost max_depth = self.config.max_depth as int;
        let ghost set_off = *self;
        proof {
            lemma_ids_positive(nodes, max_depth);
            assert forall|x: u64| within(leaf, x) implies x <= leaf by {
                lemma_within_order(leaf, x);
            }
        }
        match self.nodes.get_mut(leaf) {
            Some(node) => {
                node.remove_sample(sample_id, was_positive);
            },
            None => {},
        }
        assert(self.structure() =~= counted_out(nodes, config, leaf, leaf, sample_id, was_positive));
        let mut current: u64 = leaf;
        while current > ROOT
            invariant
                self.same_but_nodes(&set_off),
                self.same_setting(old(self)),
                self.limits() == config,
                self.states() == set_off.states(),
                self.wf_states(),
                self.placement() == set_off.placement(),
                within(leaf, current),
                self.structure() == counted_out(
                    nodes,
                    config,
                    leaf,
                    current,
                    sample_id,
                    was_positive,
                ),
            decreases current,
        {
            proof {
                lemma_count_out_step(nodes, config, leaf, current, sample_id, was_positive);
            }
            let up: u64 = parent(current);
            self.count_out(up, sample_id, was_positive);
            current = up;
        }
        let ghost less = counted_out(nodes, config, leaf, ROOT, sample_id, was_positive);
        assert(self.structure() =~= less);
        proof {
            assert(nodes.dom() =~= less.dom());
            lemma_same_splits_linked(nodes, less, max_depth, self.width());
        }
        match self.config.split_quality_threshold {
            Some(limit) => {
                assert(self.structure() =~= looked_over(less, limit, leaf, leaf)) by {
                    assert forall|x: u64| within(leaf, x) implies x <= leaf by {
                        lemma_within_order(leaf, x);
                    }
                }
                let mut current: u64 = leaf;
                while current > ROOT
                    invariant
                        self.wf(),
                        self.same_but_nodes(&set_off),
                        self.same_setting(old(self)),
                        self.states() == set_off.states(),
                        self.placement() == set_off.placement(),
                        within(leaf, current),
                        self.structure() == looked_over(less, limit, leaf, current),
                    decreases current,
                {
                    proof {
                        lemma_look_over_step(less, limit, leaf, current);
                    }
                    let up: u64 = parent(current);
                    self.look_over(up, limit);
                    current = up;
                }
                assert(self.structure() =~= looked_over(less, limit, leaf, ROOT));
            },
            None => {},
        }
        true
    }
}

/// Computes the impurity that a split leaves from the counts of its sides.
fn impurity_of_sides(nl: u32, pl: u32, nr: u32, pr: u32) -> (r: Fraction)
    requires
        nl + nr > 0,
    ensures
        r == sides_impurity(nl as int, pl as int, nr as int, pr as int),
{
    let ml: i128 = nl as i128 - pl as i128;
    let mr: i128 = nr as i128 - pr as i128;
    proof {
        lemma_sides_range(nl as int, pl as int, nr as int, pr as int);
    }
    let a: i128 = pl as i128 * ml;
    let b: i128 = pr as i128 * mr;
    if nl == 0 {
        assert(2 * b == 2 * pr * (nr - pr)) by (nonlinear_arith)
            requires
                b == pr * mr,
                mr == nr - pr,
        ;
        return Fraction { num: 2 * b, den: nr as u128 * nr as u128 };
    }
    if nr == 0 {
        assert(2 * a == 2 * pl * (nl - pl)) by (nonlinear_arith)
            requires
                a == pl * ml,
                ml == nl - pl,
        ;
        return Fraction { num: 2 * a, den: nl as u128 * nl as u128 };
    }
    let num: i128 = 2 * (a * nr as i128 + b * nl as i128);
    let den: u128 = (nl as u128 + nr as u128) * (nl as u128 * nr as u128);
    Fraction { num, den }
}

/// How large the numbers behind an impurity can get.
proof fn lemma_sides_range(nl: int, pl: int, nr: int, pr: int)
    requires
        0 <= nl <= u32::MAX,
        0 <= pl <= u32::MAX,
        0 <= nr <= u32::MAX,
        0 <= pr <= u32::MAX,
    ensures
        -0x1_0000_0000_0000_0000 < pl * (nl - pl) < 0x1_0000_0000_0000_0000,
        -0x1_0000_0000_0000_0000 < pr * (nr - pr) < 0x1_0000_0000_0000_0000,
        0 <= nl * nl < 0x1_0000_0000_0000_0000,
        0 <= nr * nr < 0x1_0000_0000_0000_0000,
        0 <= nl * nr < 0x1_0000_0000_0000_0000,
        -0x1_0000_0000_0000_0000_0000_0000 < (pl * (nl - pl)) * nr
            < 0x1_0000_0000_0000_0000_0000_0000,
        -0x1_0000_0000_0000_0000_0000_0000 < (pr * (nr - pr)) * nl
            < 0x1_0000_0000_0000_0000_0000_0000,
        0 <= (nl + nr) * (nl * nr) < 0x10_0000_0000_0000_0000_0000_0000,
{
    lemma_product_range(pl, nl - pl, 0x1_0000_0000, 0x1_0000_0000);
    lemma_product_range(pr, nr - pr, 0x1_0000_0000, 0x1_0000_0000);
    lemma_product_range(nl, nl, 0x1_0000_0000, 0x1_0000_0000);
    lemma_product_range(nr, nr, 0x1_0000_0000, 0x1_0000_0000);
    lemma_product_range(nl, nr, 0x1_0000_0000, 0x1_0000_0000);
    lemma_product_range(pl * (nl - pl), nr, 0x1_0000_0000_0000_0000, 0x1_0000_0000);
    lemma_product_range(pr * (nr - pr), nl, 0x1_0000_0000_0000_0000, 0x1_0000_0000);
    lemma_product_range(nl + nr, nl * nr, 0x2_0000_0000, 0x1_0000_0000_0000_0000);
}

/// How large a product can get.
proof fn lemma_product_range(a: int, b: int, x: int, y: int)
    requires
        -x < a < x,
        -y < b < y,
    ensures
        -(x * y) < a * b < x * y,
        a >= 0 && b >= 0 ==> a * b >= 0,
{
    assert(-(x * y) < a * b < x * y && (a >= 0 && b >= 0 ==> a * b >= 0)) by (nonlinear_arith)
        requires
            -x < a < x,
            -y < b < y,
    ;
}

} // verus!
