//! Putting off the work on a node until a row passes through it.

use super::collect::{
    all_wide, felled, lemma_lists_named, lists, named_below, relead, rows_of, states_made,
};
use super::grow::{
    best_found, lemma_drawn_splittable, lemma_drawn_suit, lemma_grown_linked, lemma_grown_suits,
    lemma_pick, lemma_suits_applies, pick, pick_refs, placed, same_outside, vacant, Plan,
};
use super::shape::{
    end_of, is_inner, lemma_end_path, lemma_linked_at, lemma_room, linked, narrow, reaches, vote,
    Nodes,
};
use super::DynFrsTree;
use crate::dataset::Dataset;
use crate::node::node_id::{
    depth, law_parent_of_child, left_child, lemma_within_children, lemma_within_order, level,
    right_child, within, MAX_PARENT, ROOT,
};
use crate::node::{LazyTag, Node, NodeView};
use crate::random::put_since;
use crate::sample::{
    count_plus, ids, lemma_rows, lemma_sides, plus, rows, side, splittable, Rows, Sample,
    SampleData,
};
use crate::scan::{is_side, partition_indices, picked};
use crate::split::Split;
use crate::split_stats::gini_impurity;
use crate::streaming::{DelayTag, StateView, P_COUNT};
use crate::table::{IdSet, IdTable};
use vstd::prelude::*;

verus! {

/// The largest number of samples that a node can count.
pub const MAX_SAMPLES: usize = 0xffff_ffff;

/// A list cut off at the largest number of samples that a node can count.
pub open spec fn capped(list: Seq<u64>) -> Seq<u64> {
    if list.len() <= MAX_SAMPLES {
        list
    } else {
        list.take(MAX_SAMPLES as int)
    }
}

/// The known ones of some samples, in order.
pub open spec fn found<S: Sample>(known: Map<u64, &S>, list: Seq<u64>) -> Seq<&S>
    decreases list.len(),
{
    if list.len() == 0 {
        Seq::empty()
    } else {
        let rest = found(known, list.drop_last());
        if known.contains_key(list.last()) {
            rest.push(known[list.last()])
        } else {
            rest
        }
    }
}

/// Whether every known sample is admitted by a plan.
pub open spec fn all_admitted<S: Sample>(plan: Plan, known: Map<u64, &S>) -> bool {
    forall|id: u64| #[trigger] known.contains_key(id) ==> plan.admits(known[id].data().values)
}

/// Whether every known sample is known by its own identifier.
pub open spec fn keyed<S: Sample>(known: Map<u64, &S>) -> bool {
    forall|id: u64| #[trigger] known.contains_key(id) ==> known[id].data().id == id
}

/// Whether every sample that a leaf names or a state lists is known.
pub open spec fn covered<S: Sample>(
    nodes: Nodes,
    states: Map<u64, StateView>,
    known: Map<u64, &S>,
) -> bool {
    &&& forall|id: u64, sid: u64|
        nodes.contains_key(id) && nodes[id] is Leaf && #[trigger] nodes[id]->sample_ids.contains(
            sid,
        ) ==> known.contains_key(sid)
    &&& forall|id: u64, i: int|
        states.contains_key(id) && 0 <= i < states[id].sample_ids.len() ==> known.contains_key(
            #[trigger] states[id].sample_ids[i],
        )
}

/// Whether the nodes, the placement and the states of two trees are the same.
pub open spec fn unchanged(a: DynFrsTree, b: DynFrsTree) -> bool {
    &&& a.structure() == b.structure()
    &&& a.placement() == b.placement()
    &&& a.states() == b.states()
}

/// Whether the part below a node has been grown anew from the samples that its leaves
/// name, as far as they are known. Without samples the part is gone; without known
/// samples the part stays, but leads nowhere.
pub open spec fn rebuilt<S: Sample>(
    before: DynFrsTree,
    after: DynFrsTree,
    plan: Plan,
    known: Map<u64, &S>,
    id: u64,
) -> bool {
    exists|list: Seq<u64>| #[trigger]
        lists(before.structure(), id, list) && rebuilt_from(before, after, plan, known, id, list)
}

/// Whether the part below a node has been grown anew from some samples.
pub open spec fn rebuilt_from<S: Sample>(
    before: DynFrsTree,
    after: DynFrsTree,
    plan: Plan,
    known: Map<u64, &S>,
    id: u64,
    list: Seq<u64>,
) -> bool {
    let refs = found(known, capped(list));
    let m = rows(refs);
    let cleared = before.placement().remove_keys(list.to_set());
    if list.len() == 0 {
        &&& after.structure() == felled(before.structure(), id)
        &&& after.placement() == before.placement()
        &&& after.states() == before.states()
    } else if refs.len() == 0 {
        &&& after.structure() == before.structure()
        &&& after.placement() == cleared
        &&& after.states() == before.states()
    } else {
        &&& same_outside(before.structure(), after.structure(), id)
        &&& plan.grown(after.structure(), m, id)
        &&& placed(cleared, after.placement(), after.structure(), ids(m), id)
        &&& if before.streams() {
            states_made(
                before.states(),
                after.states(),
                known,
                before.width(),
                after.structure(),
                id,
            )
        } else {
            after.states() == before.states()
        }
    }
}

/// Whether a state hangs, state by state, below that of a node.
pub open spec fn hangs(states: Map<u64, StateView>, id: u64, top: u64) -> bool
    decreases id,
{
    id == top || (id > top && states.contains_key(id) && hangs(states, id / 2, top))
}

/// Whether a node has become a leaf.
pub open spec fn leafed(
    before: DynFrsTree,
    after: DynFrsTree,
    id: u64,
    list: Seq<u64>,
    m: Rows,
) -> bool {
    &&& after.structure() == felled(before.structure(), id).insert(
        id,
        NodeView::Leaf {
            num_samples: m.len() as u32,
            num_plus: plus(m).len() as u32,
            sample_ids: list.to_set(),
        },
    )
    &&& after.placement() == relead(
        before.placement(),
        named_below(before.structure(), id),
        list.to_set(),
        id,
    )
    &&& after.states() == before.states().remove_keys(
        Set::new(|x: u64| hangs(before.states(), x, id)),
    )
}

/// The identifiers of samples, in order.
pub open spec fn ids_in_order<S: Sample>(samples: Seq<S>) -> Seq<u64> {
    Seq::new(samples.len(), |i: int| samples[i].data().id)
}

/// A child of a node whose samples have been divided anew: a leaf takes over its
/// samples, and an inner node has to be looked at.
pub open spec fn child_divided(nodes: Nodes, child: u64, list: Seq<u64>, samples: u32, plus: u32) -> Nodes {
    if !nodes.contains_key(child) {
        nodes
    } else {
        nodes.insert(
            child,
            match nodes[child] {
                NodeView::Internal { .. } => nodes[child].with_counts(samples, plus).with_tag(
                    LazyTag::Dirty,
                ),
                NodeView::Leaf { .. } => NodeView::Leaf {
                    num_samples: samples,
                    num_plus: plus,
                    sample_ids: list.to_set(),
                },
            },
        )
    }
}

/// The placement after the samples of a node have been divided anew among its children.
pub open spec fn child_placed(
    nodes: Nodes,
    leaves: Map<u64, u64>,
    child: u64,
    list: Seq<u64>,
) -> Map<u64, u64> {
    if nodes.contains_key(child) && nodes[child] is Leaf {
        relead(leaves, nodes[child]->sample_ids, list.to_set(), child)
    } else {
        leaves
    }
}

/// Whether the state of a node has been made anew for some samples.
pub open spec fn state_divided<S: Sample>(
    before: StateView,
    after: StateView,
    known: Map<u64, &S>,
    width: u8,
    list: Seq<u64>,
) -> bool {
    &&& after.attr_stats.redrawn(
        before.attr_stats,
        rows_of(known, width, list),
        P_COUNT as int,
    )
    &&& after == (StateView {
        attr_stats: after.attr_stats,
        sample_ids: list,
        delay: DelayTag::NoDelay,
        ..before
    })
}

/// Whether a node has got another split and its samples have been divided among its
/// children.
pub open spec fn divided<S: Sample>(
    before: DynFrsTree,
    after: DynFrsTree,
    known: Map<u64, &S>,
    id: u64,
    refs: Seq<&S>,
    split: Split,
) -> bool {
    exists|lefts: Seq<usize>, rights: Seq<usize>|
        {
            &&& is_side(refs, refs.len() as int, split, true, lefts)
            &&& is_side(refs, refs.len() as int, split, false, rights)
            &&& #[trigger] divided_at(before, after, known, id, refs, split, lefts, rights)
        }
}

/// Whether a node has got another split and its samples have been divided among its
/// children, where the places of those that go left and right are given.
pub open spec fn divided_at<S: Sample>(
    before: DynFrsTree,
    after: DynFrsTree,
    known: Map<u64, &S>,
    id: u64,
    refs: Seq<&S>,
    split: Split,
    lefts: Seq<usize>,
    rights: Seq<usize>,
) -> bool {
    let m = rows(refs);
    let l = (2 * id) as u64;
    let r = (2 * id + 1) as u64;
    let left_ids = ids_in_order(picked(refs, lefts));
    let right_ids = ids_in_order(picked(refs, rights));
    let left = side(m, split, true);
    let right = side(m, split, false);
    let asked = before.structure().insert(
        id,
        NodeView::Internal {
            split,
            lazy_tag: LazyTag::Clean,
            num_samples: m.len() as u32,
            num_plus: plus(m).len() as u32,
            created_at: before.structure()[id]->created_at,
            split_gini: before.structure()[id]->split_gini,
        },
    );
    let one = child_divided(asked, l, left_ids, left.len() as u32, plus(left).len() as u32);
    &&& after.structure() == child_divided(
        one,
        r,
        right_ids,
        right.len() as u32,
        plus(right).len() as u32,
    )
    &&& after.placement() == child_placed(
        one,
        child_placed(asked, before.placement(), l, left_ids),
        r,
        right_ids,
    )
    &&& after.states().dom() == before.states().dom()
    &&& forall|x: u64| #[trigger]
        before.states().contains_key(x) ==> if x == l {
            state_divided(
                before.states()[x],
                after.states()[x],
                known,
                before.width(),
                left_ids,
            )
        } else if x == r {
            state_divided(
                before.states()[x],
                after.states()[x],
                known,
                before.width(),
                right_ids,
            )
        } else {
            after.states()[x] == before.states()[x]
        }
}

/// Whether the work on a node has been done. A leaf and a node that is up to date stay
/// as they are. A node whose state lists no known sample is grown anew with all that
/// lies below. Any other node becomes a leaf if it must not be split; it stays as it is,
/// and counts as up to date, if some draw gives no split that helps; and it gets the
/// best split of some draw otherwise.
pub open spec fn resolved<S: Sample>(
    before: DynFrsTree,
    after: DynFrsTree,
    plan: Plan,
    known: Map<u64, &S>,
    id: u64,
) -> bool {
    let nodes = before.structure();
    let states = before.states();
    let list = states[id].sample_ids;
    let refs = found(known, capped(list));
    let m = rows(refs);
    if !(nodes.contains_key(id) && nodes[id].pending()) {
        unchanged(before, after)
    } else if !states.contains_key(id) || refs.len() == 0 {
        rebuilt(before, after, plan, known, id)
    } else if plan.must_stop(m, level(id) as int) {
        leafed(before, after, id, list, m)
    } else {
        exists|splits: Seq<Split>| #[trigger]
            plan.drawn(m, splits) && plan.asks_splits(
                m,
                splits,
                put_since(before.asked(), after.asked()),
            ) && match pick(m, splits) {
                Some(split) => divided(before, after, known, id, refs, split),
                None => {
                    &&& after.structure() == nodes.insert(id, nodes[id].with_tag(LazyTag::Clean))
                    &&& after.placement() == before.placement()
                    &&& after.states() == states
                },
            }
    }
}

/// The first node on the way of a row that has to be looked at.
pub open spec fn first_pending(nodes: Nodes, values: Seq<i64>, id: u64) -> Option<u64>
    decreases u64::MAX - id,
{
    if is_inner(nodes, id) && 1 <= id <= MAX_PARENT {
        if nodes[id].pending() {
            Some(id)
        } else if nodes[id]->split.routes_left(values) {
            first_pending(nodes, values, (2 * id) as u64)
        } else {
            first_pending(nodes, values, (2 * id + 1) as u64)
        }
    } else {
        None
    }
}

/// Looks up the known ones of some samples.
fn find_refs<'a, S: Sample>(sample_map: &IdTable<&'a S>, list: &Vec<u64>) -> (r: Vec<&'a S>)
    ensures
        r@ == found(sample_map@, capped(list@)),
        r@.len() <= MAX_SAMPLES,
{
    let mut refs: Vec<&'a S> = Vec::new();
    let n: usize = if list.len() <= MAX_SAMPLES {
        list.len()
    } else {
        MAX_SAMPLES
    };
    let mut i: usize = 0;
    assert(list@.take(0) =~= Seq::<u64>::empty());
    while i < n
        invariant
            i <= n <= list@.len(),
            n <= MAX_SAMPLES,
            refs@ == found(sample_map@, list@.take(i as int)),
            refs@.len() <= i,
        decreases n - i,
    {
        assert(list@.take(i as int + 1).drop_last() =~= list@.take(i as int));
        match sample_map.get(list[i]) {
            Some(sample) => {
                refs.push(*sample);
            },
            None => {},
        }
        i = i + 1;
    }
    assert(capped(list@) =~= list@.take(i as int));
    refs
}

/// Known samples are found among the known ones.
pub proof fn lemma_found<S: Sample>(known: Map<u64, &S>, list: Seq<u64>)
    ensures
        found(known, list).len() <= list.len(),
        forall|i: int|
            0 <= i < found(known, list).len() ==> exists|id: u64| #[trigger]
                known.contains_key(id) && known[id] == #[trigger] found(known, list)[i]
                    && list.contains(id),
        (exists|i: int| 0 <= i < list.len() && known.contains_key(#[trigger] list[i])) ==> found(
            known,
            list,
        ).len() > 0,
    decreases list.len(),
{
    if list.len() > 0 {
        let front = list.drop_last();
        lemma_found(known, front);
        let all = found(known, list);
        assert forall|i: int| 0 <= i < all.len() implies exists|id: u64| #[trigger]
            known.contains_key(id) && known[id] == #[trigger] all[i] && list.contains(id) by {
            if i < found(known, front).len() {
                assert(all[i] == found(known, front)[i]);
                let id = choose|id: u64| #[trigger]
                    known.contains_key(id) && known[id] == found(known, front)[i]
                        && front.contains(id);
                let j = front.index_of(id);
                assert(list[j] == id);
                assert(known.contains_key(id) && list.contains(id));
            } else {
                assert(list[list.len() - 1] == list.last());
                assert(known.contains_key(list.last()) && list.contains(list.last()));
            }
        }
        if exists|i: int| 0 <= i < list.len() && known.contains_key(#[trigger] list[i]) {
            let i = choose|i: int| 0 <= i < list.len() && known.contains_key(#[trigger] list[i]);
            if i < front.len() {
                assert(front[i] == list[i]);
            }
        }
    }
}

/// What a plan admits of the known samples it admits of the found ones.
proof fn lemma_found_admitted<S: Sample>(plan: Plan, known: Map<u64, &S>, list: Seq<u64>)
    requires
        all_admitted(plan, known),
    ensures
        plan.admits_all(rows(found(known, list))),
{
    let refs = found(known, list);
    lemma_found(known, list);
    lemma_rows(refs);
    assert forall|d: SampleData| #[trigger] rows(refs).count(d) > 0 implies plan.admits(
        d.values,
    ) by {
        let i = choose|i: int| 0 <= i < refs.len() && #[trigger] refs[i].data() == d;
        let id = choose|id: u64| #[trigger] known.contains_key(id) && known[id] == refs[i] && list.contains(id);
        assert(known[id].data() == refs[i].data());
    }
}

impl DynFrsTree {
    /// Takes some samples out of the placement.
    fn unplace(&mut self, list: &Vec<u64>)
        ensures
            final(self).index == old(self).index,
            final(self).rng == old(self).rng,
            final(self).log == old(self).log,
            final(self).nodes == old(self).nodes,
            final(self).config == old(self).config,
            final(self).num_attributes == old(self).num_attributes,
            final(self).streaming_states == old(self).streaming_states,
            final(self).streaming_enabled == old(self).streaming_enabled,
            final(self).placement() == old(self).placement().remove_keys(list@.to_set()),
    {
        let mut i: usize = 0;
        assert(self.placement() =~= old(self).placement().remove_keys(list@.take(0).to_set()));
        while i < list.len()
            invariant
                i <= list@.len(),
                self.index == old(self).index,
                self.rng == old(self).rng,
                self.log == old(self).log,
                self.nodes == old(self).nodes,
                self.config == old(self).config,
                self.num_attributes == old(self).num_attributes,
                self.streaming_states == old(self).streaming_states,
                self.streaming_enabled == old(self).streaming_enabled,
                self.placement() == old(self).placement().remove_keys(
                    list@.take(i as int).to_set(),
                ),
            decreases list@.len() - i,
        {
            let id: u64 = list[i];
            self.sample_leaf_map.remove(id);
            proof {
                lemma_set_grows(list@, i as int);
                assert(self.placement() =~= old(self).placement().remove_keys(
                    list@.take(i as int + 1).to_set(),
                ));
            }
            i = i + 1;
        }
        assert(list@.take(i as int) =~= list@);
    }

    /// Leads some samples to a node.
    fn place(&mut self, list: &Vec<u64>, node_id: u64)
        ensures
            final(self).index == old(self).index,
            final(self).rng == old(self).rng,
            final(self).log == old(self).log,
            final(self).nodes == old(self).nodes,
            final(self).config == old(self).config,
            final(self).num_attributes == old(self).num_attributes,
            final(self).streaming_states == old(self).streaming_states,
            final(self).streaming_enabled == old(self).streaming_enabled,
            final(self).placement() == relead(
                old(self).placement(),
                Set::empty(),
                list@.to_set(),
                node_id,
            ),
    {
        let mut i: usize = 0;
        assert(self.placement() =~= relead(
            old(self).placement(),
            Set::empty(),
            list@.take(0).to_set(),
            node_id,
        ));
        while i < list.len()
            invariant
                i <= list@.len(),
                self.index == old(self).index,
                self.rng == old(self).rng,
                self.log == old(self).log,
                self.nodes == old(self).nodes,
                self.config == old(self).config,
                self.num_attributes == old(self).num_attributes,
                self.streaming_states == old(self).streaming_states,
                self.streaming_enabled == old(self).streaming_enabled,
                self.placement() == relead(
                    old(self).placement(),
                    Set::empty(),
                    list@.take(i as int).to_set(),
                    node_id,
                ),
            decreases list@.len() - i,
        {
            let id: u64 = list[i];
            self.sample_leaf_map.insert(id, node_id);
            proof {
                lemma_set_grows(list@, i as int);
                assert(self.placement() =~= relead(
                    old(self).placement(),
                    Set::empty(),
                    list@.take(i as int + 1).to_set(),
                    node_id,
                ));
            }
            i = i + 1;
        }
        assert(list@.take(i as int) =~= list@);
    }

    /// Takes out a node and what lies below it.
    fn fell(&mut self, node_id: u64)
        requires
            old(self).wf(),
            node_id >= 1,
        ensures
            final(self).same_but_nodes(old(self)),
            final(self).structure() == felled(old(self).structure(), node_id),
    {
        self.remove_subtree_batch(node_id);
        let ghost trimmed = *self;
        self.nodes.remove(node_id);
        assert(within(node_id, node_id));
        assert(self.structure() =~= trimmed.structure().remove(node_id));
        assert(self.structure() =~= felled(old(self).structure(), node_id));
    }

    /// Grows the part below a node anew from the samples that its leaves name.
    pub(super) fn rebuild_subtree_optimized<D: Dataset, S: Sample>(
        &mut self,
        dataset: &D,
        sample_map: &IdTable<&S>,
        node_id: u64,
        current_position: u64,
    )
        requires
            old(self).wf(),
            old(self).structure().contains_key(node_id),
            old(self).width() <= dataset.attribute_types().len(),
            all_admitted(old(self).plan(dataset.attribute_types()), sample_map@),
            old(self).plan(dataset.attribute_types()).suits_all(old(self).structure()),
        ensures
            final(self).wf(),
            final(self).same_setting(old(self)),
            final(self).plan(dataset.attribute_types()).suits_all(final(self).structure()),
            rebuilt(
                *old(self),
                *final(self),
                old(self).plan_at(dataset.attribute_types(), current_position),
                sample_map@,
                node_id,
            ),
    {
        let ghost plan = self.plan_at(dataset.attribute_types(), current_position);
        let ghost nodes = self.structure();
        let ghost known = sample_map@;
        let ghost max_depth = self.config.max_depth as int;
        proof {
            lemma_linked_at(nodes, max_depth, node_id);
        }
        let sample_ids = self.collect_samples_from_subtree(node_id);
        if sample_ids.len() == 0 {
            self.fell(node_id);
            proof {
                lemma_felled(nodes, max_depth, self.width(), plan, node_id);
                assert(rebuilt_from(*old(self), *self, plan, known, node_id, sample_ids@));
            }
            return;
        }
        self.unplace(&sample_ids);
        let refs = find_refs(sample_map, &sample_ids);
        if refs.len() == 0 {
            assert(rebuilt_from(*old(self), *self, plan, known, node_id, sample_ids@));
            return;
        }
        let ghost cleared = *self;
        self.fell(node_id);
        let ghost bare = *self;
        let num_plus: u32 = count_plus(refs.as_slice()) as u32;
        let impurity = gini_impurity(num_plus, refs.len() as u32);
        let steps: u32 = depth(node_id);
        proof {
            lemma_felled(nodes, max_depth, self.width(), plan, node_id);
            lemma_found_admitted(plan, known, capped(sample_ids@));
            assert(vacant(bare.structure(), node_id));
        }
        self.build_node_from_refs(
            dataset,
            refs.as_slice(),
            node_id,
            steps as usize,
            impurity,
            current_position,
        );
        let ghost m = rows(refs@);
        proof {
            assert(same_outside(nodes, self.structure(), node_id));
            assert(same_outside(bare.structure(), self.structure(), node_id));
            assert(node_id != ROOT ==> is_inner(bare.structure(), node_id / 2)) by {
                if node_id != ROOT {
                    assert(!within(node_id / 2, node_id)) by {
                        if within(node_id / 2, node_id) {
                            lemma_within_order(node_id / 2, node_id);
                        }
                    }
                }
            }
            lemma_grown_linked(plan, bare.structure(), self.structure(), m, node_id);
            lemma_grown_suits(plan, self.structure(), m, node_id);
            assert forall|id: u64| #[trigger] is_inner(self.structure(), id) implies plan.suits(
                self.structure()[id]->split,
            ) by {
                if !within(id, node_id) {
                    assert(is_inner(nodes, id));
                }
            }
            assert(all_wide(known, self.width())) by {
                assert forall|id: u64| #[trigger] known.contains_key(
                    id,
                ) implies known[id].data().values.len() >= self.width() by {
                    assert(plan.admits(known[id].data().values));
                }
            }
        }
        let ghost regrown = *self;
        if self.streaming_enabled {
            self.init_streaming_states_recursive(node_id, steps, sample_map);
        }
        assert(rebuilt_from(*old(self), *self, plan, known, node_id, sample_ids@));
    }

    /// Lists the states that hang below that of a node.
    fn collect_states(&self, node_id: u64, result: &mut Vec<u64>)
        requires
            node_id >= 1,
        ensures
            forall|id: u64| #[trigger]
                final(result)@.contains(id) <==> old(result)@.contains(id) || (id != node_id
                    && hangs(self.states(), id, node_id)),
        decreases u64::MAX - node_id,
    {
        let ghost states = self.states();
        let ghost before = result@;
        if node_id > MAX_PARENT {
            proof {
                assert forall|id: u64| id != node_id implies !hangs(states, id, node_id) by {
                    lemma_hangs_order(states, id / 2, node_id);
                }
            }
            return;
        }
        let left: u64 = left_child(node_id);
        let right: u64 = right_child(node_id);
        if self.streaming_states.contains_key(left) {
            result.push(left);
            proof {
                lemma_contains_push(before, left);
            }
            self.collect_states(left, result);
        }
        let ghost middle = result@;
        assert forall|id: u64| middle.contains(id) == (before.contains(id) || (
        states.contains_key(left) && hangs(states, id, left))) by {
            assert(hangs(states, left, left));
        }
        if self.streaming_states.contains_key(right) {
            result.push(right);
            proof {
                lemma_contains_push(middle, right);
            }
            self.collect_states(right, result);
        }
        proof {
            let all = result@;
            assert forall|id: u64| #[trigger] all.contains(id) <==> before.contains(id) || (id
                != node_id && hangs(states, id, node_id)) by {
                assert(all.contains(id) == (middle.contains(id) || (states.contains_key(right)
                    && hangs(states, id, right)))) by {
                    assert(hangs(states, right, right));
                }
                lemma_hangs_children(states, id, node_id);
            }
        }
    }

    /// Takes out the state of a node and those that hang below it.
    fn clear_states(&mut self, node_id: u64)
        requires
            old(self).wf_states(),
            node_id >= 1,
        ensures
            final(self).same_but_states(old(self)),
            final(self).wf_states(),
            final(self).states() == old(self).states().remove_keys(
                Set::new(|x: u64| hangs(old(self).states(), x, node_id)),
            ),
    {
        let mut to_remove: Vec<u64> = Vec::new();
        to_remove.push(node_id);
        proof {
            lemma_contains_push(Seq::<u64>::empty(), node_id);
        }
        self.collect_states(node_id, &mut to_remove);
        let ghost all = to_remove@;
        let mut i: usize = 0;
        assert(self.streaming_states@ =~= old(self).streaming_states@.remove_keys(
            all.take(0).to_set(),
        ));
        while i < to_remove.len()
            invariant
                i <= to_remove@.len(),
                all == to_remove@,
                self.same_but_states(old(self)),
                self.streaming_states@ == old(self).streaming_states@.remove_keys(
                    all.take(i as int).to_set(),
                ),
            decreases to_remove@.len() - i,
        {
            let id: u64 = to_remove[i];
            self.streaming_states.remove(id);
            proof {
                lemma_set_grows(all, i as int);
                assert(self.streaming_states@ =~= old(self).streaming_states@.remove_keys(
                    all.take(i as int + 1).to_set(),
                ));
            }
            i = i + 1;
        }
        proof {
            assert(all.take(i as int) =~= all);
            let gone = Set::new(|x: u64| hangs(old(self).states(), x, node_id));
            assert forall|x: u64| all.to_set().contains(x) == gone.contains(x) by {
                assert(all.contains(x) <==> x == node_id || (x != node_id && hangs(
                    old(self).states(),
                    x,
                    node_id,
                )));
            }
            assert(self.states() =~= old(self).states().remove_keys(gone));
            assert forall|id: u64| #[trigger]
                self.streaming_states@.contains_key(id) implies self.streaming_states@[id].wf() by {
                assert(old(self).streaming_states@.contains_key(id));
            }
        }
    }

    /// Makes an inner node a leaf with some samples.
    fn make_leaf(&mut self, node_id: u64, list: &Vec<u64>, num_samples: u32, num_plus: u32, Ghost(
        m,
    ): Ghost<Rows>, Ghost(plan): Ghost<Plan>)
        requires
            old(self).wf(),
            old(self).structure().contains_key(node_id),
            plan.suits_all(old(self).structure()),
            num_samples == m.len(),
            num_plus == plus(m).len(),
        ensures
            final(self).wf(),
            final(self).same_setting(old(self)),
            plan.suits_all(final(self).structure()),
            leafed(*old(self), *final(self), node_id, list@, m),
    {
        let ghost nodes = self.structure();
        let ghost max_depth = self.config.max_depth as int;
        proof {
            lemma_linked_at(nodes, max_depth, node_id);
        }
        let descendants = self.collect_samples_from_subtree(node_id);
        proof {
            lemma_lists_named(nodes, max_depth, node_id, descendants@);
        }
        self.unplace(&descendants);
        self.fell(node_id);
        self.clear_states(node_id);
        self.place(list, node_id);
        let sample_ids = set_of(list);
        let ghost bare = self.structure();
        let leaf = Node::leaf_with_samples(num_samples, num_plus, sample_ids);
        self.nodes.insert(node_id, leaf);
        proof {
            lemma_felled(nodes, max_depth, self.width(), plan, node_id);
            assert(self.structure() =~= felled(nodes, node_id).insert(node_id, leaf@));
            assert(self.placement() =~= relead(
                old(self).placement(),
                named_below(nodes, node_id),
                list@.to_set(),
                node_id,
            ));
            lemma_leaf_linked(nodes, bare, self.structure(), max_depth, self.width(), plan, node_id);
        }
    }

    /// Divides the samples of a node anew: makes the state of a child for some samples.
    fn redraw_state<S: Sample>(
        &mut self,
        child: u64,
        list: &Vec<u64>,
        sample_map: &IdTable<&S>,
    )
        requires
            old(self).wf_states(),
            all_wide(sample_map@, old(self).width()),
        ensures
            final(self).same_but_states(old(self)),
            final(self).wf_states(),
            final(self).states().dom() == old(self).states().dom(),
            forall|x: u64| #[trigger]
                old(self).states().contains_key(x) ==> if x == child {
                    state_divided(
                        old(self).states()[x],
                        final(self).states()[x],
                        sample_map@,
                        old(self).width(),
                        list@,
                    )
                } else {
                    final(self).states()[x] == old(self).states()[x]
                },
    {
        let rows = self.read_rows(sample_map, list);
        match self.streaming_states.get_mut(child) {
            Some(state) => {
                state.sample_ids = copy_list(list);
                state.attr_stats.init_from_batch(&rows, P_COUNT);
                state.delay = DelayTag::NoDelay;
            },
            None => {},
        }
        proof {
            assert(self.streaming_states@.dom() =~= old(self).streaming_states@.dom());
            assert(self.states().dom() =~= old(self).states().dom());
            assert forall|id: u64| #[trigger]
                self.streaming_states@.contains_key(id) implies self.streaming_states@[id].wf() by {
                assert(old(self).streaming_states@.contains_key(id));
            }
        }
    }

    /// Gives a child of a node its new samples: a leaf takes them over, and an inner node
    /// has to be looked at.
    fn update_child_after_resplit(
        &mut self,
        child_id: u64,
        new_sample_ids: &Vec<u64>,
        num_samples: u32,
        num_plus: u32,
    )
        ensures
            final(self).index == old(self).index,
            final(self).rng == old(self).rng,
            final(self).log == old(self).log,
            final(self).config == old(self).config,
            final(self).num_attributes == old(self).num_attributes,
            final(self).streaming_states == old(self).streaming_states,
            final(self).streaming_enabled == old(self).streaming_enabled,
            final(self).structure() == child_divided(
                old(self).structure(),
                child_id,
                new_sample_ids@,
                num_samples,
                num_plus,
            ),
            final(self).placement() == child_placed(
                old(self).structure(),
                old(self).placement(),
                child_id,
                new_sample_ids@,
            ),
    {
        let ghost nodes = self.structure();
        let former: Option<Vec<u64>> = match self.nodes.get(child_id) {
            Some(node) => match node {
                Node::Leaf { sample_ids, .. } => Some(list_set(sample_ids)),
                Node::Internal { .. } => None,
            },
            None => {
                return;
            },
        };
        match former {
            Some(old_ids) => {
                self.unplace(&old_ids);
                let sample_ids = set_of(new_sample_ids);
                let leaf = Node::leaf_with_samples(num_samples, num_plus, sample_ids);
                self.nodes.insert(child_id, leaf);
                self.place(new_sample_ids, child_id);
                proof {
                    assert(self.structure() =~= nodes.insert(child_id, leaf@));
                    assert(self.placement() =~= relead(
                        old(self).placement(),
                        old_ids@.to_set(),
                        new_sample_ids@.to_set(),
                        child_id,
                    ));
                }
            },
            None => {
                match self.nodes.get_mut(child_id) {
                    Some(node) => {
                        match node {
                            Node::Internal { num_samples: ns, num_plus: np, lazy_tag, .. } => {
                                *ns = num_samples;
                                *np = num_plus;
                                *lazy_tag = LazyTag::Dirty;
                            },
                            Node::Leaf { .. } => {},
                        }
                    },
                    None => {},
                }
                assert(self.structure() =~= child_divided(
                    nodes,
                    child_id,
                    new_sample_ids@,
                    num_samples,
                    num_plus,
                ));
            },
        }
    }

    /// Does the work that has been put off at a node. Where there is no node, at a leaf, and
    /// at a node that is up to date, nothing happens.
    pub fn lazy_resolve_this_node<D: Dataset, S: Sample>(
        &mut self,
        dataset: &D,
        sample_map: &IdTable<&S>,
        node_id: u64,
    )
        requires
            old(self).wf(),
            old(self).width() <= dataset.attribute_types().len(),
            all_admitted(old(self).plan(dataset.attribute_types()), sample_map@),
            old(self).plan(dataset.attribute_types()).suits_all(old(self).structure()),
        ensures
            final(self).wf(),
            final(self).same_setting(old(self)),
            final(self).plan(dataset.attribute_types()).suits_all(final(self).structure()),
            resolved(
                *old(self),
                *final(self),
                old(self).plan(dataset.attribute_types()),
                sample_map@,
                node_id,
            ),
            !(old(self).structure().contains_key(node_id)
                && old(self).structure()[node_id].pending()) ==> unchanged(
                *old(self),
                *final(self),
            ),
    {
        let ghost plan = self.plan(dataset.attribute_types());
        let ghost known = sample_map@;
        let ghost nodes = self.structure();
        let needs_resolve = match self.nodes.get(node_id) {
            Some(node) => node.needs_rebuild(),
            None => false,
        };
        if !needs_resolve {
            return;
        }
        proof {
            assert(nodes.contains_key(node_id) && nodes[node_id].pending());
            lemma_linked_at(nodes, self.config.max_depth as int, node_id);
        }
        let sample_ids: Vec<u64> = match self.streaming_states.get(node_id) {
            Some(state) => copy_list(&state.sample_ids),
            None => {
                self.rebuild_subtree_optimized(dataset, sample_map, node_id, 0);
                return;
            },
        };
        let refs = find_refs(sample_map, &sample_ids);
        if refs.len() == 0 {
            self.rebuild_subtree_optimized(dataset, sample_map, node_id, 0);
            return;
        }
        let ghost m = rows(refs@);
        proof {
            lemma_rows(refs@);
            lemma_found_admitted(plan, known, capped(sample_ids@));
        }
        let num_samples: u32 = refs.len() as u32;
        let num_plus: u32 = count_plus(refs.as_slice()) as u32;
        let steps: usize = depth(node_id) as usize;
        let should_be_leaf = steps >= self.config.max_depth || refs.len()
            < self.config.min_samples_split || num_plus == 0 || num_plus == num_samples;
        if should_be_leaf {
            self.make_leaf(node_id, &sample_ids, num_samples, num_plus, Ghost(m), Ghost(plan));
            return;
        }
        let impurity = gini_impurity(num_plus, num_samples);
        let best_split = self.find_best_split_refs(dataset, refs.as_slice(), impurity);
        let ghost asked = put_since(old(self).asked(), self.asked());
        let ghost splits = choose|splits: Seq<Split>| #[trigger]
            plan.drawn(m, splits) && best_found(m, splits, best_split) && plan.asks_splits(
                m,
                splits,
                asked,
            );
        match best_split {
            Some((split, _)) => {
                proof {
                    lemma_drawn_splittable(plan, m, splits, refs@);
                    lemma_pick(m, splits, splits.len() as int);
                    lemma_drawn_suit(plan, m, splits, split);
                }
                let ghost drawn = *self;
                self.resplit(
                    sample_map,
                    node_id,
                    &refs,
                    split,
                    num_samples,
                    num_plus,
                    Ghost(plan),
                );
                proof {
                    let (lefts, rights) = choose|lefts: Seq<usize>, rights: Seq<usize>|
                        {
                            &&& is_side(refs@, refs@.len() as int, split, true, lefts)
                            &&& is_side(refs@, refs@.len() as int, split, false, rights)
                            &&& #[trigger] divided_at(
                                drawn,
                                *self,
                                known,
                                node_id,
                                refs@,
                                split,
                                lefts,
                                rights,
                            )
                        };
                    assert(divided_at(
                        *old(self),
                        *self,
                        known,
                        node_id,
                        refs@,
                        split,
                        lefts,
                        rights,
                    ));
                }
            },
            None => {
                match self.nodes.get_mut(node_id) {
                    Some(node) => {
                        node.set_lazy_tag(LazyTag::Clean);
                    },
                    None => {},
                }
                proof {
                    assert(self.structure() =~= nodes.insert(
                        node_id,
                        nodes[node_id].with_tag(LazyTag::Clean),
                    ));
                    assert(nodes.dom() =~= self.structure().dom());
                    lemma_same_kinds(
                        nodes,
                        self.structure(),
                        self.config.max_depth as int,
                        self.width(),
                        plan,
                    );
                }
            },
        }
    }

    /// Gives a node another split, and divides its samples among its children.
    fn resplit<S: Sample>(
        &mut self,
        sample_map: &IdTable<&S>,
        node_id: u64,
        refs: &Vec<&S>,
        split: Split,
        num_samples: u32,
        num_plus: u32,
        Ghost(plan): Ghost<Plan>,
    )
        requires
            old(self).wf(),
            is_inner(old(self).structure(), node_id),
            plan.width == old(self).width(),
            plan.suits_all(old(self).structure()),
            plan.suits(split),
            all_admitted(plan, sample_map@),
            splittable(rows(refs@), split),
            num_samples == rows(refs@).len(),
            num_plus == plus(rows(refs@)).len(),
        ensures
            final(self).wf(),
            final(self).same_setting(old(self)),
            plan.suits_all(final(self).structure()),
            divided(*old(self), *final(self), sample_map@, node_id, refs@, split),
            final(self).log == old(self).log,
    {
        let ghost m = rows(refs@);
        let ghost nodes = self.structure();
        let ghost known = sample_map@;
        let (lefts, rights) = partition_indices(refs.as_slice(), &split);
        let left_refs = pick_refs(refs.as_slice(), &lefts);
        let right_refs = pick_refs(refs.as_slice(), &rights);
        let left_ids = ids_of(&left_refs);
        let right_ids = ids_of(&right_refs);
        proof {
            lemma_rows(refs@);
            lemma_rows(left_refs@);
            lemma_rows(right_refs@);
            lemma_sides(m, split);
            lemma_room(nodes, self.config.max_depth as int);
            law_parent_of_child(node_id);
            assert(all_wide(known, self.width())) by {
                assert forall|id: u64| #[trigger] known.contains_key(
                    id,
                ) implies known[id].data().values.len() >= self.width() by {
                    assert(plan.admits(known[id].data().values));
                }
            }
        }
        let left_count: u32 = left_refs.len() as u32;
        let left_plus: u32 = count_plus(left_refs.as_slice()) as u32;
        let right_count: u32 = right_refs.len() as u32;
        let right_plus: u32 = count_plus(right_refs.as_slice()) as u32;
        match self.nodes.get_mut(node_id) {
            Some(node) => {
                match node {
                    Node::Internal { split: s, lazy_tag, num_samples: ns, num_plus: np, .. } => {
                        *s = split;
                        *lazy_tag = LazyTag::Clean;
                        *ns = num_samples;
                        *np = num_plus;
                    },
                    Node::Leaf { .. } => {},
                }
            },
            None => {},
        }
        let ghost asked = nodes.insert(
            node_id,
            NodeView::Internal {
                split,
                lazy_tag: LazyTag::Clean,
                num_samples,
                num_plus,
                created_at: nodes[node_id]->created_at,
                split_gini: nodes[node_id]->split_gini,
            },
        );
        assert(self.structure() =~= asked);
        let left_id: u64 = left_child(node_id);
        let right_id: u64 = right_child(node_id);
        let ghost s0 = self.states();
        self.redraw_state(left_id, &left_ids, sample_map);
        let ghost s1 = self.states();
        self.redraw_state(right_id, &right_ids, sample_map);
        let ghost s2 = self.states();
        self.update_child_after_resplit(left_id, &left_ids, left_count, left_plus);
        self.update_child_after_resplit(right_id, &right_ids, right_count, right_plus);
        proof {
            assert(s0 == old(self).states());
            assert(s2.dom() =~= s0.dom());
            assert forall|x: u64| #[trigger] s0.contains_key(x) implies if x == left_id {
                state_divided(s0[x], s2[x], known, old(self).width(), left_ids@)
            } else if x == right_id {
                state_divided(s0[x], s2[x], known, old(self).width(), right_ids@)
            } else {
                s2[x] == s0[x]
            } by {
                assert(s1.contains_key(x));
            }
            assert(divided_at(
                *old(self),
                *self,
                known,
                node_id,
                refs@,
                split,
                lefts@,
                rights@,
            ));
            assert(nodes.dom() =~= self.structure().dom());
            lemma_same_kinds(
                nodes,
                self.structure(),
                self.config.max_depth as int,
                self.width(),
                plan,
            );
        }
    }

    /// Predicts the class of a row, and does the work that has been put off at the nodes
    /// on its way. The prediction is that of the tree as the work leaves it. Nodes
    /// outside the part below the first node that had to be worked on stay as they are;
    /// if there was none, so does the whole tree. If every sample of the tree is known,
    /// no work is left on the way of the row.
    pub fn predict_with_lazy_resolve<D: Dataset, S: Sample, Q: Sample>(
        &mut self,
        dataset: &D,
        sample_map: &IdTable<&S>,
        query: &Q,
    ) -> (r: bool)
        requires
            old(self).wf(),
            old(self).width() <= dataset.attribute_types().len(),
            all_admitted(old(self).plan(dataset.attribute_types()), sample_map@),
            old(self).plan(dataset.attribute_types()).suits_all(old(self).structure()),
            old(self).plan(dataset.attribute_types()).admits(query.data().values),
        ensures
            final(self).wf(),
            final(self).same_setting(old(self)),
            old(self).plan(dataset.attribute_types()).suits_all(final(self).structure()),
            answered(
                *old(self),
                *final(self),
                old(self).plan(dataset.attribute_types()),
                sample_map@,
                query.data().values,
                r,
            ),
    {
        let ghost plan = self.plan(dataset.attribute_types());
        let ghost known = sample_map@;
        let ghost values = query.data().values;
        let ghost start = *self;
        let ghost mut steps: Seq<DynFrsTree> = seq![*self];
        let ghost mut path: Seq<u64> = Seq::empty();
        let ghost mut met = false;
        let mut id: u64 = ROOT;
        loop
            invariant
                self.wf(),
                self.same_setting(&start),
                plan == start.plan(dataset.attribute_types()),
                start == *old(self),
                plan.width <= plan.types.len(),
                known == sample_map@,
                values == query.data().values,
                all_admitted(plan, known),
                plan.suits_all(self.structure()),
                plan.admits(values),
                id >= 1,
                progress(start, *self, plan, known, values, id, steps, path, met),
            decreases u64::MAX - id,
        {
            let ghost before = *self;
            let next = self.resolve_and_route(dataset, sample_map, query, id);
            let ghost now_met = met || before.structure().contains_key(id)
                && before.structure()[id].pending();
            proof {
                lemma_progress(start, before, *self, plan, known, values, id, steps, path, met);
                steps = steps.push(*self);
                path = path.push(id);
            }
            match next {
                Some(child) => {
                    proof {
                        lemma_progress_on(
                            start,
                            *self,
                            plan,
                            known,
                            values,
                            id,
                            child,
                            steps,
                            path,
                            now_met,
                        );
                        met = now_met;
                    }
                    id = child;
                },
                None => {
                    proof {
                        lemma_progress_end(
                            start,
                            *self,
                            plan,
                            known,
                            values,
                            id,
                            steps,
                            path,
                            now_met,
                        );
                    }
                    return match self.nodes.get(id) {
                        Some(node) => node.predict(),
                        None => false,
                    };
                },
            }
        }
    }

    /// Does the work that has been put off at a node, and finds the child to which a row
    /// goes on from there.
    fn resolve_and_route<D: Dataset, S: Sample, Q: Sample>(
        &mut self,
        dataset: &D,
        sample_map: &IdTable<&S>,
        query: &Q,
        id: u64,
    ) -> (r: Option<u64>)
        requires
            old(self).wf(),
            id >= 1,
            old(self).width() <= dataset.attribute_types().len(),
            all_admitted(old(self).plan(dataset.attribute_types()), sample_map@),
            old(self).plan(dataset.attribute_types()).suits_all(old(self).structure()),
            old(self).plan(dataset.attribute_types()).admits(query.data().values),
        ensures
            final(self).wf(),
            final(self).same_setting(old(self)),
            final(self).plan(dataset.attribute_types()).suits_all(final(self).structure()),
            resolved(
                *old(self),
                *final(self),
                old(self).plan(dataset.attribute_types()),
                sample_map@,
                id,
            ),
            match r {
                Some(child) => child > id && onward(
                    final(self).structure(),
                    query.data().values,
                    id,
                    child,
                ),
                None => !is_inner(final(self).structure(), id),
            },
    {
        self.lazy_resolve_this_node(dataset, sample_map, id);
        let ghost here = self.structure();
        proof {
            lemma_room(here, self.config.max_depth as int);
        }
        match self.nodes.get(id) {
            Some(node) => {
                assert(here.contains_key(id) && here[id] == node@);
                match node {
                    Node::Internal { split, .. } => {
                        proof {
                            assert(is_inner(here, id));
                            lemma_suits_applies(
                                self.plan(dataset.attribute_types()),
                                *split,
                                query.data().values,
                            );
                        }
                        if query.is_left_of(split) {
                            Some(left_child(id))
                        } else {
                            Some(right_child(id))
                        }
                    },
                    Node::Leaf { .. } => None,
                }
            },
            None => None,
        }
    }
}

/// How far a walk has come: the work has been done at the nodes above a node.
spec fn progress<S: Sample>(
    start: DynFrsTree,
    now: DynFrsTree,
    plan: Plan,
    known: Map<u64, &S>,
    values: Seq<i64>,
    id: u64,
    steps: Seq<DynFrsTree>,
    path: Seq<u64>,
    met: bool,
) -> bool {
    let safe = covered(start.structure(), start.states(), known) && keyed(known);
    let first = first_pending(start.structure(), values, ROOT);
    &&& reaches(now.structure(), values, ROOT, id)
    &&& steps.len() == path.len() + 1
    &&& steps[0] == start
    &&& steps.last() == now
    &&& so_far(steps, path, plan, known, values, id)
    &&& safe ==> covered(now.structure(), now.states(), known) && clear_above(now.structure(), id)
    &&& met ==> first is Some && same_outside(start.structure(), now.structure(), first->0)
        && within(id, first->0)
    &&& !met ==> unchanged(start, now) && first == first_pending(start.structure(), values, id)
}

/// How far a walk has come once the work has been done at a node as well.
spec fn progress_here<S: Sample>(
    start: DynFrsTree,
    now: DynFrsTree,
    plan: Plan,
    known: Map<u64, &S>,
    values: Seq<i64>,
    id: u64,
    steps: Seq<DynFrsTree>,
    path: Seq<u64>,
    met: bool,
) -> bool {
    let safe = covered(start.structure(), start.states(), known) && keyed(known);
    let first = first_pending(start.structure(), values, ROOT);
    &&& reaches(now.structure(), values, ROOT, id)
    &&& steps[0] == start
    &&& steps.last() == now
    &&& walked(steps, path, plan, known, values)
    &&& path.last() == id
    &&& safe ==> {
        &&& covered(now.structure(), now.states(), known)
        &&& clear_above(now.structure(), id)
        &&& !(now.structure().contains_key(id) && now.structure()[id].pending())
    }
    &&& met ==> first is Some && same_outside(start.structure(), now.structure(), first->0)
        && within(id, first->0)
    &&& !met ==> unchanged(start, now) && first == first_pending(start.structure(), values, id)
        && !(start.structure().contains_key(id) && start.structure()[id].pending())
}

/// Doing the work at the next node.
proof fn lemma_progress<S: Sample>(
    start: DynFrsTree,
    before: DynFrsTree,
    now: DynFrsTree,
    plan: Plan,
    known: Map<u64, &S>,
    values: Seq<i64>,
    id: u64,
    steps: Seq<DynFrsTree>,
    path: Seq<u64>,
    met: bool,
)
    requires
        before.wf(),
        now.wf(),
        id >= 1,
        now.same_setting(&start),
        progress(start, before, plan, known, values, id, steps, path, met),
        resolved(before, now, plan, known, id),
    ensures
        progress_here(
            start,
            now,
            plan,
            known,
            values,
            id,
            steps.push(now),
            path.push(id),
            met || before.structure().contains_key(id) && before.structure()[id].pending(),
        ),
{
    let safe = covered(start.structure(), start.states(), known) && keyed(known);
    let first = first_pending(start.structure(), values, ROOT);
    lemma_room(before.structure(), before.config.max_depth as int);
    lemma_resolved_outside(before, now, plan, known, id);
    lemma_reaches_outside(before.structure(), now.structure(), values, id);
    lemma_walk_on(steps, path, plan, known, values, id, now);
    if safe {
        lemma_resolved_covered(before, now, plan, known, id);
        lemma_clear_outside(before.structure(), now.structure(), id);
    }
    if met {
        lemma_outside_nested(
            start.structure(),
            before.structure(),
            now.structure(),
            id,
            first->0,
        );
    } else if before.structure().contains_key(id) && before.structure()[id].pending() {
        assert(is_inner(before.structure(), id));
        assert(first == Some(id));
        assert(within(id, id));
    }
    assert(steps.push(now)[0] == steps[0]);
}

/// Going on to a child.
proof fn lemma_progress_on<S: Sample>(
    start: DynFrsTree,
    now: DynFrsTree,
    plan: Plan,
    known: Map<u64, &S>,
    values: Seq<i64>,
    id: u64,
    child: u64,
    steps: Seq<DynFrsTree>,
    path: Seq<u64>,
    met: bool,
)
    requires
        now.wf(),
        id >= 1,
        progress_here(start, now, plan, known, values, id, steps, path, met),
        onward(now.structure(), values, id, child),
        child > id,
    ensures
        progress(start, now, plan, known, values, child, steps, path, met),
{
    let safe = covered(start.structure(), start.states(), known) && keyed(known);
    let first = first_pending(start.structure(), values, ROOT);
    let here = now.structure();
    lemma_room(here, now.config.max_depth as int);
    assert(is_inner(here, id));
    law_parent_of_child(id);
    if safe {
        lemma_clear_next(here, id, child);
    }
    if met {
        lemma_within_order(id, first->0);
        assert(within(child, first->0));
    }
    assert(reaches(here, values, ROOT, child));
}

/// Coming to an end.
proof fn lemma_progress_end<S: Sample>(
    start: DynFrsTree,
    now: DynFrsTree,
    plan: Plan,
    known: Map<u64, &S>,
    values: Seq<i64>,
    id: u64,
    steps: Seq<DynFrsTree>,
    path: Seq<u64>,
    met: bool,
)
    requires
        now.wf(),
        id >= 1,
        progress_here(start, now, plan, known, values, id, steps, path, met),
        !is_inner(now.structure(), id),
    ensures
        answered(
            start,
            now,
            plan,
            known,
            values,
            now.structure().contains_key(id) && now.structure()[id].majority(),
        ),
{
    let safe = covered(start.structure(), start.states(), known) && keyed(known);
    lemma_room(now.structure(), now.config.max_depth as int);
    lemma_walk_end(now.structure(), values, id, safe);
}

/// What asking a tree for the class of a row does to the tree, and what it answers.
pub open spec fn answered<S: Sample>(
    before: DynFrsTree,
    after: DynFrsTree,
    plan: Plan,
    known: Map<u64, &S>,
    values: Seq<i64>,
    r: bool,
) -> bool {
    &&& r == vote(after.structure(), values)
    &&& match first_pending(before.structure(), values, ROOT) {
        Some(top) => same_outside(before.structure(), after.structure(), top),
        None => unchanged(before, after),
    }
    &&& covered(before.structure(), before.states(), known) && keyed(known) ==> {
        &&& first_pending(after.structure(), values, ROOT) is None
        &&& covered(after.structure(), after.states(), known)
    }
    &&& exists|steps: Seq<DynFrsTree>, path: Seq<u64>|
        {
            &&& #[trigger] walked(steps, path, plan, known, values)
            &&& !is_inner(steps.last().structure(), path.last())
            &&& steps[0] == before
            &&& steps.last() == after
        }
}

/// Whether each of some trees comes from the one before by doing the work at a node, the
/// first at the root and each next one at the child to which a row goes on.
pub open spec fn walked<S: Sample>(
    steps: Seq<DynFrsTree>,
    path: Seq<u64>,
    plan: Plan,
    known: Map<u64, &S>,
    values: Seq<i64>,
) -> bool {
    &&& path.len() > 0
    &&& steps.len() == path.len() + 1
    &&& path[0] == ROOT
    &&& forall|i: int|
        0 <= i < steps.len() ==> (#[trigger] steps[i]).wf() && steps[i].same_setting(&steps[0])
    &&& forall|i: int|
        0 <= i < path.len() ==> resolved(
            steps[i],
            steps[i + 1],
            plan,
            known,
            #[trigger] path[i],
        )
    &&& forall|i: int|
        0 <= i < path.len() - 1 ==> onward(
            steps[i + 1].structure(),
            values,
            #[trigger] path[i],
            path[i + 1],
        )
}

/// Whether a row goes on from a node to a child.
pub open spec fn onward(nodes: Nodes, values: Seq<i64>, id: u64, child: u64) -> bool {
    is_inner(nodes, id) && child == (if nodes[id]->split.routes_left(values) {
        2 * id
    } else {
        2 * id + 1
    })
}

/// Whether a walk has come as far as a node, at which no work has been done yet.
spec fn so_far<S: Sample>(
    steps: Seq<DynFrsTree>,
    path: Seq<u64>,
    plan: Plan,
    known: Map<u64, &S>,
    values: Seq<i64>,
    id: u64,
) -> bool {
    if path.len() == 0 {
        id == ROOT && steps.len() == 1 && steps[0].wf()
    } else {
        walked(steps, path, plan, known, values) && onward(
            steps.last().structure(),
            values,
            path.last(),
            id,
        )
    }
}

/// One more step of a walk.
proof fn lemma_walk_on<S: Sample>(
    steps: Seq<DynFrsTree>,
    path: Seq<u64>,
    plan: Plan,
    known: Map<u64, &S>,
    values: Seq<i64>,
    id: u64,
    after: DynFrsTree,
)
    requires
        so_far(steps, path, plan, known, values, id),
        resolved(steps.last(), after, plan, known, id),
        after.wf(),
        after.same_setting(&steps[0]),
    ensures
        walked(steps.push(after), path.push(id), plan, known, values),
{
    let s = steps.push(after);
    let p = path.push(id);
    assert forall|i: int| 0 <= i < p.len() implies resolved(
        s[i],
        s[i + 1],
        plan,
        known,
        #[trigger] p[i],
    ) by {
        if i < path.len() {
            assert(p[i] == path[i]);
        }
    }
    assert forall|i: int| 0 <= i < p.len() - 1 implies onward(
        s[i + 1].structure(),
        values,
        #[trigger] p[i],
        p[i + 1],
    ) by {
        assert(p[i] == path[i]);
        if i + 1 < path.len() {
            assert(p[i + 1] == path[i + 1]);
        }
    }
}

/// Whether no node above one has to be worked on.
spec fn clear_above(nodes: Nodes, id: u64) -> bool {
    forall|x: u64| #[trigger] within(id, x) && x != id && x >= 1 ==> !(nodes.contains_key(x)
        && nodes[x].pending())
}

/// Above a child lie the node and what lies above it.
proof fn lemma_clear_next(nodes: Nodes, id: u64, next: u64)
    requires
        clear_above(nodes, id),
        next / 2 == id,
        id >= 1,
        next > id,
        !(nodes.contains_key(id) && nodes[id].pending()),
    ensures
        clear_above(nodes, next),
{
    assert forall|x: u64| #[trigger] within(next, x) && x != next && x >= 1 implies !(
    nodes.contains_key(x) && nodes[x].pending()) by {
        assert(within(id, x));
    }
}

/// Work below a node leaves what lies above it alone.
proof fn lemma_clear_outside(a: Nodes, b: Nodes, id: u64)
    requires
        clear_above(a, id),
        same_outside(a, b, id),
    ensures
        clear_above(b, id),
{
    assert forall|x: u64| #[trigger] within(id, x) && x != id && x >= 1 implies !(b.contains_key(x)
        && b[x].pending()) by {
        lemma_within_order(id, x);
        assert(!within(x, id));
    }
}

/// Whether a row gets to a node rests on what lies above it.
proof fn lemma_reaches_outside(a: Nodes, b: Nodes, values: Seq<i64>, id: u64)
    requires
        same_outside(a, b, id),
        id >= 1,
    ensures
        reaches(a, values, ROOT, id) == reaches(b, values, ROOT, id),
{
    lemma_reaches_upto(a, b, values, id, id);
}

/// Whether a row gets to a node above another rests on what lies above that.
proof fn lemma_reaches_upto(a: Nodes, b: Nodes, values: Seq<i64>, id: u64, x: u64)
    requires
        same_outside(a, b, id),
        id >= 1,
        x <= id,
    ensures
        reaches(a, values, ROOT, x) == reaches(b, values, ROOT, x),
    decreases x,
{
    if x > ROOT {
        lemma_reaches_upto(a, b, values, id, x / 2);
        assert(!within(x / 2, id)) by {
            if within(x / 2, id) {
                lemma_within_order(x / 2, id);
            }
        }
    }
}

/// What is the same outside a part is the same outside a larger one.
proof fn lemma_outside_nested(start: Nodes, a: Nodes, b: Nodes, id: u64, top: u64)
    requires
        same_outside(start, a, top),
        same_outside(a, b, id),
        within(id, top),
    ensures
        same_outside(start, b, top),
{
    assert forall|x: u64| !#[trigger] within(x, top) implies start.contains_key(x)
        == b.contains_key(x) && (start.contains_key(x) ==> start[x] == b[x]) by {
        if within(x, id) {
            crate::node::node_id::lemma_within_trans(x, id, top);
        }
    }
}

/// Where a walk ends, the row ends, and nothing is pending on its way if nothing above
/// is.
proof fn lemma_walk_end(nodes: Nodes, values: Seq<i64>, id: u64, safe: bool)
    requires
        id >= 1,
        forall|x: u64| #[trigger] is_inner(nodes, x) ==> 1 <= x <= MAX_PARENT,
        reaches(nodes, values, ROOT, id),
        !is_inner(nodes, id),
        safe ==> clear_above(nodes, id),
    ensures
        end_of(nodes, values, ROOT) == id,
        safe ==> first_pending(nodes, values, ROOT) is None,
{
    lemma_end_path(nodes, values, ROOT, id);
    super::grow::lemma_leaf_end(nodes, end_of(nodes, values, ROOT), id, 0, values);
    if safe {
        lemma_nothing_pending(nodes, values, ROOT, id);
    }
}

/// If nothing above the end of a row is pending, nothing is on its way.
proof fn lemma_nothing_pending(nodes: Nodes, values: Seq<i64>, from: u64, end: u64)
    requires
        from >= 1,
        end_of(nodes, values, from) == end,
        !is_inner(nodes, end),
        forall|x: u64| #[trigger] is_inner(nodes, x) ==> 1 <= x <= MAX_PARENT,
        clear_above(nodes, end),
    ensures
        first_pending(nodes, values, from) is None,
    decreases u64::MAX - from,
{
    if is_inner(nodes, from) {
        lemma_end_path(nodes, values, from, from);
        assert(within(end, from));
        assert(from != end);
        assert(!nodes[from].pending());
        let c = if nodes[from]->split.routes_left(values) {
            (2 * from) as u64
        } else {
            (2 * from + 1) as u64
        };
        lemma_nothing_pending(nodes, values, c, end);
    }
}

/// Doing the work at a node changes nothing outside the part below it.
pub proof fn lemma_resolved_outside<S: Sample>(
    before: DynFrsTree,
    after: DynFrsTree,
    plan: Plan,
    known: Map<u64, &S>,
    id: u64,
)
    requires
        resolved(before, after, plan, known, id),
        id >= 1,
        forall|x: u64| #[trigger] is_inner(before.structure(), x) ==> 1 <= x <= MAX_PARENT,
    ensures
        same_outside(before.structure(), after.structure(), id),
{
    let nodes = before.structure();
    assert(within(id, id));
    if nodes.contains_key(id) && nodes[id].pending() {
        assert(is_inner(nodes, id));
        lemma_within_children((2 * id) as u64, id);
        lemma_within_children((2 * id + 1) as u64, id);
        assert(within((2 * id) as u64, (2 * id) as u64));
        assert(within((2 * id + 1) as u64, (2 * id + 1) as u64));
    }
}

/// Doing the work at a node of a tree whose samples are all known leaves them all known,
/// and leaves nothing to do at the node.
pub proof fn lemma_resolved_covered<S: Sample>(
    before: DynFrsTree,
    after: DynFrsTree,
    plan: Plan,
    known: Map<u64, &S>,
    id: u64,
)
    requires
        resolved(before, after, plan, known, id),
        before.wf(),
        after.wf(),
        id >= 1,
        keyed(known),
        covered(before.structure(), before.states(), known),
    ensures
        covered(after.structure(), after.states(), known),
        !(after.structure().contains_key(id) && after.structure()[id].pending()),
{
    let nodes = before.structure();
    let states = before.states();
    if nodes.contains_key(id) && nodes[id].pending() {
        assert(is_inner(nodes, id));
        lemma_room(nodes, before.config.max_depth as int);
        let list = states[id].sample_ids;
        let refs = found(known, capped(list));
        let m = rows(refs);
        if !states.contains_key(id) || refs.len() == 0 {
            let named = choose|named: Seq<u64>| #[trigger]
                lists(nodes, id, named) && rebuilt_from(before, after, plan, known, id, named);
            lemma_rebuilt_covered(before, after, plan, known, id, named);
        } else if plan.must_stop(m, level(id) as int) {
            lemma_leafed_covered(before, after, known, id, list, m);
        } else {
            let splits = choose|splits: Seq<Split>| #[trigger]
                plan.drawn(m, splits) && match pick(m, splits) {
                    Some(split) => divided(before, after, known, id, refs, split),
                    None => {
                        &&& after.structure() == nodes.insert(
                            id,
                            nodes[id].with_tag(LazyTag::Clean),
                        )
                        &&& after.placement() == before.placement()
                        &&& after.states() == states
                    },
                };
            match pick(m, splits) {
                Some(split) => {
                    let (lefts, rights) = choose|lefts: Seq<usize>, rights: Seq<usize>|
                        {
                            &&& is_side(refs, refs.len() as int, split, true, lefts)
                            &&& is_side(refs, refs.len() as int, split, false, rights)
                            &&& #[trigger] divided_at(
                                before,
                                after,
                                known,
                                id,
                                refs,
                                split,
                                lefts,
                                rights,
                            )
                        };
                    lemma_divided_covered(
                        before,
                        after,
                        known,
                        id,
                        capped(list),
                        split,
                        lefts,
                        rights,
                    );
                },
                None => {},
            }
        }
    }
}

/// The identifiers of found samples are known.
proof fn lemma_found_ids<S: Sample>(known: Map<u64, &S>, list: Seq<u64>, i: int)
    requires
        keyed(known),
        0 <= i < found(known, list).len(),
    ensures
        known.contains_key(found(known, list)[i].data().id),
{
    lemma_found(known, list);
    let id = choose|id: u64| #[trigger]
        known.contains_key(id) && known[id] == found(known, list)[i] && list.contains(id);
    assert(known[id].data().id == id);
}

/// A part that was grown anew names known samples only.
proof fn lemma_rebuilt_covered<S: Sample>(
    before: DynFrsTree,
    after: DynFrsTree,
    plan: Plan,
    known: Map<u64, &S>,
    id: u64,
    list: Seq<u64>,
)
    requires
        lists(before.structure(), id, list),
        rebuilt_from(before, after, plan, known, id, list),
        before.wf(),
        after.wf(),
        id >= 1,
        keyed(known),
        covered(before.structure(), before.states(), known),
    ensures
        covered(after.structure(), after.states(), known),
        !(after.structure().contains_key(id) && after.structure()[id].pending()),
{
    let a = before.structure();
    let b = after.structure();
    let refs = found(known, capped(list));
    let m = rows(refs);
    assert(within(id, id));
    if list.len() > 0 {
        lemma_lists_named(a, before.config.max_depth as int, id, list);
        assert(list.to_set().contains(list[0]));
        assert(named_below(a, id).contains(list[0]));
        let x = choose|x: u64| #[trigger]
            a.contains_key(x) && within(x, id) && a[x] is Leaf && a[x]->sample_ids.contains(
                list[0],
            );
        assert(a[x]->sample_ids.contains(list[0]));
        assert(known.contains_key(list[0]));
        lemma_found(known, capped(list));
        assert(capped(list)[0] == list[0]);
        assert(refs.len() > 0);
        assert forall|x: u64, sid: u64|
            b.contains_key(x) && b[x] is Leaf && #[trigger] b[x]->sample_ids.contains(
                sid,
            ) implies known.contains_key(sid) by {
            if within(x, id) {
                lemma_part_known(plan, b, m, id, x, sid, known, capped(list));
            } else {
                assert(a[x]->sample_ids.contains(sid));
            }
        }
        if before.streams() {
            assert forall|x: u64, i: int|
                after.states().contains_key(x) && 0 <= i
                    < after.states()[x].sample_ids.len() implies known.contains_key(
                #[trigger] after.states()[x].sample_ids[i],
            ) by {
                if b.contains_key(x) && within(x, id) {
                    let l = after.states()[x].sample_ids;
                    lemma_within_order(x, id);
                    lemma_lists_named(b, after.config.max_depth as int, x, l);
                    assert(l.to_set().contains(l[i]));
                    assert(named_below(b, x).contains(l[i]));
                    let y = choose|y: u64| #[trigger]
                        b.contains_key(y) && within(y, x) && b[y] is Leaf
                            && b[y]->sample_ids.contains(l[i]);
                    assert(b[y]->sample_ids.contains(l[i]));
                } else {
                    assert(before.states()[x].sample_ids[i] == after.states()[x].sample_ids[i]);
                }
            }
        }
    } else {
        assert forall|x: u64, sid: u64|
            b.contains_key(x) && b[x] is Leaf && #[trigger] b[x]->sample_ids.contains(
                sid,
            ) implies known.contains_key(sid) by {
            assert(a[x]->sample_ids.contains(sid));
        }
    }
}

/// A leaf of a part that was grown from found samples names known ones.
proof fn lemma_part_known<S: Sample>(
    plan: Plan,
    nodes: Nodes,
    m: Rows,
    top: u64,
    x: u64,
    sid: u64,
    known: Map<u64, &S>,
    list: Seq<u64>,
)
    requires
        plan.grown(nodes, m, top),
        m == rows(found(known, list)),
        nodes.contains_key(x),
        within(x, top),
        nodes[x] is Leaf,
        nodes[x]->sample_ids.contains(sid),
        keyed(known),
    ensures
        known.contains_key(sid),
{
    let refs = found(known, list);
    let part = super::shape::arrivals(nodes, m, top, x);
    assert(plan.good(nodes, part, x));
    assert(ids(part).contains(sid));
    let d = choose|d: SampleData| part.count(d) > 0 && #[trigger] d.id == sid;
    assert(m.count(d) > 0);
    lemma_rows(refs);
    let i = choose|i: int| 0 <= i < refs.len() && #[trigger] refs[i].data() == d;
    assert(refs[i].data() == d);
    lemma_found_ids(known, list, i);
}

/// A node that became a leaf names known samples only.
proof fn lemma_leafed_covered<S: Sample>(
    before: DynFrsTree,
    after: DynFrsTree,
    known: Map<u64, &S>,
    id: u64,
    list: Seq<u64>,
    m: Rows,
)
    requires
        leafed(before, after, id, list, m),
        before.states().contains_key(id),
        list == before.states()[id].sample_ids,
        covered(before.structure(), before.states(), known),
    ensures
        covered(after.structure(), after.states(), known),
        !(after.structure().contains_key(id) && after.structure()[id].pending()),
{
    let a = before.structure();
    let b = after.structure();
    assert forall|x: u64, sid: u64|
        b.contains_key(x) && b[x] is Leaf && #[trigger] b[x]->sample_ids.contains(
            sid,
        ) implies known.contains_key(sid) by {
        if x == id {
            let i = choose|i: int| 0 <= i < list.len() && list[i] == sid;
            assert(known.contains_key(before.states()[id].sample_ids[i]));
        } else {
            assert(a[x]->sample_ids.contains(sid));
        }
    }
    assert forall|x: u64, i: int|
        after.states().contains_key(x) && 0 <= i
            < after.states()[x].sample_ids.len() implies known.contains_key(
        #[trigger] after.states()[x].sample_ids[i],
    ) by {
        assert(before.states()[x].sample_ids[i] == after.states()[x].sample_ids[i]);
    }
}

/// A node whose samples were divided leaves known samples only.
proof fn lemma_divided_covered<S: Sample>(
    before: DynFrsTree,
    after: DynFrsTree,
    known: Map<u64, &S>,
    id: u64,
    list: Seq<u64>,
    split: Split,
    lefts: Seq<usize>,
    rights: Seq<usize>,
)
    requires
        1 <= id <= MAX_PARENT,
        is_side(found(known, list), found(known, list).len() as int, split, true, lefts),
        is_side(found(known, list), found(known, list).len() as int, split, false, rights),
        divided_at(before, after, known, id, found(known, list), split, lefts, rights),
        keyed(known),
        covered(before.structure(), before.states(), known),
    ensures
        covered(after.structure(), after.states(), known),
        !(after.structure().contains_key(id) && after.structure()[id].pending()),
{
    let refs = found(known, list);
    let a = before.structure();
    let b = after.structure();
    let l = (2 * id) as u64;
    let r = (2 * id + 1) as u64;
    let left_ids = ids_in_order(picked(refs, lefts));
    let right_ids = ids_in_order(picked(refs, rights));
    assert forall|i: int| 0 <= i < left_ids.len() implies known.contains_key(
        #[trigger] left_ids[i],
    ) by {
        assert(lefts[i] < refs.len());
        lemma_found_ids(known, list, lefts[i] as int);
    }
    assert forall|i: int| 0 <= i < right_ids.len() implies known.contains_key(
        #[trigger] right_ids[i],
    ) by {
        assert(rights[i] < refs.len());
        lemma_found_ids(known, list, rights[i] as int);
    }
    assert forall|x: u64, sid: u64|
        b.contains_key(x) && b[x] is Leaf && #[trigger] b[x]->sample_ids.contains(
            sid,
        ) implies known.contains_key(sid) by {
        if x == l && a.contains_key(l) {
            let i = choose|i: int| 0 <= i < left_ids.len() && left_ids[i] == sid;
            assert(known.contains_key(left_ids[i]));
        } else if x == r && a.contains_key(r) {
            let i = choose|i: int| 0 <= i < right_ids.len() && right_ids[i] == sid;
            assert(known.contains_key(right_ids[i]));
        } else if x != id {
            assert(a[x]->sample_ids.contains(sid));
        }
    }
    assert forall|x: u64, i: int|
        after.states().contains_key(x) && 0 <= i
            < after.states()[x].sample_ids.len() implies known.contains_key(
        #[trigger] after.states()[x].sample_ids[i],
    ) by {
        assert(before.states().contains_key(x));
        if x != l && x != r {
            assert(before.states()[x].sample_ids[i] == after.states()[x].sample_ids[i]);
        }
    }
}

/// Where there is no node, where there is a leaf, and where a node is up to date, there is
/// no work to be done: the tree stays as it is.
pub proof fn law_nothing_to_resolve<S: Sample>(
    before: DynFrsTree,
    after: DynFrsTree,
    plan: Plan,
    known: Map<u64, &S>,
    id: u64,
)
    requires
        resolved(before, after, plan, known, id),
        before.structure().contains_key(id) ==> before.structure()[id] is Leaf
            || before.structure()[id]->lazy_tag == LazyTag::Clean,
    ensures
        unchanged(before, after),
        forall|values: Seq<i64>| #[trigger]
            vote(after.structure(), values) == vote(before.structure(), values),
{
}

/// Once the work at a node has been done there is none left: doing it again leaves the tree
/// as it is, if its samples are all known.
pub proof fn law_resolving_twice<S: Sample>(
    before: DynFrsTree,
    between: DynFrsTree,
    after: DynFrsTree,
    plan: Plan,
    known: Map<u64, &S>,
    id: u64,
)
    requires
        before.wf(),
        between.wf(),
        id >= 1,
        keyed(known),
        covered(before.structure(), before.states(), known),
        resolved(before, between, plan, known, id),
        resolved(between, after, plan, known, id),
    ensures
        unchanged(between, after),
{
    lemma_resolved_covered(before, between, plan, known, id);
}

/// Asking twice changes nothing the second time: of a tree whose samples are all known,
/// a second question about the same row leaves the tree as it is and gets the answer of
/// the first one.
pub proof fn law_resolving_is_idempotent<S: Sample>(
    before: DynFrsTree,
    between: DynFrsTree,
    after: DynFrsTree,
    plan: Plan,
    known: Map<u64, &S>,
    values: Seq<i64>,
    first: bool,
    second: bool,
)
    requires
        covered(before.structure(), before.states(), known),
        keyed(known),
        answered(before, between, plan, known, values, first),
        answered(between, after, plan, known, values, second),
    ensures
        unchanged(between, after),
        second == first,
{
}

/// A tree whose nodes have kept their kinds hangs together.
proof fn lemma_same_kinds(a: Nodes, b: Nodes, max_depth: int, width: u8, plan: Plan)
    requires
        linked(a, max_depth),
        narrow(a, width),
        plan.width == width,
        plan.suits_all(a),
        a.dom() == b.dom(),
        forall|id: u64| #[trigger]
            a.contains_key(id) ==> (a[id] is Internal) == (b[id] is Internal) && (a[id] is Internal
                ==> b[id]->split == a[id]->split || plan.suits(b[id]->split)),
    ensures
        linked(b, max_depth),
        narrow(b, width),
        plan.suits_all(b),
{
    assert forall|id: u64| #[trigger] is_inner(b, id) implies is_inner(a, id) && plan.suits(
        b[id]->split,
    ) by {
        assert(a.contains_key(id));
        assert(is_inner(a, id));
    }
    reveal(linked);
    assert forall|id: u64| #[trigger] b.contains_key(id) implies {
        &&& id >= 1
        &&& level(id) <= max_depth
        &&& b[id] is Internal ==> level(id) < max_depth
        &&& id != ROOT ==> is_inner(b, id / 2)
    } by {
        assert(a.contains_key(id));
        if id != ROOT {
            assert(is_inner(a, id / 2));
            assert(a.contains_key(id / 2));
        }
    }
}

/// Lists the members of a set.
fn list_set(set: &IdSet) -> (r: Vec<u64>)
    ensures
        r@.to_set() == set@,
{
    let n: usize = set.len();
    let mut list: Vec<u64> = Vec::new();
    let mut i: usize = 0;
    while i < n
        invariant
            i <= n == set.order().len(),
            list@ == set.order().take(i as int),
        decreases n - i,
    {
        list.push(set.key_at(i));
        assert(list@ =~= set.order().take(i as int + 1));
        i = i + 1;
    }
    assert(list@ =~= set.order());
    list
}

/// The set of the entries of a list.
fn set_of(list: &Vec<u64>) -> (r: IdSet)
    ensures
        r@ == list@.to_set(),
{
    let mut set = IdSet::new();
    let mut i: usize = 0;
    assert(list@.take(0).to_set() =~= Set::<u64>::empty());
    while i < list.len()
        invariant
            i <= list@.len(),
            set@ == list@.take(i as int).to_set(),
        decreases list@.len() - i,
    {
        set.insert(list[i]);
        proof {
            lemma_set_grows(list@, i as int);
        }
        i = i + 1;
    }
    assert(list@.take(i as int) =~= list@);
    set
}

/// Copies a list.
fn copy_list(list: &Vec<u64>) -> (r: Vec<u64>)
    ensures
        r@ == list@,
{
    let mut copy: Vec<u64> = Vec::new();
    let mut i: usize = 0;
    while i < list.len()
        invariant
            i <= list@.len(),
            copy@ == list@.take(i as int),
        decreases list@.len() - i,
    {
        copy.push(list[i]);
        assert(copy@ =~= list@.take(i as int + 1));
        i = i + 1;
    }
    assert(copy@ =~= list@);
    copy
}

/// Lists the identifiers of samples.
fn ids_of<S: Sample>(samples: &Vec<S>) -> (r: Vec<u64>)
    ensures
        r@ == ids_in_order(samples@),
{
    let mut list: Vec<u64> = Vec::new();
    let mut i: usize = 0;
    while i < samples.len()
        invariant
            i <= samples@.len(),
            list@ == ids_in_order(samples@).take(i as int),
        decreases samples@.len() - i,
    {
        list.push(samples[i].id());
        assert(list@ =~= ids_in_order(samples@).take(i as int + 1));
        i = i + 1;
    }
    assert(list@ =~= ids_in_order(samples@));
    list
}

/// States that hang below a node have larger identifiers.
proof fn lemma_hangs_order(states: Map<u64, StateView>, id: u64, top: u64)
    ensures
        hangs(states, id, top) ==> id >= top,
{
}

/// A state hangs below that of a node if it hangs below that of a child.
proof fn lemma_hangs_children(states: Map<u64, StateView>, id: u64, top: u64)
    requires
        1 <= top <= MAX_PARENT,
    ensures
        (id != top && hangs(states, id, top)) == ((states.contains_key((2 * top) as u64) && hangs(
            states,
            id,
            (2 * top) as u64,
        )) || (states.contains_key((2 * top + 1) as u64) && hangs(
            states,
            id,
            (2 * top + 1) as u64,
        ))),
    decreases id,
{
    let l = (2 * top) as u64;
    let r = (2 * top + 1) as u64;
    if id > top {
        lemma_hangs_children(states, id / 2, top);
        lemma_hangs_order(states, id / 2, top);
        lemma_hangs_order(states, id / 2, l);
        lemma_hangs_order(states, id / 2, r);
        if id == l || id == r {
            assert(id / 2 == top);
            assert(hangs(states, top, top));
        } else if id / 2 == top {
            assert(id == l || id == r);
        }
    }
}

/// A longer list has one entry more.
proof fn lemma_contains_push(list: Seq<u64>, x: u64)
    ensures
        forall|y: u64| #[trigger] list.push(x).contains(y) == (list.contains(y) || y == x),
{
    assert forall|y: u64| #[trigger] list.push(x).contains(y) == (list.contains(y) || y == x) by {
        if list.contains(y) {
            let i = list.index_of(y);
            assert(list.push(x)[i] == y);
        }
        if y == x {
            assert(list.push(x)[list.len() as int] == y);
        }
    }
}

/// A tree in which a part has been replaced by a leaf hangs together.
proof fn lemma_leaf_linked(
    nodes: Nodes,
    bare: Nodes,
    after: Nodes,
    max_depth: int,
    width: u8,
    plan: Plan,
    top: u64,
)
    requires
        linked(nodes, max_depth),
        nodes.contains_key(top),
        bare == felled(nodes, top),
        linked(bare, max_depth),
        narrow(bare, width),
        plan.suits_all(bare),
        after == bare.insert(top, after[top]),
        after[top] is Leaf,
    ensures
        linked(after, max_depth),
        narrow(after, width),
        plan.suits_all(after),
{
    lemma_linked_at(nodes, max_depth, top);
    assert forall|id: u64| #[trigger] is_inner(after, id) implies is_inner(bare, id)
        && after[id]->split == bare[id]->split by {}
    assert forall|id: u64| #[trigger] is_inner(bare, id) implies is_inner(after, id) by {
        assert(within(top, top));
    }
    assert(top != ROOT ==> is_inner(bare, top / 2)) by {
        if top != ROOT && within(top / 2, top) {
            lemma_within_order(top / 2, top);
        }
    }
    reveal(linked);
    assert forall|id: u64| #[trigger] after.contains_key(id) implies {
        &&& id >= 1
        &&& level(id) <= max_depth
        &&& after[id] is Internal ==> level(id) < max_depth
        &&& id != ROOT ==> is_inner(after, id / 2)
    } by {
        if id != top {
            assert(bare.contains_key(id));
            if id != ROOT {
                assert(is_inner(bare, id / 2));
            }
        }
    }
}

/// One entry more makes the set of entries one larger, or leaves it as it is.
proof fn lemma_set_grows(list: Seq<u64>, i: int)
    requires
        0 <= i < list.len(),
    ensures
        list.take(i + 1).to_set() == list.take(i).to_set().insert(list[i]),
{
    let a = list.take(i);
    let b = list.take(i + 1);
    assert forall|x: u64| b.to_set().contains(x) == a.to_set().insert(list[i]).contains(x) by {
        if a.to_set().contains(x) {
            let j = choose|j: int| 0 <= j < a.len() && a[j] == x;
            assert(b[j] == x);
        }
        if x == list[i] {
            assert(b[i] == x);
        }
        if b.to_set().contains(x) {
            let j = choose|j: int| 0 <= j < b.len() && b[j] == x;
            if j < i {
                assert(a[j] == x);
            }
        }
    }
    assert(b.to_set() =~= a.to_set().insert(list[i]));
}

/// A tree from which a part has been taken out hangs together.
proof fn lemma_felled(nodes: Nodes, max_depth: int, width: u8, plan: Plan, top: u64)
    requires
        linked(nodes, max_depth),
        narrow(nodes, width),
        plan.suits_all(nodes),
        top >= 1,
    ensures
        linked(felled(nodes, top), max_depth),
        narrow(felled(nodes, top), width),
        plan.suits_all(felled(nodes, top)),
        vacant(felled(nodes, top), top),
        same_outside(nodes, felled(nodes, top), top),
{
    let after = felled(nodes, top);
    assert forall|id: u64| #[trigger] is_inner(after, id) implies is_inner(nodes, id)
        && after[id]->split == nodes[id]->split by {}
    reveal(linked);
    assert forall|id: u64| #[trigger] after.contains_key(id) implies {
        &&& id >= 1
        &&& level(id) <= max_depth
        &&& after[id] is Internal ==> level(id) < max_depth
        &&& id != ROOT ==> is_inner(after, id / 2)
    } by {
        assert(nodes.contains_key(id));
        if id != ROOT {
            assert(is_inner(nodes, id / 2));
            if within(id / 2, top) {
                lemma_within_order(id / 2, top);
                assert(within(id, top));
            }
        }
    }
}

} // verus!
