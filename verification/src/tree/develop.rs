//! Working on the nodes of a tree that are marked or too old.

use super::collect::{
    by_id, index_samples, lemma_linked_up, lemma_lists_named, lists, named_below,
};
use super::grow::{lemma_admits_each, same_outside, Plan};
use super::lazy::{all_admitted, capped, lemma_found, rebuilt, rebuilt_from, unchanged};
use super::shape::{is_inner, lemma_room, Nodes};
use super::DynFrsTree;
use crate::dataset::Dataset;
use crate::node::node_id::{
    left_child, lemma_within_children, right_child, within, MAX_PARENT, ROOT,
};
use crate::node::{LazyTag, Node, NodeView};
use crate::sample::{rows, Sample};
use crate::streaming::StateView;
use crate::table::IdTable;
use vstd::prelude::*;

verus! {

/// Whether an inner node is to be grown anew: because it is marked, or because its split
/// is too old.
pub open spec fn due(n: NodeView, position: u64, max_age: Option<u64>) -> bool {
    n is Internal && (n.pending() || (max_age matches Some(age) && position - n->created_at > age))
}

/// Whether the nodes below a node that were due have been grown anew, from the top down
/// and from left to right.
pub open spec fn developed<S: Sample>(
    before: DynFrsTree,
    after: DynFrsTree,
    plan: Plan,
    known: Map<u64, &S>,
    id: u64,
    max_age: Option<u64>,
) -> bool
    decreases u64::MAX - id,
{
    if !(is_inner(before.structure(), id) && 1 <= id <= MAX_PARENT) {
        unchanged(before, after)
    } else if due(before.structure()[id], plan.position, max_age) {
        rebuilt(before, after, plan, known, id)
    } else {
        exists|mid: DynFrsTree|
            {
                &&& mid.wf()
                &&& #[trigger] mid.same_setting(&before)
                &&& developed(before, mid, plan, known, (2 * id) as u64, max_age)
                &&& developed(mid, after, plan, known, (2 * id + 1) as u64, max_age)
            }
    }
}

impl DynFrsTree {
    /// Grows every marked node anew.
    pub fn develop<D: Dataset, S: Sample>(&mut self, dataset: &D, samples: &[S])
        requires
            old(self).wf(),
            old(self).width() <= dataset.attribute_types().len(),
            old(self).plan(dataset.attribute_types()).admits_each(samples@),
            old(self).plan(dataset.attribute_types()).suits_all(old(self).structure()),
        ensures
            final(self).wf(),
            final(self).same_setting(old(self)),
            final(self).plan(dataset.attribute_types()).suits_all(final(self).structure()),
            exists|known: Map<u64, &S>|
                by_id(samples@, known) && #[trigger] developed(
                    *old(self),
                    *final(self),
                    old(self).plan(dataset.attribute_types()),
                    known,
                    ROOT,
                    None,
                ),
    {
        let sample_map = index_samples(samples);
        proof {
            lemma_admits_each(self.plan(dataset.attribute_types()), samples@);
            lemma_indexed_admitted(
                self.plan(dataset.attribute_types()),
                samples@,
                sample_map@,
            );
        }
        self.develop_with_map(dataset, &sample_map);
        assert(by_id(samples@, sample_map@));
    }

    /// Grows every marked node anew, where the samples are known by their identifiers.
    pub fn develop_with_map<D: Dataset, S: Sample>(
        &mut self,
        dataset: &D,
        sample_map: &IdTable<&S>,
    )
        requires
            old(self).wf(),
            old(self).width() <= dataset.attribute_types().len(),
            all_admitted(old(self).plan(dataset.attribute_types()), sample_map@),
            old(self).plan(dataset.attribute_types()).suits_all(old(self).structure()),
        ensures
            final(self).wf(),
            final(self).same_setting(old(self)),
            final(self).plan(dataset.attribute_types()).suits_all(final(self).structure()),
            developed(
                *old(self),
                *final(self),
                old(self).plan(dataset.attribute_types()),
                sample_map@,
                ROOT,
                None,
            ),
    {
        self.develop_node_with_age(dataset, sample_map, ROOT, 0, None);
        assert(old(self).plan_at(dataset.attribute_types(), 0) == old(self).plan(
            dataset.attribute_types(),
        ));
    }

    /// Grows every node anew that is marked, or whose split was made too long ago.
    pub fn develop_with_age<D: Dataset, S: Sample>(
        &mut self,
        dataset: &D,
        sample_map: &IdTable<&S>,
        current_position: u64,
        max_split_age: Option<u64>,
    )
        requires
            old(self).wf(),
            old(self).width() <= dataset.attribute_types().len(),
            all_admitted(old(self).plan(dataset.attribute_types()), sample_map@),
            old(self).plan(dataset.attribute_types()).suits_all(old(self).structure()),
        ensures
            final(self).wf(),
            final(self).same_setting(old(self)),
            final(self).plan(dataset.attribute_types()).suits_all(final(self).structure()),
            developed(
                *old(self),
                *final(self),
                old(self).plan_at(dataset.attribute_types(), current_position),
                sample_map@,
                ROOT,
                max_split_age,
            ),
    {
        self.develop_node_with_age(dataset, sample_map, ROOT, current_position, max_split_age);
    }

    /// Grows the nodes anew that are due, from a node down.
    fn develop_node_with_age<D: Dataset, S: Sample>(
        &mut self,
        dataset: &D,
        sample_map: &IdTable<&S>,
        node_id: u64,
        current_position: u64,
        max_split_age: Option<u64>,
    )
        requires
            old(self).wf(),
            node_id >= 1,
            old(self).width() <= dataset.attribute_types().len(),
            all_admitted(old(self).plan(dataset.attribute_types()), sample_map@),
            old(self).plan(dataset.attribute_types()).suits_all(old(self).structure()),
        ensures
            final(self).wf(),
            final(self).same_setting(old(self)),
            final(self).plan(dataset.attribute_types()).suits_all(final(self).structure()),
            developed(
                *old(self),
                *final(self),
                old(self).plan_at(dataset.attribute_types(), current_position),
                sample_map@,
                node_id,
                max_split_age,
            ),
        decreases u64::MAX - node_id,
    {
        proof {
            lemma_room(self.structure(), self.config.max_depth as int);
        }
        let rebuild: bool = match self.nodes.get(node_id) {
            Some(Node::Internal { lazy_tag, created_at, .. }) => match *lazy_tag {
                LazyTag::Rebuild | LazyTag::Dirty => true,
                LazyTag::Clean => match max_split_age {
                    Some(age) => current_position.saturating_sub(*created_at) > age,
                    None => false,
                },
            },
            _ => {
                return;
            },
        };
        let ghost plan = self.plan_at(dataset.attribute_types(), current_position);
        assert(is_inner(self.structure(), node_id));
        assert(rebuild == due(self.structure()[node_id], current_position, max_split_age));
        if rebuild {
            self.rebuild_subtree_optimized(dataset, sample_map, node_id, current_position);
        } else {
            self.develop_node_with_age(
                dataset,
                sample_map,
                left_child(node_id),
                current_position,
                max_split_age,
            );
            let ghost mid = *self;
            assert(mid.same_setting(old(self)));
            self.develop_node_with_age(
                dataset,
                sample_map,
                right_child(node_id),
                current_position,
                max_split_age,
            );
            assert(mid.plan_at(dataset.attribute_types(), current_position) == plan);
            assert(developed(
                *old(self),
                mid,
                plan,
                sample_map@,
                (2 * node_id) as u64,
                max_split_age,
            ));
            assert(developed(
                mid,
                *self,
                plan,
                sample_map@,
                (2 * node_id + 1) as u64,
                max_split_age,
            ));
        }
    }

    /// Turns streaming on or off. Turned off, everything that it knows of the nodes is
    /// given up.
    pub fn set_streaming(&mut self, enabled: bool)
        requires
            old(self).wf(),
        ensures
            final(self).wf(),
            final(self).limits() == old(self).limits(),
            final(self).width() == old(self).width(),
            final(self).number() == old(self).number(),
            final(self).source() == old(self).source(),
            final(self).structure() == old(self).structure(),
            final(self).placement() == old(self).placement(),
            final(self).streams() == enabled,
            final(self).states() == (if enabled {
                old(self).states()
            } else {
                Map::<u64, StateView>::empty()
            }),
    {
        self.streaming_enabled = enabled;
        if !enabled {
            self.streaming_states.clear();
            assert(self.states() =~= Map::<u64, StateView>::empty());
        }
    }
}

/// Samples that are admitted are admitted when they are known by their identifiers.
pub proof fn lemma_indexed_admitted<S: Sample>(plan: Plan, samples: Seq<S>, known: Map<u64, &S>)
    requires
        plan.admits_all(rows(samples)),
        by_id(samples, known),
    ensures
        all_admitted(plan, known),
{
    crate::sample::lemma_rows(samples);
    assert forall|id: u64| #[trigger] known.contains_key(id) implies plan.admits(
        known[id].data().values,
    ) by {
        let i = choose|i: int|
            0 <= i < samples.len() && #[trigger] samples[i].data().id == id && *known[id]
                == samples[i];
        assert(rows(samples).count(samples[i].data()) > 0);
    }
}

/// Whether every sample that a leaf below a node names is known.
pub open spec fn known_below<S: Sample>(nodes: Nodes, known: Map<u64, &S>, top: u64) -> bool {
    named_below(nodes, top).subset_of(known.dom())
}

/// Developing a part of a tree changes nothing outside it.
pub proof fn lemma_developed_outside<S: Sample>(
    before: DynFrsTree,
    after: DynFrsTree,
    plan: Plan,
    known: Map<u64, &S>,
    id: u64,
    max_age: Option<u64>,
)
    requires
        developed(before, after, plan, known, id, max_age),
    ensures
        same_outside(before.structure(), after.structure(), id),
    decreases u64::MAX - id,
{
    let nodes = before.structure();
    if !(is_inner(nodes, id) && 1 <= id <= MAX_PARENT) {
    } else if due(nodes[id], plan.position, max_age) {
        let list = choose|list: Seq<u64>| #[trigger]
            lists(nodes, id, list) && rebuilt_from(before, after, plan, known, id, list);
        assert(rebuilt_from(before, after, plan, known, id, list));
    } else {
        let l = (2 * id) as u64;
        let r = (2 * id + 1) as u64;
        let mid = choose|mid: DynFrsTree|
            mid.wf() && #[trigger] mid.same_setting(&before) && developed(
                before,
                mid,
                plan,
                known,
                l,
                max_age,
            ) && developed(mid, after, plan, known, r, max_age);
        lemma_developed_outside(before, mid, plan, known, l, max_age);
        lemma_developed_outside(mid, after, plan, known, r, max_age);
        assert forall|x: u64| !#[trigger] within(x, id) implies !within(x, l) && !within(x, r) by {
            lemma_within_children(x, id);
        }
    }
}

/// Once a part of a tree has been developed, none of its nodes is due, if every sample
/// that its leaves name is known.
pub proof fn law_development_settles<S: Sample>(
    before: DynFrsTree,
    after: DynFrsTree,
    plan: Plan,
    known: Map<u64, &S>,
    id: u64,
    max_age: Option<u64>,
)
    requires
        before.wf(),
        id >= 1,
        developed(before, after, plan, known, id, max_age),
        known_below(before.structure(), known, id),
    ensures
        forall|x: u64|
            within(x, id) && #[trigger] after.structure().contains_key(x) ==> !due(
                after.structure()[x],
                plan.position,
                max_age,
            ),
    decreases u64::MAX - id,
{
    let nodes = before.structure();
    let max_depth = before.limits().max_depth as int;
    lemma_room(nodes, max_depth);
    if !(is_inner(nodes, id) && 1 <= id <= MAX_PARENT) {
        assert forall|x: u64|
            within(x, id) && #[trigger] after.structure().contains_key(x) implies !due(
            after.structure()[x],
            plan.position,
            max_age,
        ) by {
            lemma_linked_up(nodes, max_depth, x, id);
        }
    } else if due(nodes[id], plan.position, max_age) {
        let list = choose|list: Seq<u64>| #[trigger]
            lists(nodes, id, list) && rebuilt_from(before, after, plan, known, id, list);
        assert(rebuilt_from(before, after, plan, known, id, list));
        lemma_lists_named(nodes, max_depth, id, list);
        if list.len() > 0 {
            assert(list.to_set().contains(list[0]));
            assert(known.dom().contains(list[0]));
            assert(capped(list)[0] == list[0]);
            lemma_found(known, capped(list));
        }
    } else {
        let l = (2 * id) as u64;
        let r = (2 * id + 1) as u64;
        let mid = choose|mid: DynFrsTree|
            mid.wf() && #[trigger] mid.same_setting(&before) && developed(
                before,
                mid,
                plan,
                known,
                l,
                max_age,
            ) && developed(mid, after, plan, known, r, max_age);
        lemma_developed_outside(before, mid, plan, known, l, max_age);
        lemma_developed_outside(mid, after, plan, known, r, max_age);
        assert forall|x: u64| #[trigger] within(x, l) || within(x, r) implies within(x, id) by {
            lemma_within_children(x, id);
        }
        assert forall|x: u64| #[trigger] within(x, r) implies !within(x, l) by {
            lemma_within_children(x, id);
        }
        assert(known_below(nodes, known, l));
        assert(known_below(mid.structure(), known, r)) by {
            assert forall|sid: u64| named_below(mid.structure(), r).contains(sid) implies #[trigger]
                known.dom().contains(sid) by {
                let x = choose|x: u64| #[trigger]
                    mid.structure().contains_key(x) && within(x, r)
                        && mid.structure()[x] is Leaf && mid.structure()[x]->sample_ids.contains(
                        sid,
                    );
                assert(!within(x, l));
                assert(nodes.contains_key(x) && within(x, id));
                assert(named_below(nodes, id).contains(sid));
            }
        }
        law_development_settles(before, mid, plan, known, l, max_age);
        law_development_settles(mid, after, plan, known, r, max_age);
        assert forall|x: u64|
            within(x, id) && #[trigger] after.structure().contains_key(x) implies !due(
            after.structure()[x],
            plan.position,
            max_age,
        ) by {
            lemma_within_children(x, id);
            if within(x, l) {
                assert(!within(x, r));
                assert(mid.structure().contains_key(x));
            } else if x == id {
                assert(!within(x, l) && !within(x, r));
                assert(mid.structure().contains_key(x));
            }
        }
    }
}

} // verus!
