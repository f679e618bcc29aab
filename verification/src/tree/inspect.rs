//! Looking at a tree.

use super::shape::{is_inner, lemma_linked_at, Nodes};
use super::{DynFrsTree, TreeConfig};
use crate::node::node_id::{depth, level};
use crate::node::{LazyTag, Node, NodeView};
use crate::random::generator;
use crate::streaming::StateView;
use vstd::prelude::*;

verus! {

/// The inner nodes with a tag.
pub open spec fn tagged(nodes: Nodes, tag: LazyTag) -> Set<u64> {
    Set::new(|id: u64| nodes.contains_key(id) && nodes[id].tag() == Some(tag))
}

/// The inner nodes with a tag among some nodes.
spec fn tagged_among(nodes: Nodes, among: Set<u64>, tag: LazyTag) -> Set<u64> {
    Set::new(|id: u64| among.contains(id) && nodes.contains_key(id) && nodes[id].tag() == Some(tag))
}

/// What one node more does to the number of nodes with a tag.
proof fn lemma_tagged_step(nodes: Nodes, list: Seq<u64>, i: int, tag: LazyTag)
    requires
        list.no_duplicates(),
        0 <= i < list.len(),
        nodes.contains_key(list[i]),
    ensures
        tagged_among(nodes, list.take(i).to_set(), tag).finite(),
        tagged_among(nodes, list.take(i + 1).to_set(), tag).finite(),
        tagged_among(nodes, list.take(i + 1).to_set(), tag).len() == tagged_among(
            nodes,
            list.take(i).to_set(),
            tag,
        ).len() + (if nodes[list[i]].tag() == Some(tag) {
            1nat
        } else {
            0nat
        }),
        tagged_among(nodes, list.take(i).to_set(), tag).len() <= i,
    decreases i,
{
    let a = list.take(i).to_set();
    let b = list.take(i + 1).to_set();
    assert forall|x: u64| b.contains(x) == (a.contains(x) || x == list[i]) by {
        if a.contains(x) {
            let j = choose|j: int| 0 <= j < i && list.take(i)[j] == x;
            assert(list.take(i + 1)[j] == x);
        }
        if x == list[i] {
            assert(list.take(i + 1)[i] == x);
        }
        if b.contains(x) {
            let j = choose|j: int| 0 <= j <= i && #[trigger] list.take(i + 1)[j] == x;
            if j < i {
                assert(list.take(i)[j] == x);
            }
        }
    }
    assert(!a.contains(list[i])) by {
        if a.contains(list[i]) {
            let j = choose|j: int| 0 <= j < i && list.take(i)[j] == list[i];
            assert(list[j] == list[i]);
        }
    }
    let s = tagged_among(nodes, a, tag);
    if i == 0 {
        assert(s =~= Set::<u64>::empty());
    } else {
        if nodes.contains_key(list[i - 1]) {
            lemma_tagged_step(nodes, list, i - 1, tag);
        } else {
            lemma_tagged_finite(nodes, list, i, tag);
        }
    }
    let t = tagged_among(nodes, b, tag);
    if nodes[list[i]].tag() == Some(tag) {
        assert(t =~= s.insert(list[i]));
    } else {
        assert(t =~= s);
    }
}

/// There are no more nodes with a tag than nodes.
proof fn lemma_tagged_finite(nodes: Nodes, list: Seq<u64>, i: int, tag: LazyTag)
    requires
        list.no_duplicates(),
        0 <= i <= list.len(),
    ensures
        tagged_among(nodes, list.take(i).to_set(), tag).finite(),
        tagged_among(nodes, list.take(i).to_set(), tag).len() <= i,
{
    let front = list.take(i);
    assert(front.no_duplicates());
    front.unique_seq_to_set();
    vstd::set_lib::lemma_len_subset(
        tagged_among(nodes, front.to_set(), tag),
        front.to_set(),
    );
}

impl DynFrsTree {
    /// A tree without nodes that keeps statistics for streaming.
    pub fn new_streaming(index: usize, seed: u64, config: TreeConfig, num_attributes: u8) -> (r:
        Self)
        requires
            config.max_depth <= 63,
        ensures
            r.wf(),
            r.structure() == Map::<u64, NodeView>::empty(),
            r.placement() == Map::<u64, u64>::empty(),
            r.states() == Map::<u64, StateView>::empty(),
            r.limits() == config,
            r.width() == num_attributes,
            r.number() == index,
            r.streams(),
            r.source() == generator(vstd::wrapping::u64_specs::wrapping_add(seed, index as u64)),
    {
        let mut tree = DynFrsTree::new(index, seed, config, num_attributes);
        tree.streaming_enabled = true;
        tree
    }

    /// The node with an identifier.
    pub fn node(&self, node_id: u64) -> (r: Option<&Node>)
        ensures
            match r {
                Some(n) => self.structure().contains_key(node_id) && n@ == self.structure()[node_id],
                None => !self.structure().contains_key(node_id),
            },
    {
        self.nodes.get(node_id)
    }

    /// The number of nodes.
    pub fn num_nodes(&self) -> (r: usize)
        ensures
            r == self.structure().len(),
    {
        assert(self.structure().dom() =~= self.nodes@.dom());
        self.nodes.len()
    }

    /// The identifiers of the inner nodes, in any order.
    pub fn internal_node_ids(&self) -> (r: Vec<u64>)
        ensures
            r@.no_duplicates(),
            forall|id: u64| #[trigger] r@.contains(id) <==> is_inner(self.structure(), id),
    {
        let ghost nodes = self.structure();
        let n: usize = self.nodes.len();
        let ghost order = self.nodes.order();
        let mut list: Vec<u64> = Vec::new();
        let mut i: usize = 0;
        while i < n
            invariant
                i <= n == order.len(),
                order == self.nodes.order(),
                order.no_duplicates(),
                nodes == self.structure(),
                list@.no_duplicates(),
                forall|id: u64| #[trigger]
                    list@.contains(id) <==> is_inner(nodes, id) && order.take(i as int).contains(
                        id,
                    ),
            decreases n - i,
        {
            let id: u64 = self.nodes.key_at(i);
            let node = self.nodes.value_at(i);
            let ghost before = list@;
            let ghost a = order.take(i as int);
            let ghost b = order.take(i as int + 1);
            proof {
                assert(b =~= a.push(id));
                assert(!a.contains(id)) by {
                    if a.contains(id) {
                        let j = a.index_of(id);
                        assert(order[j] == order[i as int]);
                    }
                }
                assert(nodes.contains_key(id) && nodes[id] == node@);
                assert forall|x: u64| b.contains(x) == (a.contains(x) || x == id) by {
                    if a.contains(x) {
                        assert(b[a.index_of(x)] == x);
                    }
                    assert(b[i as int] == id);
                }
            }
            if node.is_internal() {
                list.push(id);
                proof {
                    assert forall|x: u64| list@.contains(x) == (before.contains(x) || x == id) by {
                        if before.contains(x) {
                            assert(list@[before.index_of(x)] == x);
                        }
                        assert(list@[before.len() as int] == id);
                    }
                    assert(!before.contains(id));
                }
            }
            assert forall|x: u64| #[trigger] list@.contains(x) <==> is_inner(nodes, x)
                && b.contains(x) by {
                assert(before.contains(x) <==> is_inner(nodes, x) && a.contains(x));
                assert(b.contains(x) == (a.contains(x) || x == id));
            }
            i = i + 1;
        }
        proof {
            assert(order.take(i as int) =~= order);
            assert forall|id: u64| is_inner(nodes, id) implies order.contains(id) by {
                assert(order.to_set().contains(id));
            }
        }
        list
    }

    /// The tag of an inner node; there is none for a leaf or a missing node.
    pub fn lazy_tag_of(&self, node_id: u64) -> (r: Option<LazyTag>)
        ensures
            r == (if self.structure().contains_key(node_id) {
                self.structure()[node_id].tag()
            } else {
                None
            }),
    {
        match self.nodes.get(node_id) {
            Some(node) => node.lazy_tag(),
            None => None,
        }
    }

    /// The numbers of inner nodes that are clean, dirty, and to be rebuilt.
    pub fn lazy_tag_counts(&self) -> (r: (usize, usize, usize))
        ensures
            r.0 == tagged(self.structure(), LazyTag::Clean).len(),
            r.1 == tagged(self.structure(), LazyTag::Dirty).len(),
            r.2 == tagged(self.structure(), LazyTag::Rebuild).len(),
    {
        let ghost nodes = self.structure();
        let n: usize = self.nodes.len();
        let ghost order = self.nodes.order();
        let mut clean: usize = 0;
        let mut dirty: usize = 0;
        let mut rebuild: usize = 0;
        let mut i: usize = 0;
        proof {
            let none = order.take(0).to_set();
            assert(tagged_among(nodes, none, LazyTag::Clean) =~= Set::<u64>::empty());
            assert(tagged_among(nodes, none, LazyTag::Dirty) =~= Set::<u64>::empty());
            assert(tagged_among(nodes, none, LazyTag::Rebuild) =~= Set::<u64>::empty());
        }
        while i < n
            invariant
                i <= n == order.len(),
                order == self.nodes.order(),
                order.no_duplicates(),
                nodes == self.structure(),
                clean == tagged_among(nodes, order.take(i as int).to_set(), LazyTag::Clean).len(),
                dirty == tagged_among(nodes, order.take(i as int).to_set(), LazyTag::Dirty).len(),
                rebuild == tagged_among(
                    nodes,
                    order.take(i as int).to_set(),
                    LazyTag::Rebuild,
                ).len(),
            decreases n - i,
        {
            let node = self.nodes.value_at(i);
            proof {
                assert(nodes.contains_key(order[i as int]) && nodes[order[i as int]] == node@);
                lemma_tagged_step(nodes, order, i as int, LazyTag::Clean);
                lemma_tagged_step(nodes, order, i as int, LazyTag::Dirty);
                lemma_tagged_step(nodes, order, i as int, LazyTag::Rebuild);
            }
            match node.lazy_tag() {
                Some(tag) => match tag {
                    LazyTag::Clean => {
                        clean = clean + 1;
                    },
                    LazyTag::Dirty => {
                        dirty = dirty + 1;
                    },
                    LazyTag::Rebuild => {
                        rebuild = rebuild + 1;
                    },
                },
                None => {},
            }
            i = i + 1;
        }
        proof {
            assert(order.take(i as int) =~= order);
            assert forall|id: u64| nodes.contains_key(id) implies order.to_set().contains(id) by {}
            assert(tagged_among(nodes, order.to_set(), LazyTag::Clean) =~= tagged(
                nodes,
                LazyTag::Clean,
            ));
            assert(tagged_among(nodes, order.to_set(), LazyTag::Dirty) =~= tagged(
                nodes,
                LazyTag::Dirty,
            ));
            assert(tagged_among(nodes, order.to_set(), LazyTag::Rebuild) =~= tagged(
                nodes,
                LazyTag::Rebuild,
            ));
        }
        (clean, dirty, rebuild)
    }

    /// Puts a tag on a node; a leaf stays as it is. Says whether the node is there.
    pub fn force_lazy_tag_for_test(&mut self, node_id: u64, tag: LazyTag) -> (r: bool)
        requires
            old(self).wf(),
        ensures
            final(self).wf(),
            final(self).same_setting(old(self)),
            final(self).placement() == old(self).placement(),
            final(self).states() == old(self).states(),
            r == old(self).structure().contains_key(node_id),
            final(self).structure() == (if r {
                old(self).structure().insert(node_id, old(self).structure()[node_id].with_tag(tag))
            } else {
                old(self).structure()
            }),
    {
        let ghost nodes = self.structure();
        let present = match self.nodes.get_mut(node_id) {
            Some(node) => {
                node.set_lazy_tag(tag);
                true
            },
            None => false,
        };
        proof {
            let after = self.structure();
            assert(after =~= (if present {
                nodes.insert(node_id, nodes[node_id].with_tag(tag))
            } else {
                nodes
            }));
            assert forall|id: u64| #[trigger] is_inner(after, id) implies is_inner(nodes, id)
                && after[id]->split == nodes[id]->split by {}
            reveal(super::shape::linked);
            assert forall|id: u64| #[trigger] after.contains_key(id) implies {
                &&& id >= 1
                &&& level(id) <= self.config.max_depth
                &&& after[id] is Internal ==> level(id) < self.config.max_depth
                &&& id != crate::node::node_id::ROOT ==> is_inner(after, id / 2)
            } by {
                assert(nodes.contains_key(id));
                if id != crate::node::node_id::ROOT {
                    assert(is_inner(nodes, id / 2));
                }
            }
        }
        present
    }

    /// The number of samples that the tree has learnt and not forgotten.
    pub fn num_samples(&self) -> (r: usize)
        ensures
            r == self.placement().len(),
    {
        self.sample_leaf_map.len()
    }

    /// The number of samples that a node counts.
    pub fn node_sample_count(&self, node_id: u64) -> (r: Option<usize>)
        ensures
            r == (if self.structure().contains_key(node_id) {
                Some(self.structure()[node_id].samples() as usize)
            } else {
                None
            }),
    {
        match self.nodes.get(node_id) {
            Some(node) => Some(node.num_samples() as usize),
            None => None,
        }
    }

    /// The largest number of steps from the root to a node; zero without nodes.
    pub fn depth(&self) -> (r: u32)
        requires
            self.wf(),
        ensures
            forall|id: u64| #[trigger] self.structure().contains_key(id) ==> level(id) <= r,
            if self.structure().dom().is_empty() {
                r == 0
            } else {
                exists|id: u64| #[trigger] self.structure().contains_key(id) && level(id) == r
            },
    {
        let ghost nodes = self.structure();
        let n: usize = self.nodes.len();
        let ghost order = self.nodes.order();
        let mut deepest: u32 = 0;
        let mut i: usize = 0;
        while i < n
            invariant
                self.wf(),
                i <= n == order.len(),
                order == self.nodes.order(),
                nodes == self.structure(),
                forall|j: int| 0 <= j < i ==> level(#[trigger] order[j]) <= deepest,
                i == 0 ==> deepest == 0,
                i > 0 ==> exists|j: int| 0 <= j < i && level(#[trigger] order[j]) == deepest,
                forall|j: int| 0 <= j < i ==> nodes.contains_key(#[trigger] order[j]),
            decreases n - i,
        {
            let id: u64 = self.nodes.key_at(i);
            proof {
                assert(nodes.contains_key(id));
                lemma_linked_at(nodes, self.config.max_depth as int, id);
            }
            let d: u32 = depth(id);
            let ghost was = deepest;
            assert(level(order[i as int]) == d);
            if d > deepest {
                deepest = d;
            }
            proof {
                if i > 0 && deepest == was {
                    let j = choose|j: int| 0 <= j < i && level(#[trigger] order[j]) == was;
                    assert(level(order[j]) == deepest);
                }
            }
            i = i + 1;
        }
        proof {
            assert(nodes.dom() =~= self.nodes@.dom());
            assert forall|id: u64| #[trigger] nodes.contains_key(id) implies level(id)
                <= deepest by {
                assert(order.to_set().contains(id));
                let j = choose|j: int| 0 <= j < order.len() && order[j] == id;
                assert(level(order[j]) <= deepest);
            }
            if n == 0 {
                assert forall|id: u64| !nodes.dom().contains(id) by {
                    if nodes.dom().contains(id) {
                        assert(order.to_set().contains(id));
                    }
                }
                assert(nodes.dom() =~= Set::empty());
            } else {
                let j = choose|j: int| 0 <= j < i && level(#[trigger] order[j]) == deepest;
                assert(nodes.contains_key(order[j]));
                assert(nodes.dom().contains(order[j]));
            }
        }
        deepest
    }

    /// The number of the tree in its forest.
    pub fn index(&self) -> (r: usize)
        ensures
            r == self.number(),
    {
        self.index
    }

    /// Whether some inner node has to be worked on.
    pub fn has_dirty_nodes(&self) -> (r: bool)
        ensures
            r == exists|id: u64| #[trigger]
                self.structure().contains_key(id) && self.structure()[id].pending(),
    {
        let ghost nodes = self.structure();
        let n: usize = self.nodes.len();
        let ghost order = self.nodes.order();
        let mut i: usize = 0;
        while i < n
            invariant
                i <= n == order.len(),
                order == self.nodes.order(),
                nodes == self.structure(),
                forall|j: int|
                    0 <= j < i ==> nodes.contains_key(#[trigger] order[j])
                        && !nodes[order[j]].pending(),
            decreases n - i,
        {
            let node = self.nodes.value_at(i);
            assert(nodes.contains_key(order[i as int]) && nodes[order[i as int]] == node@);
            if node.needs_rebuild() {
                return true;
            }
            i = i + 1;
        }
        assert forall|id: u64| #[trigger] nodes.contains_key(id) implies !nodes[id].pending() by {
            assert(order.to_set().contains(id));
            let j = choose|j: int| 0 <= j < order.len() && order[j] == id;
            assert(!nodes[order[j]].pending());
        }
        false
    }

    /// Whether streaming is on.
    pub fn is_streaming(&self) -> (r: bool)
        ensures
            r == self.streams(),
    {
        self.streaming_enabled
    }

    /// The number of nodes that streaming keeps statistics of.
    pub fn num_streaming_states(&self) -> (r: usize)
        ensures
            r == self.states().len(),
    {
        assert(self.states().dom() =~= self.streaming_states@.dom());
        self.streaming_states.len()
    }
}

} // verus!
