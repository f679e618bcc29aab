//! Splitting a leaf on the spot, as soon as its best split is surely better than the
//! second best.

use super::grow::Plan;
use super::shape::{
    is_inner, lemma_end_path, lemma_linked_at, lemma_room, linked, narrow, routable, Nodes,
};
use super::lazy::unchanged;
use super::stream::{added_by, added_to, lemma_added_suits, Change};
use super::DynFrsTree;
use crate::fraction::Fraction;
use crate::node::node_id::{
    depth, law_level_bounds, law_parent_of_child, left_child, lemma_within_order, level, right_child, ROOT,
};
use crate::node::{LazyTag, Node, NodeView};
use crate::random::draw_seed;
use crate::root::{lemma_root, root_of, square_root};
use crate::sample::{Sample, SampleData};
use crate::split::Split;
use crate::split_stats::{gini, has_risen, is_fine, is_fine_share, risen};
use crate::streaming::{
    best_candidate, runner_up, DelayTag, StateView, StatsView, StreamingNodeState,
};
use crate::table::{IdSet, IdTable};
use vstd::prelude::*;

pub mod laws;

verus! {

/// Whether and when a leaf is split on the spot.
#[derive(Clone, Copy, Debug)]
pub struct HoeffdingConfig {
    /// Whether leaves are split on the spot; otherwise they are only marked.
    pub enabled: bool,
    /// Fewer samples than this are not split.
    pub grace_period: usize,
    /// The natural logarithm of the inverse of the probability that scores are further off
    /// than the bound, in parts of 10^9.
    pub log_inverse_delta: i64,
    /// A bound below this decides between two splits that are as good as equal, in parts of
    /// 10^9.
    pub tau: i64,
}

impl Default for HoeffdingConfig {
    fn default() -> (r: Self)
        ensures
            r == Self::standard(),
    {
        HoeffdingConfig {
            enabled: false,
            grace_period: 200,
            log_inverse_delta: 16_118_095_651,
            tau: 50_000_000,
        }
    }
}

impl HoeffdingConfig {
    /// Leaves are only marked; if they are to be split, then from 200 samples on, with a
    /// probability of 10^-7 and a bound of a twentieth.
    pub open spec fn standard() -> HoeffdingConfig {
        HoeffdingConfig {
            enabled: false,
            grace_period: 200,
            log_inverse_delta: 16_118_095_651,
            tau: 50_000_000,
        }
    }

    /// How far scores of so many samples may be off, in parts of 10^9: the square root of
    /// the logarithm divided by twice the number of samples.
    pub open spec fn bound(&self, n: int) -> int {
        root_of(self.log_inverse_delta * 1_000_000_000 / (2 * n))
    }

    /// Computes how far scores of so many samples may be off.
    pub fn hoeffding_bound(&self, n: u32) -> (r: i64)
        requires
            n > 0,
            self.log_inverse_delta >= 0,
        ensures
            r == self.bound(n as int),
    {
        let over: u128 = self.log_inverse_delta as u128 * 1_000_000_000;
        let twice: u128 = 2 * n as u128;
        let square: u128 = over / twice;
        proof {
            assert(over as int / twice as int <= over) by (nonlinear_arith)
                requires
                    twice > 0,
                    over >= 0,
            ;
            lemma_root(square as int);
            let r = root_of(square as int);
            assert(r < 0x4000_0000_0000_0000) by (nonlinear_arith)
                requires
                    r * r <= square,
                    square < 0x1000_0000_0000_0000_0000_0000_0000_0000,
            ;
        }
        square_root(square) as i64
    }
}

/// Whether the lower one of two scores is lower by more than a bound; or the bound is so
/// small that the two are as good as equal. A missing score is above every other.
pub open spec fn surely_better(
    best: Option<Fraction>,
    second: Option<Fraction>,
    bound: i64,
    tau: i64,
) -> bool {
    match (best, second) {
        (None, _) => false,
        (Some(_), None) => bound < tau,
        (Some(a), Some(b)) => bound < tau || (is_fine_share(a) && is_fine_share(b) && risen(
            b,
            a,
            bound,
        )),
    }
}

/// Whether a leaf with samples of both classes has enough of them, and its best split is
/// surely better than the second best.
pub open spec fn splits_now(
    nodes: Nodes,
    states: Map<u64, StateView>,
    config: HoeffdingConfig,
    leaf: u64,
    best: Option<Fraction>,
    second: Option<Fraction>,
    bound: i64,
) -> bool {
    &&& nodes.contains_key(leaf)
    &&& nodes[leaf] is Leaf
    &&& nodes[leaf].plus() != 0
    &&& nodes[leaf].plus() != nodes[leaf].samples()
    &&& nodes[leaf].samples() > 0
    &&& nodes[leaf].samples() >= config.grace_period
    &&& states.contains_key(leaf)
    &&& surely_better(best, second, bound, config.tau)
}

/// Whether two lists hold, once each, the known ones of some samples that go left and
/// right at a split.
pub open spec fn sorted_out<S: Sample>(
    named: Set<u64>,
    known: Map<u64, &S>,
    split: Split,
    lefts: Seq<u64>,
    rights: Seq<u64>,
) -> bool {
    &&& lefts.no_duplicates()
    &&& rights.no_duplicates()
    &&& forall|sid: u64| #[trigger]
        lefts.contains(sid) <==> named.contains(sid) && known.contains_key(sid)
            && split.routes_left(known[sid].data().values)
    &&& forall|sid: u64| #[trigger]
        rights.contains(sid) <==> named.contains(sid) && known.contains_key(sid)
            && !split.routes_left(known[sid].data().values)
}

/// The number of positive samples of a list.
pub open spec fn positives_in<S: Sample>(known: Map<u64, &S>, list: Seq<u64>) -> nat
    decreases list.len(),
{
    if list.len() == 0 {
        0
    } else {
        positives_in(known, list.drop_last()) + if known[list.last()].data().label {
            1nat
        } else {
            0nat
        }
    }
}

/// The nodes once a leaf has been split.
pub open spec fn leaf_split<S: Sample>(
    nodes: Nodes,
    known: Map<u64, &S>,
    leaf: u64,
    split: Split,
    lefts: Seq<u64>,
    rights: Seq<u64>,
) -> Nodes {
    nodes.insert(
        leaf,
        NodeView::Internal {
            split,
            lazy_tag: LazyTag::Clean,
            num_samples: nodes[leaf].samples(),
            num_plus: nodes[leaf].plus(),
            created_at: 0,
            split_gini: gini(0, 0),
        },
    ).insert(
        (2 * leaf) as u64,
        NodeView::Leaf {
            num_samples: lefts.len() as u32,
            num_plus: positives_in(known, lefts) as u32,
            sample_ids: lefts.to_set(),
        },
    ).insert(
        (2 * leaf + 1) as u64,
        NodeView::Leaf {
            num_samples: rights.len() as u32,
            num_plus: positives_in(known, rights) as u32,
            sample_ids: rights.to_set(),
        },
    )
}

/// The placement once a leaf has been split; samples that are not known are led nowhere.
pub open spec fn placement_split(
    leaves: Map<u64, u64>,
    named: Set<u64>,
    leaf: u64,
    lefts: Seq<u64>,
    rights: Seq<u64>,
) -> Map<u64, u64> {
    Map::new(
        |sid: u64|
            lefts.contains(sid) || rights.contains(sid) || (leaves.contains_key(sid)
                && !named.contains(sid)),
        |sid: u64|
            if rights.contains(sid) {
                (2 * leaf + 1) as u64
            } else if lefts.contains(sid) {
                (2 * leaf) as u64
            } else {
                leaves[sid]
            },
    )
}

/// The state of a leaf that has just come from a split.
pub open spec fn state_split(width: u8, depth: u32, list: Seq<u64>, plus: u32) -> StateView {
    StateView {
        attr_stats: StatsView {
            num_attributes: width,
            total_samples: list.len() as u32,
            total_positive: plus,
            candidates: Seq::empty(),
            constant: Seq::new(width as nat, |i: int| false),
        },
        sample_ids: list,
        split_attr: None,
        split_threshold: 0,
        delay: DelayTag::NoDelay,
        depth,
    }
}

/// What streaming knows once a leaf has been split.
pub open spec fn states_split<S: Sample>(
    states: Map<u64, StateView>,
    width: u8,
    known: Map<u64, &S>,
    leaf: u64,
    attr: u8,
    threshold: i64,
    lefts: Seq<u64>,
    rights: Seq<u64>,
) -> Map<u64, StateView> {
    let above = if states.contains_key(leaf) {
        states.insert(
            leaf,
            StateView {
                split_attr: Some(attr),
                split_threshold: threshold,
                delay: DelayTag::NoDelay,
                sample_ids: Seq::empty(),
                ..states[leaf]
            },
        )
    } else {
        states
    };
    let down = (level(leaf) + 1) as u32;
    above.insert(
        (2 * leaf) as u64,
        state_split(width, down, lefts, positives_in(known, lefts) as u32),
    ).insert(
        (2 * leaf + 1) as u64,
        state_split(width, down, rights, positives_in(known, rights) as u32),
    )
}

/// What a tree becomes when a leaf is split.
pub open spec fn split_on_the_spot<S: Sample>(
    before: DynFrsTree,
    after: DynFrsTree,
    known: Map<u64, &S>,
    leaf: u64,
    attr: u8,
    threshold: i64,
    lefts: Seq<u64>,
    rights: Seq<u64>,
) -> bool {
    let split = Split::Numerical { attribute_index: attr, threshold };
    let named = before.structure()[leaf]->sample_ids;
    &&& sorted_out(named, known, split, lefts, rights)
    &&& after.structure() == leaf_split(before.structure(), known, leaf, split, lefts, rights)
    &&& after.placement() == placement_split(before.placement(), named, leaf, lefts, rights)
    &&& after.states() == (if before.streams() {
        states_split(
            before.states(),
            before.width(),
            known,
            leaf,
            attr,
            threshold,
            lefts,
            rights,
        )
    } else {
        before.states()
    })
}

/// What a tree becomes when the samples of a leaf are divided on the spot, in any order.
pub open spec fn split_there<S: Sample>(
    before: DynFrsTree,
    after: DynFrsTree,
    known: Map<u64, &S>,
    leaf: u64,
    attr: u8,
    threshold: i64,
) -> bool {
    exists|lefts: Seq<u64>, rights: Seq<u64>| #[trigger]
        split_on_the_spot(before, after, known, leaf, attr, threshold, lefts, rights)
}

/// Whether a node is a leaf with room below it.
pub open spec fn has_room_below(nodes: Nodes, max_depth: usize, leaf: u64) -> bool {
    nodes.contains_key(leaf) && nodes[leaf] is Leaf && level(leaf) < max_depth
}

/// Whether every known sample has a value of an attribute.
pub open spec fn all_have<S: Sample>(known: Map<u64, &S>, attr: u8) -> bool {
    forall|sid: u64| #[trigger] known.contains_key(sid) ==> known[sid].data().values.len() > attr
}

/// A split leaf hangs together with the rest of the tree.
proof fn lemma_leaf_split_linked<S: Sample>(
    nodes: Nodes,
    max_depth: int,
    width: u8,
    known: Map<u64, &S>,
    leaf: u64,
    split: Split,
    lefts: Seq<u64>,
    rights: Seq<u64>,
)
    requires
        linked(nodes, max_depth),
        narrow(nodes, width),
        max_depth <= 63,
        nodes.contains_key(leaf),
        nodes[leaf] is Leaf,
        level(leaf) < max_depth,
        split.attribute() < width,
    ensures
        linked(leaf_split(nodes, known, leaf, split, lefts, rights), max_depth),
        narrow(leaf_split(nodes, known, leaf, split, lefts, rights), width),
        forall|plan: Plan|
            plan.suits_all(nodes) && plan.suits(split) ==> #[trigger] plan.suits_all(
                leaf_split(nodes, known, leaf, split, lefts, rights),
            ),
{
    let now = leaf_split(nodes, known, leaf, split, lefts, rights);
    let l = (2 * leaf) as u64;
    let r = (2 * leaf + 1) as u64;
    lemma_linked_at(nodes, max_depth, leaf);
    law_level_bounds(leaf);
    law_parent_of_child(leaf);
    assert(is_inner(now, leaf));
    assert(linked(now, max_depth)) by {
        reveal(linked);
        assert forall|id: u64| #[trigger] now.contains_key(id) implies {
            &&& id >= 1
            &&& level(id) <= max_depth
            &&& now[id] is Internal ==> level(id) < max_depth
            &&& id != ROOT ==> is_inner(now, id / 2)
        } by {
            if id != l && id != r {
                assert(nodes.contains_key(id));
                if id != ROOT {
                    assert(is_inner(nodes, id / 2));
                    assert(id / 2 != leaf);
                    assert(id / 2 != l) by {
                        if id / 2 == l {
                            assert(nodes.contains_key(l));
                            assert(is_inner(nodes, l / 2));
                        }
                    }
                    assert(id / 2 != r) by {
                        if id / 2 == r {
                            assert(nodes.contains_key(r));
                            assert(is_inner(nodes, r / 2));
                        }
                    }
                }
            }
        }
    }
    assert forall|id: u64| #[trigger] is_inner(now, id) implies id == leaf || (is_inner(nodes, id)
        && now[id] == nodes[id]) by {}
    assert forall|plan: Plan|
        plan.suits_all(nodes) && plan.suits(split) implies #[trigger] plan.suits_all(now) by {
        assert forall|id: u64| #[trigger] is_inner(now, id) implies plan.suits(now[id]->split) by {
            if id != leaf {
                assert(is_inner(nodes, id));
            }
        }
    }
}

/// Makes the state of a leaf that has just come from a split.
#[verifier::truncate]
fn state_of_split(width: u8, seed: u64, depth: u32, list: Vec<u64>, plus: u32) -> (r:
    StreamingNodeState)
    ensures
        r@ == state_split(width, depth, list@, plus),
        r.wf(),
{
    let mut state = StreamingNodeState::new(width, seed, depth);
    state.delay = DelayTag::NoDelay;
    state.attr_stats.set_totals(list.len() as u32, plus);
    state.sample_ids = list;
    state
}

/// Collects a list into a set.
fn set_of(list: &Vec<u64>) -> (r: IdSet)
    ensures
        r@ == list@.to_set(),
{
    let mut set = IdSet::new();
    let mut i: usize = 0;
    assert(set@ =~= list@.take(0).to_set());
    while i < list.len()
        invariant
            i <= list@.len(),
            set@ == list@.take(i as int).to_set(),
        decreases list@.len() - i,
    {
        set.insert(list[i]);
        proof {
            let a = list@.take(i as int);
            let b = list@.take(i as int + 1);
            assert(b =~= a.push(list@[i as int]));
            assert forall|x: u64| b.contains(x) == (a.contains(x) || x == list@[i as int]) by {
                if a.contains(x) {
                    assert(b[a.index_of(x)] == x);
                }
                assert(b[i as int] == list@[i as int]);
            }
            assert(set@ =~= b.to_set());
        }
        i = i + 1;
    }
    assert(list@.take(i as int) =~= list@);
    set
}

impl DynFrsTree {
    /// Tells whether a leaf is split now, by the scores of its best split and of the second
    /// best, and a bound on how far scores may be off.
    pub fn hoeffding_should_split(
        &self,
        config: &HoeffdingConfig,
        leaf_id: u64,
        best: Option<Fraction>,
        second: Option<Fraction>,
        bound: i64,
    ) -> (r: bool)
        ensures
            r == splits_now(
                self.structure(),
                self.states(),
                *config,
                leaf_id,
                best,
                second,
                bound,
            ),
    {
        match self.nodes.get(leaf_id) {
            Some(Node::Leaf { num_samples, num_plus, .. }) => {
                if *num_plus == 0 || *num_plus == *num_samples || *num_samples == 0 {
                    return false;
                }
                if (*num_samples as u64) < config.grace_period as u64 {
                    return false;
                }
            },
            _ => {
                return false;
            },
        }
        if !self.streaming_states.contains_key(leaf_id) {
            return false;
        }
        match (best, second) {
            (None, _) => false,
            (Some(_), None) => bound < config.tau,
            (Some(a), Some(b)) => bound < config.tau || (is_fine(a) && is_fine(b) && has_risen(
                b,
                a,
                bound,
            )),
        }
    }

    /// Divides the samples of a leaf by a split. Samples that are not known are led
    /// nowhere.
    fn sort_out<S: Sample>(
        &mut self,
        leaf_id: u64,
        split: &Split,
        sample_map: &IdTable<&S>,
    ) -> (r: (Vec<u64>, Vec<u64>, usize, usize))
        requires
            old(self).wf(),
            old(self).structure().contains_key(leaf_id),
            old(self).structure()[leaf_id] is Leaf,
            *split is Numerical,
            all_have(sample_map@, split.attribute()),
        ensures
            final(self).wf(),
            final(self).same_setting(old(self)),
            final(self).structure() == old(self).structure(),
            final(self).states() == old(self).states(),
            sorted_out(
                old(self).structure()[leaf_id]->sample_ids,
                sample_map@,
                *split,
                r.0@,
                r.1@,
            ),
            r.2 == positives_in(sample_map@, r.0@),
            r.3 == positives_in(sample_map@, r.1@),
            final(self).placement() == old(self).placement().remove_keys(
                old(self).structure()[leaf_id]->sample_ids.difference(sample_map@.dom()),
            ),
    {
        let ghost v = *self;
        let ghost named = self.structure()[leaf_id]->sample_ids;
        let ghost known = sample_map@;
        let mut lefts: Vec<u64> = Vec::new();
        let mut rights: Vec<u64> = Vec::new();
        let mut left_plus: usize = 0;
        let mut right_plus: usize = 0;
        let names = self.names_of(leaf_id);
        let mut i: usize = 0;
        assert(self.placement() =~= v.placement().remove_keys(
            names@.take(0).to_set().difference(known.dom()),
        ));
        while i < names.len()
            invariant
                i <= names@.len(),
                names@.no_duplicates(),
                names@.to_set() == named,
                known == sample_map@,
                *split is Numerical,
                all_have(known, split.attribute()),
                self.wf(),
                self.same_setting(&v),
                self.structure() == v.structure(),
                self.states() == v.states(),
                lefts@.len() + rights@.len() <= i,
                left_plus <= lefts@.len(),
                right_plus <= rights@.len(),
                left_plus == positives_in(known, lefts@),
                right_plus == positives_in(known, rights@),
                sorted_out(names@.take(i as int).to_set(), known, *split, lefts@, rights@),
                self.placement() == v.placement().remove_keys(
                    names@.take(i as int).to_set().difference(known.dom()),
                ),
            decreases names@.len() - i,
        {
            let sid: u64 = names[i];
            let ghost a = names@.take(i as int);
            let ghost b = names@.take(i as int + 1);
            let ghost l0 = lefts@;
            let ghost r0 = rights@;
            proof {
                assert(b =~= a.push(sid));
                assert(!a.contains(sid)) by {
                    if a.contains(sid) {
                        assert(names@[a.index_of(sid)] == names@[i as int]);
                    }
                }
                assert forall|x: u64| #[trigger] b.to_set().contains(x) == (a.to_set().contains(x)
                    || x == sid) by {
                    if a.contains(x) {
                        assert(b[a.index_of(x)] == x);
                    }
                    assert(b[i as int] == sid);
                }
                assert(!l0.contains(sid) && !r0.contains(sid));
            }
            match sample_map.get(sid) {
                Some(sample) => {
                    assert(known[sid].data().values.len() > split.attribute());
                    let label: bool = sample.label();
                    if sample.is_left_of(split) {
                        lefts.push(sid);
                        if label {
                            left_plus = left_plus + 1;
                        }
                        proof {
                            assert(lefts@.drop_last() =~= l0);
                            lemma_pushed(l0, sid);
                        }
                    } else {
                        rights.push(sid);
                        if label {
                            right_plus = right_plus + 1;
                        }
                        proof {
                            assert(rights@.drop_last() =~= r0);
                            lemma_pushed(r0, sid);
                        }
                    }
                    assert(b.to_set().difference(known.dom()) =~= a.to_set().difference(
                        known.dom(),
                    ));
                },
                None => {
                    let _ = self.sample_leaf_map.remove(sid);
                    assert(self.placement() =~= v.placement().remove_keys(
                        b.to_set().difference(known.dom()),
                    ));
                },
            }
            i = i + 1;
        }
        assert(names@.take(i as int) =~= names@);
        (lefts, rights, left_plus, right_plus)
    }

    /// The samples that a leaf names, in any order.
    fn names_of(&self, leaf_id: u64) -> (r: Vec<u64>)
        requires
            self.structure().contains_key(leaf_id),
            self.structure()[leaf_id] is Leaf,
        ensures
            r@.no_duplicates(),
            r@.to_set() == self.structure()[leaf_id]->sample_ids,
            r@.len() == self.structure()[leaf_id]->sample_ids.len(),
    {
        match self.nodes.get(leaf_id) {
            Some(Node::Leaf { sample_ids, .. }) => {
                let n: usize = sample_ids.len();
                let mut list: Vec<u64> = Vec::new();
                while list.len() < n
                    invariant
                        list@.len() <= n == sample_ids.order().len(),
                        list@ == sample_ids.order().take(list@.len() as int),
                    decreases n - list@.len(),
                {
                    list.push(sample_ids.key_at(list.len()));
                    assert(list@ =~= sample_ids.order().take(list@.len() as int));
                }
                assert(list@ =~= sample_ids.order());
                list
            },
            _ => Vec::new(),
        }
    }

    /// Leads listed samples to a node.
    fn lead_to(&mut self, list: &Vec<u64>, to: u64)
        requires
            old(self).wf(),
        ensures
            final(self).wf(),
            final(self).same_setting(old(self)),
            final(self).structure() == old(self).structure(),
            final(self).states() == old(self).states(),
            final(self).placement() == Map::new(
                |sid: u64| list@.contains(sid) || old(self).placement().contains_key(sid),
                |sid: u64|
                    if list@.contains(sid) {
                        to
                    } else {
                        old(self).placement()[sid]
                    },
            ),
    {
        let ghost v = *self;
        let mut i: usize = 0;
        assert(self.placement() =~= Map::new(
            |sid: u64| list@.take(0).contains(sid) || v.placement().contains_key(sid),
            |sid: u64|
                if list@.take(0).contains(sid) {
                    to
                } else {
                    v.placement()[sid]
                },
        ));
        while i < list.len()
            invariant
                i <= list@.len(),
                self.wf(),
                self.same_setting(&v),
                self.structure() == v.structure(),
                self.states() == v.states(),
                self.placement() == Map::new(
                    |sid: u64|
                        list@.take(i as int).contains(sid) || v.placement().contains_key(sid),
                    |sid: u64|
                        if list@.take(i as int).contains(sid) {
                            to
                        } else {
                            v.placement()[sid]
                        },
                ),
            decreases list@.len() - i,
        {
            let sid: u64 = list[i];
            let _ = self.sample_leaf_map.insert(sid, to);
            proof {
                let a = list@.take(i as int);
                let b = list@.take(i as int + 1);
                assert(b =~= a.push(sid));
                lemma_pushed(a, sid);
                assert(self.placement() =~= Map::new(
                    |sid: u64| b.contains(sid) || v.placement().contains_key(sid),
                    |sid: u64|
                        if b.contains(sid) {
                            to
                        } else {
                            v.placement()[sid]
                        },
                ));
            }
            i = i + 1;
        }
        assert(list@.take(i as int) =~= list@);
    }

    /// Splits a leaf on the spot: it becomes an inner node above two leaves that take over
    /// its known samples. Says whether the node is a leaf with room below it; otherwise
    /// nothing happens.
    #[verifier::truncate]
    pub fn perform_hoeffding_split<S: Sample>(
        &mut self,
        leaf_id: u64,
        split_attr: u8,
        threshold: i64,
        sample_map: &IdTable<&S>,
    ) -> (r: bool)
        requires
            old(self).wf(),
            leaf_id >= 1,
            split_attr < old(self).width(),
            all_have(sample_map@, split_attr),
        ensures
            final(self).wf(),
            final(self).same_setting(old(self)),
            forall|plan: Plan|
                plan.suits_all(old(self).structure()) && plan.suits(
                    Split::Numerical { attribute_index: split_attr, threshold },
                ) ==> #[trigger] plan.suits_all(final(self).structure()),
            r == has_room_below(old(self).structure(), old(self).limits().max_depth, leaf_id),
            !r ==> *final(self) == *old(self),
            r ==> split_there(
                *old(self),
                *final(self),
                sample_map@,
                leaf_id,
                split_attr,
                threshold,
            ),
    {
        let steps: u32 = depth(leaf_id);
        if steps as usize >= self.config.max_depth {
            return false;
        }
        let (num_samples, num_plus): (u32, u32) = match self.nodes.get(leaf_id) {
            Some(Node::Leaf { num_samples, num_plus, .. }) => (*num_samples, *num_plus),
            _ => {
                return false;
            },
        };
        let ghost v = *self;
        let ghost known = sample_map@;
        let split = Split::numerical(split_attr, threshold);
        let (lefts, rights, left_plus, right_plus) = self.sort_out(leaf_id, &split, sample_map);
        let ghost named = v.structure()[leaf_id]->sample_ids;
        proof {
            lemma_linked_at(v.structure(), v.config.max_depth as int, leaf_id);
            law_level_bounds(leaf_id);
            law_parent_of_child(leaf_id);
            lemma_leaf_split_linked(
                v.structure(),
                v.config.max_depth as int,
                v.width(),
                known,
                leaf_id,
                split,
                lefts@,
                rights@,
            );
        }
        let left_id: u64 = left_child(leaf_id);
        let right_id: u64 = right_child(leaf_id);
        self.lead_to(&lefts, left_id);
        self.lead_to(&rights, right_id);
        let _ = self.nodes.insert(
            leaf_id,
            Node::internal_full(split, num_samples, num_plus, Fraction { num: 0, den: 1 }),
        );
        let _ = self.nodes.insert(
            left_id,
            Node::leaf_with_samples(lefts.len() as u32, left_plus as u32, set_of(&lefts)),
        );
        let _ = self.nodes.insert(
            right_id,
            Node::leaf_with_samples(rights.len() as u32, right_plus as u32, set_of(&rights)),
        );
        proof {
            assert(self.structure() =~= leaf_split(
                v.structure(),
                known,
                leaf_id,
                split,
                lefts@,
                rights@,
            ));
            assert(self.placement() =~= placement_split(
                v.placement(),
                named,
                leaf_id,
                lefts@,
                rights@,
            ));
        }
        let ghost l = lefts@;
        let ghost r = rights@;
        if self.streaming_enabled {
            let left_seed: u64 = draw_seed(&mut self.rng);
            let right_seed: u64 = draw_seed(&mut self.rng);
            let left_state = state_of_split(
                self.num_attributes,
                left_seed,
                steps + 1,
                lefts,
                left_plus as u32,
            );
            let right_state = state_of_split(
                self.num_attributes,
                right_seed,
                steps + 1,
                rights,
                right_plus as u32,
            );
            match self.streaming_states.get_mut(leaf_id) {
                Some(state) => {
                    state.split_attr = Some(split_attr);
                    state.split_threshold = threshold;
                    state.delay = DelayTag::NoDelay;
                    state.sample_ids = Vec::new();
                    assert(state.sample_ids@ =~= Seq::<u64>::empty());
                },
                None => {},
            }
            let _ = self.streaming_states.insert(left_id, left_state);
            let _ = self.streaming_states.insert(right_id, right_state);
            assert(self.states() =~= states_split(
                v.states(),
                v.width(),
                known,
                leaf_id,
                split_attr,
                threshold,
                l,
                r,
            ));
        }
        assert(split_on_the_spot(
            v,
            *self,
            known,
            leaf_id,
            split_attr,
            threshold,
            l,
            r,
        ));
        true
    }
}

/// The scores by which a leaf is split.
pub open spec fn scores_at(states: Map<u64, StateView>, leaf: u64) -> (
    Option<Fraction>,
    Option<Fraction>,
) {
    if states.contains_key(leaf) {
        let c = states[leaf].attr_stats.candidates;
        (
            match best_candidate(c) {
                Some(b) => Some(b.2),
                None => None,
            },
            runner_up(c),
        )
    } else {
        (None, None)
    }
}

/// What is done at a leaf that a sample has come to: if its best split is surely better, it
/// is split on the spot, or marked for that if its samples are not at hand. Says whether
/// the tree should be worked on.
pub open spec fn seen_at_leaf<S: Sample>(
    before: DynFrsTree,
    after: DynFrsTree,
    config: HoeffdingConfig,
    known: Option<Map<u64, &S>>,
    leaf: u64,
    work: bool,
) -> bool {
    let nodes = before.structure();
    let states = before.states();
    let (best, second) = scores_at(states, leaf);
    let bound = config.bound(nodes[leaf].samples() as int) as i64;
    if !splits_now(nodes, states, config, leaf, best, second, bound) {
        !work && unchanged(before, after)
    } else if !before.streams() {
        work && unchanged(before, after)
    } else {
        let split = best_candidate(states[leaf].attr_stats.candidates)->0;
        match known {
            Some(k) => {
                &&& !work
                &&& if split.0 < before.width() && has_room_below(
                    nodes,
                    before.limits().max_depth,
                    leaf,
                ) {
                    split_there(before, after, k, leaf, split.0, split.1)
                } else {
                    unchanged(before, after)
                }
            },
            None => {
                &&& work
                &&& after.structure() == nodes
                &&& after.placement() == before.placement()
                &&& after.states() == states.insert(
                    leaf,
                    StateView {
                        split_attr: Some(split.0),
                        split_threshold: split.1,
                        delay: DelayTag::NeedsSeparateAndBuild,
                        ..states[leaf]
                    },
                )
            },
        }
    }
}

/// What adding a sample does to a tree whose leaves are split on the spot, if that is
/// enabled, and what it answers.
pub open spec fn added_inline<S: Sample>(
    before: DynFrsTree,
    after: DynFrsTree,
    d: SampleData,
    features: Seq<i64>,
    lazy: bool,
    config: HoeffdingConfig,
    known: Option<Map<u64, &S>>,
    r: (Option<u64>, bool),
) -> bool {
    if config.enabled {
        exists|mid: DynFrsTree, first: (Option<u64>, bool), work: bool| #[trigger]
            inline_steps(before, mid, after, d, features, lazy, config, known, first, r, work)
    } else {
        added_to(before, after, d, features, lazy, r)
    }
}

/// What adding a sample does to a tree whose leaves are split on the spot: what happens on
/// the way, and what happens at the leaf.
pub open spec fn inline_steps<S: Sample>(
    before: DynFrsTree,
    mid: DynFrsTree,
    after: DynFrsTree,
    d: SampleData,
    features: Seq<i64>,
    lazy: bool,
    config: HoeffdingConfig,
    known: Option<Map<u64, &S>>,
    first: (Option<u64>, bool),
    r: (Option<u64>, bool),
    work: bool,
) -> bool {
    let c = Change {
        id: d.id,
        route: d.values,
        values: features,
        label: d.label,
        lazy,
        inline: true,
    };
    &&& added_by(before, mid, d, c, first)
    &&& mid.same_setting(&before)
    &&& r.0 == first.0
    &&& r.1 == (first.1 || work)
    &&& if before.structure().dom().is_empty() || first.0 is None {
        !work && unchanged(mid, after)
    } else {
        seen_at_leaf(mid, after, config, known, first.0->0, work)
    }
}

impl DynFrsTree {
    /// Splits a leaf on the spot if its best split is surely better than the second best.
    /// Says whether the tree should be worked on.
    fn look_at_leaf<S: Sample>(
        &mut self,
        config: &HoeffdingConfig,
        leaf_id: u64,
        sample_map: Option<&IdTable<&S>>,
    ) -> (r: bool)
        requires
            old(self).wf(),
            leaf_id >= 1,
            config.log_inverse_delta >= 0,
            sample_map is Some ==> all_known_wide(sample_map->0@, old(self).width()),
        ensures
            final(self).wf(),
            final(self).same_setting(old(self)),
            forall|plan: Plan|
                plan.width == old(self).width() && plan.width <= plan.types.len()
                    && plan.suits_all(old(self).structure()) ==> #[trigger] plan.suits_all(
                    final(self).structure(),
                ),
            seen_at_leaf(
                *old(self),
                *final(self),
                *config,
                match sample_map {
                    Some(map) => Some(map@),
                    None => None,
                },
                leaf_id,
                r,
            ),
    {
        let n: u32 = match self.nodes.get(leaf_id) {
            Some(node) => node.num_samples(),
            None => {
                return false;
            },
        };
        let (best, second) = match self.streaming_states.get(leaf_id) {
            Some(state) => state.attr_stats.top_two_splits(),
            None => {
                return false;
            },
        };
        let (attr, threshold, score): (u8, i64, Fraction) = match best {
            Some(b) => b,
            None => {
                return false;
            },
        };
        if n == 0 {
            return false;
        }
        let bound: i64 = config.hoeffding_bound(n);
        if !self.hoeffding_should_split(config, leaf_id, Some(score), second, bound) {
            return false;
        }
        if !self.streaming_enabled {
            return true;
        }
        let ghost v = *self;
        assert(best_candidate(v.states()[leaf_id].attr_stats.candidates) == Some(
            (attr, threshold, score),
        ));
        assert(scores_at(v.states(), leaf_id) == (Some(score), second));
        assert(splits_now(
            v.structure(),
            v.states(),
            *config,
            leaf_id,
            Some(score),
            second,
            config.bound(v.structure()[leaf_id].samples() as int) as i64,
        ));
        match sample_map {
            Some(map) => {
                if attr < self.num_attributes {
                    let _ = self.perform_hoeffding_split(leaf_id, attr, threshold, map);
                }
                assert(seen_at_leaf(v, *self, *config, Some(map@), leaf_id, false));
                false
            },
            None => {
                match self.streaming_states.get_mut(leaf_id) {
                    Some(state) => {
                        state.split_attr = Some(attr);
                        state.split_threshold = threshold;
                        state.delay = DelayTag::NeedsSeparateAndBuild;
                    },
                    None => {},
                }
                assert(self.states() =~= v.states().insert(
                    leaf_id,
                    StateView {
                        split_attr: Some(attr),
                        split_threshold: threshold,
                        delay: DelayTag::NeedsSeparateAndBuild,
                        ..v.states()[leaf_id]
                    },
                ));
                assert(seen_at_leaf(v, *self, *config, None::<Map<u64, &S>>, leaf_id, true));
                true
            },
        }
    }
}

/// Whether every known sample has a value for each attribute.
pub open spec fn all_known_wide<S: Sample>(known: Map<u64, &S>, width: u8) -> bool {
    forall|sid: u64| #[trigger]
        known.contains_key(sid) ==> known[sid].data().values.len() >= width
}

impl DynFrsTree {
    /// Leads a sample to the leaf where it ends, counts it on the way and keeps the
    /// statistics of the nodes up to date. If leaves are split on the spot and the best
    /// split of this one is surely better than the second best, it is split; where the
    /// samples are not at hand, it is marked. If leaves are not split on the spot, a leaf
    /// with enough samples of both classes is marked. Says which leaf it is, and whether
    /// the tree should be worked on.
    pub fn add_sample_streaming_hoeffding<S: Sample, K: Sample>(
        &mut self,
        sample: &S,
        features: &[i64],
        use_lazy_rebuild: bool,
        sample_map: Option<&IdTable<&K>>,
    ) -> (r: (Option<u64>, bool))
        requires
            old(self).wf(),
            routable(old(self).structure(), sample.data().values),
            old(self).limits().hoeffding.log_inverse_delta >= 0,
            sample_map is Some ==> all_known_wide(sample_map->0@, old(self).width()),
        ensures
            final(self).wf(),
            final(self).same_setting(old(self)),
            forall|plan: Plan|
                plan.width == old(self).width() && plan.width <= plan.types.len()
                    && plan.suits_all(old(self).structure()) ==> #[trigger] plan.suits_all(
                    final(self).structure(),
                ),
            added_inline(
                *old(self),
                *final(self),
                sample.data(),
                features@,
                use_lazy_rebuild,
                old(self).limits().hoeffding,
                match sample_map {
                    Some(map) => Some(map@),
                    None => None,
                },
                r,
            ),
    {
        let ghost v = *self;
        let ghost d = sample.data();
        let config = self.config.hoeffding;
        if !config.enabled {
            let r = self.add_sample_streaming(sample, features, use_lazy_rebuild);
            proof {
                let plain = Change {
                    id: d.id,
                    route: d.values,
                    values: features@,
                    label: d.label,
                    lazy: use_lazy_rebuild,
                    inline: false,
                };
                lemma_inline_suits(v, *self, d, plain, r);
            }
            return r;
        }
        let ghost c = Change {
            id: d.id,
            route: d.values,
            values: features@,
            label: d.label,
            lazy: use_lazy_rebuild,
            inline: true,
        };
        let ghost known: Option<Map<u64, &K>> = match sample_map {
            Some(map) => Some(map@),
            None => None,
        };
        if self.nodes.is_empty() {
            assert(self.structure().dom() =~= self.nodes@.dom());
            let r = self.create_initial_leaf_streaming(sample);
            proof {
                assert(added_by(v, *self, d, c, r));
                lemma_inline_suits(v, *self, d, c, r);
                assert(unchanged(*self, *self));
                assert(inline_steps(
                    v,
                    *self,
                    *self,
                    d,
                    features@,
                    use_lazy_rebuild,
                    config,
                    known,
                    r,
                    r,
                    false,
                ));
            }
            return r;
        }
        let streams: bool = self.streaming_enabled;
        let first = self.descend(sample, features, use_lazy_rebuild, streams, true, Ghost(c));
        let ghost mid = *self;
        proof {
            assert(v.structure().dom() =~= v.nodes@.dom());
            assert(added_by(v, mid, d, c, first));
            lemma_inline_suits(v, mid, d, c, first);
        }
        match first.0 {
            Some(leaf) => {
                proof {
                    lemma_room(v.structure(), v.config.max_depth as int);
                    lemma_end_path(v.structure(), d.values, ROOT, leaf);
                    lemma_within_order(leaf, ROOT);
                }
                let work: bool = self.look_at_leaf(&config, leaf, sample_map);
                assert(inline_steps(
                    v,
                    mid,
                    *self,
                    d,
                    features@,
                    use_lazy_rebuild,
                    config,
                    known,
                    first,
                    (Some(leaf), first.1 || work),
                    work,
                ));
                (Some(leaf), first.1 || work)
            },
            None => {
                assert(inline_steps(
                    v,
                    mid,
                    *self,
                    d,
                    features@,
                    use_lazy_rebuild,
                    config,
                    known,
                    first,
                    first,
                    false,
                ));
                first
            },
        }
    }
}

/// A tree that has learnt a sample suits what it suited before.
proof fn lemma_inline_suits(
    before: DynFrsTree,
    after: DynFrsTree,
    d: SampleData,
    c: Change,
    r: (Option<u64>, bool),
)
    requires
        added_by(before, after, d, c, r),
    ensures
        forall|plan: Plan|
            plan.suits_all(before.structure()) ==> #[trigger] plan.suits_all(after.structure()),
{
    assert forall|plan: Plan|
        plan.suits_all(before.structure()) implies #[trigger] plan.suits_all(after.structure()) by {
        lemma_added_suits(before, after, plan, d, c, r);
    }
}

/// A list with one more entry.
proof fn lemma_pushed(list: Seq<u64>, x: u64)
    ensures
        forall|y: u64| #[trigger] list.push(x).contains(y) == (list.contains(y) || y == x),
        list.no_duplicates() && !list.contains(x) ==> list.push(x).no_duplicates(),
{
    let more = list.push(x);
    assert forall|y: u64| #[trigger] more.contains(y) == (list.contains(y) || y == x) by {
        if list.contains(y) {
            assert(more[list.index_of(y)] == y);
        }
        assert(more[list.len() as int] == x);
        if more.contains(y) && y != x {
            assert(list[more.index_of(y)] == y);
        }
    }
}

} // verus!
