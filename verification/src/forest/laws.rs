//! What learning and forgetting do to a forest as a whole.

use super::learn::{
    classes_of, fitted_with, forest_fitted, forgot, learnt, learnt_by, members_of, part_of,
    tree_fitted,
};
use super::develop::{forest_developed, plan_at, trees_developed};
use super::stream::{learnt_all, learnt_count, learnt_each, work_count};
use super::unlearn::{
    features_of, forgot_known, forgot_known_all, forgot_known_each, tree_forgot,
};
use super::vote::{asked, asked_each, ballots, decision, forest_asked, yeas};
use super::{blank, DynFrsForest};
use crate::node::node_id::{MAX_PARENT, ROOT};
use crate::sample::{ids, Rows, Sample, SampleData, VecSample};
use crate::tree::laws::{
    law_first_sample, law_tree_forgets_exactly, law_tree_learns_exactly, lemma_full_leads,
    represents,
};
use crate::tree::collect::by_id;
use crate::tree::develop::developed;
use crate::tree::grow::{fitted, Plan};
use crate::tree::lazy::{answered, first_pending, unchanged};
use crate::tree::retrain::{fruitful, knows, law_development_is_exact};
use crate::tree::settle::{law_lazy_answer_is_retrained, settled};
use crate::tree::shape::{
    arrivals, distinct, end_of, full, is_inner, law_exact_unlearning, lemma_same_splits, same_splits, vote,
    Nodes,
};
use crate::tree::stream::{add_answer, nodes_added, remove_answer, removed_from, Change};
use crate::tree::unlearn::law_forgetting_by_id_is_exact;
use crate::tree::DynFrsTree;
use vstd::multiset::Multiset;
use vstd::prelude::*;

verus! {

/// Whether a collection holds, once each, the samples that are put into a tree.
pub open spec fn holds_part(
    m: Rows,
    data: Map<u64, SampleData>,
    members: Map<u64, Seq<usize>>,
    t: usize,
) -> bool {
    forall|d: SampleData| #[trigger]
        m.count(d) == (if data.contains_key(d.id) && data[d.id] == d && members.contains_key(d.id)
            && members[d.id].contains(t) {
            1nat
        } else {
            0nat
        })
}

/// Whether a forest represents samples: every tree counts exactly those that are put into
/// it, and leads each of them to its leaf.
pub open spec fn forest_represents(
    forest: DynFrsForest,
    data: Map<u64, SampleData>,
    parts: Seq<Rows>,
) -> bool {
    &&& data.dom() == forest.members().dom()
    &&& data.dom() == forest.classes().dom()
    &&& forall|id: u64| #[trigger]
        data.contains_key(id) ==> data[id].id == id && data[id].label == forest.classes()[id]
    &&& parts.len() == forest.forest().len()
    &&& forall|t: usize|
        t < parts.len() ==> {
            &&& holds_part(#[trigger] parts[t as int], data, forest.members(), t)
            &&& represents(
                forest.forest()[t as int].structure(),
                forest.forest()[t as int].placement(),
                parts[t as int],
            )
        }
}

/// Whether every inner node of every tree of a forest has its children, so that every row
/// ends at a leaf.
pub open spec fn full_forest(forest: DynFrsForest) -> bool {
    forall|t: int|
        0 <= t < forest.forest().len() ==> full((#[trigger] forest.forest()[t]).structure())
}

/// Whether a row ends at a leaf in every tree of a forest that has nodes.
pub open spec fn ends_everywhere(forest: DynFrsForest, values: Seq<i64>) -> bool {
    forall|t: int|
        0 <= t < forest.forest().len() ==> {
            let nodes = (#[trigger] forest.forest()[t]).structure();
            !nodes.dom().is_empty() ==> nodes.contains_key(end_of(nodes, values, ROOT))
        }
}

/// A collection in which everything occurs once under its own identifier has no two
/// samples with the same one.
pub proof fn lemma_part_distinct(
    m: Rows,
    data: Map<u64, SampleData>,
    members: Map<u64, Seq<usize>>,
    t: usize,
)
    requires
        holds_part(m, data, members, t),
    ensures
        distinct(m),
        forall|id: u64| #[trigger]
            ids(m).contains(id) ==> data.contains_key(id),
{
    assert forall|id: u64| #[trigger] ids(m).contains(id) implies data.contains_key(id) by {
        let d = choose|d: SampleData| m.count(d) > 0 && #[trigger] d.id == id;
        assert(m.count(d) > 0);
    }
}

/// A forest that represents samples represents those without one of them after that one
/// has been forgotten.
pub proof fn law_forest_forgets_exactly(
    before: DynFrsForest,
    after: DynFrsForest,
    data: Map<u64, SampleData>,
    parts: Seq<Rows>,
    id: u64,
    features: Seq<i64>,
    lazy: bool,
)
    requires
        forest_represents(before, data, parts),
        data.contains_key(id),
        forgot(before, after, id, features, lazy),
        before.forest().len() <= usize::MAX,
    ensures
        exists|rest: Seq<Rows>| #[trigger] forest_represents(after, data.remove(id), rest),
        !after.members().contains_key(id),
        full_forest(before) ==> full_forest(after),
{
    let d = data[id];
    assert(before.members().contains_key(id)) by {
        assert(before.members().dom().contains(id) == data.dom().contains(id));
    }
    assert forall|t: usize| t < parts.len() implies if before.members()[id].contains(t) {
        represents(
            (#[trigger] after.forest()[t as int]).structure(),
            after.forest()[t as int].placement(),
            parts[t as int].remove(data[id]),
        ) && (full(before.forest()[t as int].structure()) ==> full(
            after.forest()[t as int].structure(),
        ))
    } else {
        after.forest()[t as int] == before.forest()[t as int]
    } by {
        let m = parts[t as int];
        assert(holds_part(m, data, before.members(), t));
        let tree = before.forest()[t as int];
        let gone = after.forest()[t as int];
        if before.members()[id].contains(t) {
            assert(m.count(d) == 1);
            assert(removed_from(
                tree,
                gone,
                id,
                features,
                before.classes()[id],
                lazy,
                remove_answer(tree, id, features, before.classes()[id], lazy),
            ));
            assert(ids(m).contains(id)) by {
                assert(m.count(d) > 0 && d.id == id);
            }
            assert(tree.placement().contains_key(id)) by {
                assert(tree.placement().dom().contains(id));
            }
            let c = Change {
                id,
                route: features,
                values: features,
                label: before.classes()[id],
                lazy,
                inline: false,
            };
            law_tree_forgets_exactly(
                tree.structure(),
                tree.states(),
                tree.streams(),
                tree.placement(),
                m,
                d,
                c,
            );
        }
    }
    lemma_forest_without(before, after, data, parts, id);
    if full_forest(before) {
        assert forall|t: int| 0 <= t < after.forest().len() implies full(
            (#[trigger] after.forest()[t]).structure(),
        ) by {
            let u = t as usize;
            assert(after.forest()[u as int] == after.forest()[t]);
            assert(full(before.forest()[t].structure()));
        }
    }
}

/// A forest whose trees have let one sample go represents the others.
proof fn lemma_forest_without(
    before: DynFrsForest,
    after: DynFrsForest,
    data: Map<u64, SampleData>,
    parts: Seq<Rows>,
    id: u64,
)
    requires
        forest_represents(before, data, parts),
        data.contains_key(id),
        after.members() == before.members().remove(id),
        after.classes() == before.classes().remove(id),
        after.forest().len() == before.forest().len(),
        forall|t: usize|
            t < parts.len() ==> if before.members()[id].contains(t) {
                represents(
                    (#[trigger] after.forest()[t as int]).structure(),
                    after.forest()[t as int].placement(),
                    parts[t as int].remove(data[id]),
                )
            } else {
                after.forest()[t as int] == before.forest()[t as int]
            },
    ensures
        exists|rest: Seq<Rows>| #[trigger] forest_represents(after, data.remove(id), rest),
{
    let d = data[id];
    let list = before.members()[id];
    let rest = Seq::new(
        parts.len(),
        |t: int|
            if list.contains(t as usize) {
                parts[t].remove(d)
            } else {
                parts[t]
            },
    );
    let less = data.remove(id);
    assert(before.members().contains_key(id)) by {
        assert(before.members().dom().contains(id) == data.dom().contains(id));
    }
    assert(less.dom() =~= after.members().dom());
    assert(less.dom() =~= after.classes().dom());
    assert forall|t: usize| t < rest.len() implies {
        &&& holds_part(#[trigger] rest[t as int], less, after.members(), t)
        &&& represents(
            after.forest()[t as int].structure(),
            after.forest()[t as int].placement(),
            rest[t as int],
        )
    } by {
        let m = parts[t as int];
        assert(holds_part(m, data, before.members(), t));
        let gone = after.forest()[t as int];
        if list.contains(t) {
            assert(m.count(d) == 1);
        }
        assert forall|x: SampleData| #[trigger] rest[t as int].count(x) == (
        if less.contains_key(x.id) && less[x.id] == x && after.members().contains_key(x.id)
            && after.members()[x.id].contains(t) {
            1nat
        } else {
            0nat
        }) by {
            assert(m.count(x) == m.count(x));
        }
    }
    assert(forest_represents(after, less, rest));
}

/// A forest that represents samples represents those without one of them after that one
/// has been forgotten by its identifier, whether its features are known or not.
pub proof fn law_forest_forgets_by_id_exactly(
    before: DynFrsForest,
    after: DynFrsForest,
    data: Map<u64, SampleData>,
    parts: Seq<Rows>,
    id: u64,
    features: Option<Seq<i64>>,
)
    requires
        forest_represents(before, data, parts),
        data.contains_key(id),
        forgot_known(before, after, id, features),
        before.forest().len() <= usize::MAX,
    ensures
        exists|rest: Seq<Rows>| #[trigger] forest_represents(after, data.remove(id), rest),
        !after.members().contains_key(id),
        full_forest(before) ==> full_forest(after),
{
    let d = data[id];
    assert(before.members().contains_key(id)) by {
        assert(before.members().dom().contains(id) == data.dom().contains(id));
    }
    assert forall|t: usize| t < parts.len() implies if before.members()[id].contains(t) {
        represents(
            (#[trigger] after.forest()[t as int]).structure(),
            after.forest()[t as int].placement(),
            parts[t as int].remove(data[id]),
        ) && (full(before.forest()[t as int].structure()) ==> full(
            after.forest()[t as int].structure(),
        ))
    } else {
        after.forest()[t as int] == before.forest()[t as int]
    } by {
        let m = parts[t as int];
        assert(holds_part(m, data, before.members(), t));
        let tree = before.forest()[t as int];
        let gone = after.forest()[t as int];
        if before.members()[id].contains(t) {
            assert(tree_forgot(tree, gone, id, features, before.classes()[id]));
            assert(m.count(d) == 1);
            assert(ids(m).contains(id)) by {
                assert(m.count(d) > 0 && d.id == id);
            }
            assert(tree.placement().contains_key(id)) by {
                assert(tree.placement().dom().contains(id));
            }
            if features is Some && tree.streams() {
                let c = Change {
                    id,
                    route: features->0,
                    values: features->0,
                    label: before.classes()[id],
                    lazy: true,
                    inline: false,
                };
                law_tree_forgets_exactly(
                    tree.structure(),
                    tree.states(),
                    tree.streams(),
                    tree.placement(),
                    m,
                    d,
                    c,
                );
            } else {
                law_forgetting_by_id_is_exact(
                    tree.structure(),
                    tree.placement(),
                    tree.limits(),
                    m,
                    d,
                );
            }
        }
    }
    lemma_forest_without(before, after, data, parts, id);
    if full_forest(before) {
        assert forall|t: int| 0 <= t < after.forest().len() implies full(
            (#[trigger] after.forest()[t]).structure(),
        ) by {
            let u = t as usize;
            assert(after.forest()[u as int] == after.forest()[t]);
            assert(full(before.forest()[t].structure()));
        }
    }
}

/// What is left of a sample that a forest does not represent: nothing. No tree has a place
/// for it, and no leaf names it.
proof fn lemma_nothing_left(
    forest: DynFrsForest,
    data: Map<u64, SampleData>,
    parts: Seq<Rows>,
    id: u64,
)
    requires
        forest_represents(forest, data, parts),
        !data.contains_key(id),
        forest.forest().len() <= usize::MAX,
    ensures
        nowhere(forest, id),
{
    assert forall|t: int| 0 <= t < forest.forest().len() implies !(
    #[trigger] forest.forest()[t]).placement().contains_key(id) && !named(
        forest.forest()[t].structure(),
        id,
    ) by {
        let u = t as usize;
        let tree = forest.forest()[t];
        let m = parts[u as int];
        assert(holds_part(m, data, forest.members(), u));
        assert(represents(tree.structure(), tree.placement(), m));
        lemma_part_distinct(m, data, forest.members(), u);
        assert(!ids(m).contains(id));
        assert(!tree.placement().dom().contains(id));
        let nodes = tree.structure();
        assert forall|node: u64| #[trigger]
            nodes.contains_key(node) && nodes[node] is Leaf implies !nodes[node]->sample_ids.contains(
            id,
        ) by {
            let there = arrivals(nodes, m, ROOT, node);
            if ids(there).contains(id) {
                let d = choose|d: SampleData| there.count(d) > 0 && #[trigger] d.id == id;
                assert(there.count(d) > 0);
                assert(m.count(d) > 0);
            }
        }
    }
}

/// Whether a leaf names a sample.
pub open spec fn named(nodes: Nodes, id: u64) -> bool {
    exists|node: u64| #[trigger]
        nodes.contains_key(node) && nodes[node] is Leaf && nodes[node]->sample_ids.contains(id)
}

/// Whether no tree of a forest holds a sample: none has a place for it, and no leaf names
/// it.
pub open spec fn nowhere(forest: DynFrsForest, id: u64) -> bool {
    forall|t: int|
        0 <= t < forest.forest().len() ==> !(#[trigger] forest.forest()[t]).placement().contains_key(
            id,
        ) && !named(forest.forest()[t].structure(), id)
}

/// Whether a forest has let a sample go: nothing is kept of it, no tree holds it, and the
/// other samples are in the trees in which they were.
pub open spec fn let_go(before: DynFrsForest, after: DynFrsForest, id: u64) -> bool {
    &&& !after.members().contains_key(id)
    &&& !after.classes().contains_key(id)
    &&& nowhere(after, id)
    &&& after.members().len() == before.members().len() - 1
    &&& forall|other: u64|
        other != id ==> #[trigger] after.members().contains_key(other)
            == before.members().contains_key(other) && (before.members().contains_key(other)
            ==> after.members()[other] == before.members()[other])
}

/// Whether nothing has happened to the samples and the trees of a forest.
pub open spec fn at_rest(before: DynFrsForest, after: DynFrsForest) -> bool {
    &&& after.members() == before.members()
    &&& after.classes() == before.classes()
    &&& after.forest() == before.forest()
    &&& after.tuning() == before.tuning()
}

/// A sample that is forgotten is gone from the forest: nothing is kept of it, no tree holds
/// it, and the other samples stay where they are. Forgetting it once more, or forgetting a
/// sample that the forest does not have, changes nothing.
pub proof fn law_forgotten_is_gone(
    before: DynFrsForest,
    after: DynFrsForest,
    data: Map<u64, SampleData>,
    parts: Seq<Rows>,
    id: u64,
    features: Seq<i64>,
    lazy: bool,
)
    requires
        forest_represents(before, data, parts),
        data.dom().finite(),
        before.forest().len() <= usize::MAX,
        forgot(before, after, id, features, lazy),
    ensures
        before.members().contains_key(id) ==> let_go(before, after, id),
        !before.members().contains_key(id) ==> at_rest(before, after) && nowhere(after, id),
        forall|again: DynFrsForest, more: Seq<i64>, later: bool| #[trigger]
            forgot(after, again, id, more, later) ==> at_rest(after, again),
{
    assert(before.members().dom().contains(id) == data.dom().contains(id));
    assert(before.classes().dom().contains(id) == data.dom().contains(id));
    if before.members().contains_key(id) {
        law_forest_forgets_exactly(before, after, data, parts, id, features, lazy);
        let rest = choose|rest: Seq<Rows>| #[trigger]
            forest_represents(after, data.remove(id), rest);
        lemma_nothing_left(after, data.remove(id), rest, id);
        assert(before.members().dom().finite());
    } else {
        lemma_nothing_left(before, data, parts, id);
    }
}

/// A sample that is forgotten by its identifier is gone from the forest, whether its
/// features are known or not. Forgetting it once more, or forgetting a sample that the
/// forest does not have, changes nothing.
pub proof fn law_forgotten_by_id_is_gone(
    before: DynFrsForest,
    after: DynFrsForest,
    data: Map<u64, SampleData>,
    parts: Seq<Rows>,
    id: u64,
    features: Option<Seq<i64>>,
)
    requires
        forest_represents(before, data, parts),
        data.dom().finite(),
        before.forest().len() <= usize::MAX,
        forgot_known(before, after, id, features),
    ensures
        before.members().contains_key(id) ==> let_go(before, after, id),
        !before.members().contains_key(id) ==> at_rest(before, after) && nowhere(after, id),
        forall|again: DynFrsForest, more: Option<Seq<i64>>| #[trigger]
            forgot_known(after, again, id, more) ==> at_rest(after, again),
{
    assert(before.members().dom().contains(id) == data.dom().contains(id));
    assert(before.classes().dom().contains(id) == data.dom().contains(id));
    if before.members().contains_key(id) {
        law_forest_forgets_by_id_exactly(before, after, data, parts, id, features);
        let rest = choose|rest: Seq<Rows>| #[trigger]
            forest_represents(after, data.remove(id), rest);
        lemma_nothing_left(after, data.remove(id), rest, id);
        assert(before.members().dom().finite());
    } else {
        lemma_nothing_left(before, data, parts, id);
    }
}

/// A forest that represents samples still represents them after the marked nodes have been
/// worked on, if all its samples are at hand. Where every node that was due had samples,
/// every inner node still has its children.
pub proof fn law_forest_development_is_exact(
    before: DynFrsForest,
    after: DynFrsForest,
    samples: Seq<VecSample>,
    data: Map<u64, SampleData>,
    parts: Seq<Rows>,
    position: u64,
    max_age: Option<u64>,
)
    requires
        before.wf(),
        after.wf(),
        forest_represents(before, data, parts),
        forall|t: int| 0 <= t < parts.len() ==> (#[trigger] parts[t]).len() <= u32::MAX,
        forest_developed(before, after, samples, position, max_age),
        forall|i: int|
            0 <= i < samples.len() ==> data.contains_key((#[trigger] samples[i]).id)
                && data[samples[i].id] == samples[i].data(),
        forall|id: u64| #[trigger]
            data.contains_key(id) ==> exists|i: int|
                0 <= i < samples.len() && (#[trigger] samples[i]).id == id,
    ensures
        forest_represents(after, data, parts),
        full_forest(before) && (forall|t: int|
            0 <= t < parts.len() ==> fruitful(
                (#[trigger] before.forest()[t]).structure(),
                position,
                max_age,
                ROOT,
            )) ==> full_forest(after),
{
    if samples.len() > 0 {
        let known = choose|known: Map<u64, &VecSample>| #[trigger]
            by_id(samples, known) && trees_developed(
                before,
                after,
                known,
                position,
                max_age,
                before.forest().len() as int,
            );
        assert forall|t: usize| t < parts.len() implies holds_part(
            #[trigger] parts[t as int],
            data,
            after.members(),
            t,
        ) && represents(
            after.forest()[t as int].structure(),
            after.forest()[t as int].placement(),
            parts[t as int],
        ) && (full(before.forest()[t as int].structure()) && fruitful(
            before.forest()[t as int].structure(),
            position,
            max_age,
            ROOT,
        ) ==> full(after.forest()[t as int].structure())) by {
            let m = parts[t as int];
            let tree = before.forest()[t as int];
            assert(before.fits_in(tree, t as int));
            assert(after.fits_in(after.forest()[t as int], t as int));
            assert(holds_part(m, data, before.members(), t));
            assert(represents(tree.structure(), tree.placement(), m));
            assert(knows(known, m)) by {
                assert forall|d: SampleData| #[trigger] m.count(d) > 0 implies known.contains_key(d.id)
                    && known[d.id].data() == d by {
                    assert(data.contains_key(d.id) && data[d.id] == d);
                    let i = choose|i: int| 0 <= i < samples.len() && (#[trigger] samples[i]).id == d.id;
                    assert(samples[i].data().id == d.id);
                    assert(known.contains_key(d.id));
                    let j = choose|j: int|
                        {
                            &&& 0 <= j < samples.len()
                            &&& #[trigger] samples[j].data().id == d.id
                            &&& *known[d.id] == samples[j]
                            &&& forall|k: int| j < k < samples.len() ==> samples[k].data().id != d.id
                        };
                    assert(samples[j].id == d.id);
                    assert(data[samples[j].id] == samples[j].data());
                }
            }
            assert(developed(
                tree,
                after.forest()[t as int],
                plan_at(before, position),
                known,
                ROOT,
                max_age,
            ));
            law_development_is_exact(
                tree,
                after.forest()[t as int],
                plan_at(before, position),
                known,
                max_age,
                m,
                ROOT,
            );
        }
        if full_forest(before) && (forall|t: int|
            0 <= t < parts.len() ==> fruitful(
                (#[trigger] before.forest()[t]).structure(),
                position,
                max_age,
                ROOT,
            )) {
            assert forall|t: int| 0 <= t < after.forest().len() implies full(
                (#[trigger] after.forest()[t]).structure(),
            ) by {
                let u = t as usize;
                assert(parts[u as int] == parts[t]);
                assert(full(before.forest()[t].structure()));
            }
        }
    }
}

/// A forest that represents samples represents those and a new one after the new one has
/// been learnt, if the new one ends at a leaf in every tree.
pub proof fn law_forest_learns_exactly(
    before: DynFrsForest,
    after: DynFrsForest,
    data: Map<u64, SampleData>,
    parts: Seq<Rows>,
    sample: VecSample,
    lazy: bool,
    r: (bool, bool),
)
    requires
        before.wf(),
        forest_represents(before, data, parts),
        !data.contains_key(sample.id),
        ends_everywhere(before, sample.data().values),
        forall|t: int| 0 <= t < parts.len() ==> (#[trigger] parts[t]).len() < u32::MAX,
        learnt(before, after, sample, lazy, r),
    ensures
        exists|more: Seq<Rows>| #[trigger]
            forest_represents(after, data.insert(sample.id, sample.data()), more),
        r.0,
        full_forest(before) ==> full_forest(after),
{
    let d = sample.data();
    let id = sample.id;
    assert(!before.members().contains_key(id)) by {
        assert(before.members().dom().contains(id) == data.dom().contains(id));
    }
    let chosen = choose|chosen: Seq<usize>| #[trigger]
        learnt_by(before, after, sample, lazy, r, chosen);
    let more = Seq::new(
        parts.len(),
        |t: int|
            if chosen.contains(t as usize) {
                parts[t].insert(d)
            } else {
                parts[t]
            },
    );
    let larger = data.insert(id, d);
    assert(larger.dom() =~= after.members().dom());
    assert(larger.dom() =~= after.classes().dom());
    assert forall|t: usize| t < more.len() implies {
        &&& holds_part(#[trigger] more[t as int], larger, after.members(), t)
        &&& represents(
            after.forest()[t as int].structure(),
            after.forest()[t as int].placement(),
            more[t as int],
        )
        &&& full(before.forest()[t as int].structure()) ==> full(
            after.forest()[t as int].structure(),
        )
    } by {
        let m = parts[t as int];
        assert(holds_part(m, data, before.members(), t));
        lemma_part_distinct(m, data, before.members(), t);
        assert(m.count(d) == 0);
        let tree = before.forest()[t as int];
        let grown = after.forest()[t as int];
        assert(before.fits_in(tree, t as int));
        assert forall|x: SampleData| #[trigger] more[t as int].count(x) == (
        if larger.contains_key(x.id) && larger[x.id] == x && after.members().contains_key(x.id)
            && after.members()[x.id].contains(t) {
            1nat
        } else {
            0nat
        }) by {
            assert(m.count(x) == m.count(x));
        }
        if chosen.contains(t) {
            assert(crate::tree::stream::added_to(
                tree,
                grown,
                d,
                sample.values@,
                lazy,
                add_answer(tree, d, sample.values@, lazy),
            ));
            assert(m.len() < u32::MAX);
            let c = Change {
                id,
                route: d.values,
                values: sample.values@,
                label: d.label,
                lazy,
                inline: false,
            };
            if tree.structure().dom().is_empty() {
                assert(!tree.structure().dom().contains(ROOT));
                assert(m.len() == 0);
                lemma_no_rows(m);
                assert(tree.placement().dom() =~= Set::<u64>::empty());
                law_first_sample(tree.placement(), d);
                assert(Multiset::<SampleData>::empty().insert(d) =~= m.insert(d));
            } else {
                lemma_root_is_there(tree);
                law_tree_learns_exactly(
                    tree.structure(),
                    tree.states(),
                    tree.streams(),
                    tree.placement(),
                    m,
                    d,
                    c,
                );
            }
        } else {
            assert(grown == tree);
        }
    }
    assert(forest_represents(after, larger, more));
    if full_forest(before) {
        assert forall|t: int| 0 <= t < after.forest().len() implies full(
            (#[trigger] after.forest()[t]).structure(),
        ) by {
            let u = t as usize;
            assert(more[u as int] == more[t]);
            assert(full(before.forest()[t].structure()));
        }
    }
}

/// Where there are no samples there are no identifiers.
proof fn lemma_no_rows(m: Rows)
    requires
        m.len() == 0,
    ensures
        m == Multiset::<SampleData>::empty(),
        ids(m) == Set::<u64>::empty(),
{
    assert(m =~= Multiset::<SampleData>::empty());
    assert(ids(m) =~= Set::<u64>::empty());
}

/// A tree with nodes has a root.
proof fn lemma_root_is_there(tree: DynFrsTree)
    requires
        tree.wf(),
        !tree.structure().dom().is_empty(),
    ensures
        tree.structure().contains_key(ROOT),
{
    let id = choose|id: u64| tree.structure().dom().contains(id);
    tree.lemma_node_has_root(id);
}

/// The samples by identifier.
pub open spec fn data_of(samples: Seq<VecSample>, n: int) -> Map<u64, SampleData>
    decreases n,
{
    if n <= 0 {
        Map::empty()
    } else {
        data_of(samples, n - 1).insert(samples[n - 1].id, samples[n - 1].data())
    }
}

/// Whether no two samples share an identifier.
pub open spec fn distinct_ids(samples: Seq<VecSample>) -> bool {
    forall|i: int, j: int|
        0 <= i < j < samples.len() ==> (#[trigger] samples[i]).id != (#[trigger] samples[j]).id
}

/// The identifiers that occur among the first samples.
proof fn lemma_data_ids(samples: Seq<VecSample>, choice: Seq<Seq<usize>>, n: int)
    requires
        0 <= n <= samples.len(),
    ensures
        data_of(samples, n).dom() == members_of(samples, choice, n).dom(),
        data_of(samples, n).dom() == classes_of(samples, n).dom(),
        forall|id: u64| #[trigger]
            data_of(samples, n).contains_key(id) ==> {
                &&& data_of(samples, n)[id].id == id
                &&& data_of(samples, n)[id].label == classes_of(samples, n)[id]
                &&& exists|i: int| 0 <= i < n && (#[trigger] samples[i]).id == id
            },
    decreases n,
{
    if n > 0 {
        lemma_data_ids(samples, choice, n - 1);
        let id = samples[n - 1].id;
        assert forall|x: u64| #[trigger] data_of(samples, n).contains_key(x) implies {
            &&& data_of(samples, n)[x].id == x
            &&& data_of(samples, n)[x].label == classes_of(samples, n)[x]
            &&& exists|i: int| 0 <= i < n && (#[trigger] samples[i]).id == x
        } by {
            if x == id {
                assert(samples[n - 1].id == x);
            } else {
                assert(data_of(samples, n - 1).contains_key(x));
                let i = choose|i: int| 0 <= i < n - 1 && (#[trigger] samples[i]).id == x;
                assert(samples[i].id == x);
            }
        }
    }
    assert(data_of(samples, n).dom() =~= members_of(samples, choice, n).dom());
    assert(data_of(samples, n).dom() =~= classes_of(samples, n).dom());
}

/// The samples that are put into a tree.
proof fn lemma_part_holds(samples: Seq<VecSample>, choice: Seq<Seq<usize>>, t: usize, n: int)
    requires
        0 <= n <= samples.len(),
        distinct_ids(samples),
    ensures
        holds_part(
            part_of(samples, choice, t, n),
            data_of(samples, n),
            members_of(samples, choice, n),
            t,
        ),
    decreases n,
{
    if n > 0 {
        lemma_part_holds(samples, choice, t, n - 1);
        lemma_data_ids(samples, choice, n - 1);
        let d = samples[n - 1].data();
        let m = part_of(samples, choice, t, n - 1);
        let data = data_of(samples, n - 1);
        assert(!data.contains_key(d.id)) by {
            if data.contains_key(d.id) {
                let i = choose|i: int| 0 <= i < n - 1 && (#[trigger] samples[i]).id == d.id;
                assert(samples[i].id != samples[n - 1].id);
            }
        }
        let all = part_of(samples, choice, t, n);
        assert forall|x: SampleData| #[trigger] all.count(x) == (if data_of(
            samples,
            n,
        ).contains_key(x.id) && data_of(samples, n)[x.id] == x && members_of(
            samples,
            choice,
            n,
        ).contains_key(x.id) && members_of(samples, choice, n)[x.id].contains(t) {
            1nat
        } else {
            0nat
        }) by {
            assert(m.count(x) == (if data.contains_key(x.id) && data[x.id] == x && members_of(
                samples,
                choice,
                n - 1,
            ).contains_key(x.id) && members_of(samples, choice, n - 1)[x.id].contains(t) {
                1nat
            } else {
                0nat
            }));
        }
    }
}

/// A forest without nodes that has been grown from samples with distinct identifiers
/// represents them.
pub proof fn law_forest_fits_exactly(
    before: DynFrsForest,
    after: DynFrsForest,
    samples: Seq<VecSample>,
    ks: Seq<usize>,
)
    requires
        before.forest().len() == before.settings().num_trees,
        after.forest().len() == before.forest().len(),
        forall|t: int| 0 <= t < before.forest().len() ==> blank(#[trigger] before.forest()[t]),
        samples.len() > 0,
        distinct_ids(samples),
        forest_fitted(before, after, samples, ks),
    ensures
        exists|parts: Seq<Rows>| #[trigger]
            forest_represents(after, data_of(samples, samples.len() as int), parts),
        full_forest(after),
{
    let n = samples.len() as int;
    let choice = choose|choice: Seq<Seq<usize>>| #[trigger]
        fitted_with(before, after, samples, ks, choice);
    let data = data_of(samples, n);
    let parts = Seq::new(
        after.forest().len(),
        |t: int| part_of(samples, choice, t as usize, n),
    );
    lemma_data_ids(samples, choice, n);
    assert forall|t: usize| t < parts.len() implies {
        &&& holds_part(#[trigger] parts[t as int], data, after.members(), t)
        &&& represents(
            after.forest()[t as int].structure(),
            after.forest()[t as int].placement(),
            parts[t as int],
        )
        &&& full(after.forest()[t as int].structure())
    } by {
        let m = parts[t as int];
        lemma_part_holds(samples, choice, t, n);
        lemma_part_distinct(m, data, after.members(), t);
        let tree = before.forest()[t as int];
        let grown = after.forest()[t as int];
        assert(tree_fitted(tree, grown, before.plan(), m));
        if m.len() == 0 {
            lemma_no_rows(m);
            assert(blank(tree));
            assert(grown.placement().dom() =~= ids(m));
        }
        lemma_full_leads(grown.structure(), m);
    }
    assert(forest_represents(after, data, parts));
    assert forall|t: int| 0 <= t < after.forest().len() implies full(
        (#[trigger] after.forest()[t]).structure(),
    ) by {
        let u = t as usize;
        assert(parts[u as int] == parts[t]);
    }
}

/// A collection of samples that are put into a tree is no larger than the collection of
/// all samples.
pub proof fn lemma_part_small(
    m: Rows,
    data: Map<u64, SampleData>,
    members: Map<u64, Seq<usize>>,
    t: usize,
)
    requires
        holds_part(m, data, members, t),
        data.dom().finite(),
    ensures
        m.len() <= data.len(),
    decreases m.len(),
{
    if m.len() > 0 {
        let d = m.choose();
        assert(m.count(d) > 0);
        let rest = m.remove(d);
        let less = data.remove(d.id);
        assert(holds_part(rest, less, members, t)) by {
            assert forall|x: SampleData| #[trigger]
                rest.count(x) == (if less.contains_key(x.id) && less[x.id] == x
                    && members.contains_key(x.id) && members[x.id].contains(t) {
                    1nat
                } else {
                    0nat
                }) by {
                assert(m.count(x) == m.count(x));
            }
        }
        lemma_part_small(rest, less, members, t);
    }
}

/// After some steps a forest represents the samples that have not been forgotten by then.
proof fn lemma_forgets_each(
    steps: Seq<DynFrsForest>,
    data: Map<u64, SampleData>,
    parts: Seq<Rows>,
    gone: Seq<u64>,
    features: Map<u64, Seq<i64>>,
    n: int,
)
    requires
        forgot_known_each(steps, gone, features),
        forest_represents(steps[0], data, parts),
        steps[0].forest().len() <= usize::MAX,
        0 <= n <= gone.len(),
    ensures
        steps[n].forest().len() == steps[0].forest().len(),
        exists|rest: Seq<Rows>| #[trigger]
            forest_represents(steps[n], data.remove_keys(gone.take(n).to_set()), rest),
        full_forest(steps[0]) ==> full_forest(steps[n]),
    decreases n,
{
    if n <= 0 {
        assert(data.remove_keys(gone.take(0).to_set()) =~= data);
        assert(forest_represents(steps[n], data.remove_keys(gone.take(n).to_set()), parts));
    } else {
        lemma_forgets_each(steps, data, parts, gone, features, n - 1);
        let id = gone[n - 1];
        let before = steps[n - 1];
        let after = steps[n];
        let left = data.remove_keys(gone.take(n - 1).to_set());
        let rest = choose|rest: Seq<Rows>| #[trigger] forest_represents(before, left, rest);
        assert(forgot_known(before, after, id, features_of(features, id)));
        let less = data.remove_keys(gone.take(n).to_set());
        assert(less =~= left.remove(id)) by {
            let a = gone.take(n - 1);
            let b = gone.take(n);
            assert forall|x: u64| b.contains(x) == (a.contains(x) || x == id) by {
                if a.contains(x) {
                    assert(b[a.index_of(x)] == x);
                }
                assert(b[n - 1] == id);
                if b.contains(x) && x != id {
                    assert(a[b.index_of(x)] == x);
                }
            }
        }
        if left.contains_key(id) {
            law_forest_forgets_by_id_exactly(
                before,
                after,
                left,
                rest,
                id,
                features_of(features, id),
            );
        } else {
            assert(!before.members().contains_key(id)) by {
                assert(before.members().dom().contains(id) == left.dom().contains(id));
            }
            assert(left.remove(id) =~= left);
            assert(forest_represents(after, less, rest));
            assert(full_forest(before) ==> full_forest(after));
        }
    }
}

/// A forest that represents samples represents those that are left after some have been
/// forgotten one after the other, whether their features are known or not.
pub proof fn law_forest_forgets_all_exactly(
    before: DynFrsForest,
    after: DynFrsForest,
    data: Map<u64, SampleData>,
    parts: Seq<Rows>,
    gone: Seq<u64>,
    features: Map<u64, Seq<i64>>,
)
    requires
        forest_represents(before, data, parts),
        forgot_known_all(before, after, gone, features),
        before.forest().len() <= usize::MAX,
    ensures
        exists|rest: Seq<Rows>| #[trigger]
            forest_represents(after, data.remove_keys(gone.to_set()), rest),
        full_forest(before) ==> full_forest(after),
{
    let steps = choose|steps: Seq<DynFrsForest>|
        {
            &&& #[trigger] forgot_known_each(steps, gone, features)
            &&& steps[0] == before
            &&& steps.last() == after
        };
    lemma_forgets_each(steps, data, parts, gone, features, gone.len() as int);
    assert(gone.take(gone.len() as int) =~= gone);
}

/// Samples by identifier, with further ones.
pub open spec fn data_with(
    data: Map<u64, SampleData>,
    samples: Seq<VecSample>,
    n: int,
) -> Map<u64, SampleData>
    decreases n,
{
    if n <= 0 {
        data
    } else {
        data_with(data, samples, n - 1).insert(samples[n - 1].id, samples[n - 1].data())
    }
}

/// Which samples there are with further ones.
proof fn lemma_data_with(data: Map<u64, SampleData>, samples: Seq<VecSample>, n: int)
    requires
        0 <= n <= samples.len(),
        data.dom().finite(),
    ensures
        data_with(data, samples, n).dom().finite(),
        data_with(data, samples, n).len() <= data.len() + n,
        forall|id: u64| #[trigger]
            data_with(data, samples, n).contains_key(id) ==> data.contains_key(id) || exists|
                i: int,
            |
                0 <= i < n && (#[trigger] samples[i]).id == id,
    decreases n,
{
    if n > 0 {
        lemma_data_with(data, samples, n - 1);
        let before = data_with(data, samples, n - 1);
        let after = data_with(data, samples, n);
        let id = samples[n - 1].id;
        assert(after.dom() =~= before.dom().insert(id));
        assert forall|x: u64| #[trigger] after.contains_key(x) implies data.contains_key(x)
            || exists|i: int| 0 <= i < n && (#[trigger] samples[i]).id == x by {
            if x == id {
                assert(samples[n - 1].id == x);
            } else {
                assert(before.contains_key(x));
                if !data.contains_key(x) {
                    let i = choose|i: int| 0 <= i < n - 1 && (#[trigger] samples[i]).id == x;
                    assert(samples[i].id == x);
                }
            }
        }
    }
}

/// Whether each of some samples ends at a leaf in every tree of a forest that has nodes.
pub open spec fn all_end(forest: DynFrsForest, samples: Seq<VecSample>) -> bool {
    forall|i: int|
        0 <= i < samples.len() ==> ends_everywhere(forest, (#[trigger] samples[i]).data().values)
}

/// Where every inner node has its children, every row ends at a leaf.
pub proof fn law_full_forest_leads(forest: DynFrsForest, values: Seq<i64>)
    requires
        forest.wf(),
        full_forest(forest),
    ensures
        ends_everywhere(forest, values),
{
    assert forall|t: int| 0 <= t < forest.forest().len() implies {
        let nodes = (#[trigger] forest.forest()[t]).structure();
        !nodes.dom().is_empty() ==> nodes.contains_key(end_of(nodes, values, ROOT))
    } by {
        let tree = forest.forest()[t];
        assert(forest.fits_in(tree, t));
        if !tree.structure().dom().is_empty() {
            lemma_root_is_there(tree);
            crate::tree::laws::lemma_end_exists(tree.structure(), values, ROOT);
        }
    }
}

/// A row that ends at a leaf still does after a sample has been learnt.
proof fn lemma_learnt_ends(
    before: DynFrsForest,
    after: DynFrsForest,
    sample: VecSample,
    lazy: bool,
    r: (bool, bool),
    values: Seq<i64>,
)
    requires
        before.wf(),
        learnt(before, after, sample, lazy, r),
        ends_everywhere(before, values),
    ensures
        ends_everywhere(after, values),
{
    if !before.members().contains_key(sample.id) {
        let chosen = choose|chosen: Seq<usize>| #[trigger]
            learnt_by(before, after, sample, lazy, r, chosen);
        assert forall|t: int| 0 <= t < after.forest().len() implies {
            let nodes = (#[trigger] after.forest()[t]).structure();
            !nodes.dom().is_empty() ==> nodes.contains_key(end_of(nodes, values, ROOT))
        } by {
            let u = t as usize;
            assert(before.forest().len() == before.settings().num_trees);
            assert(after.forest()[u as int] == after.forest()[t]);
            let a = before.forest()[t].structure();
            let b = after.forest()[t].structure();
            if chosen.contains(u) {
                if !a.dom().is_empty() {
                    let c = Change {
                        id: sample.id,
                        route: sample.data().values,
                        values: sample.values@,
                        label: sample.data().label,
                        lazy,
                        inline: false,
                    };
                    let tree = before.forest()[t];
                    assert(b == nodes_added(a, tree.states(), tree.streams(), c));
                    assert(b.dom() =~= a.dom());
                    assert(same_splits(a, b));
                    lemma_same_splits(a, b, values, ROOT);
                }
            }
        }
    }
}

/// After some steps a forest represents the samples that have been learnt by then.
proof fn lemma_learns_each(
    steps: Seq<DynFrsForest>,
    data: Map<u64, SampleData>,
    parts: Seq<Rows>,
    samples: Seq<VecSample>,
    lazy: bool,
    answers: Seq<(bool, bool)>,
    n: int,
)
    requires
        learnt_each(steps, samples, lazy, answers),
        forest_represents(steps[0], data, parts),
        all_end(steps[0], samples),
        distinct_ids(samples),
        forall|i: int| 0 <= i < samples.len() ==> !data.contains_key((#[trigger] samples[i]).id),
        data.dom().finite(),
        data.len() + samples.len() <= u32::MAX,
        0 <= n <= samples.len(),
    ensures
        exists|more: Seq<Rows>| #[trigger]
            forest_represents(steps[n], data_with(data, samples, n), more),
        all_end(steps[n], samples),
        full_forest(steps[0]) ==> full_forest(steps[n]),
    decreases n,
{
    if n <= 0 {
        assert(forest_represents(steps[n], data_with(data, samples, n), parts));
    } else {
        lemma_learns_each(steps, data, parts, samples, lazy, answers, n - 1);
        let so_far = data_with(data, samples, n - 1);
        let before = steps[n - 1];
        let s = samples[n - 1];
        let more = choose|more: Seq<Rows>| #[trigger] forest_represents(before, so_far, more);
        lemma_data_with(data, samples, n - 1);
        assert(before.wf());
        assert(learnt(before, steps[n], s, lazy, answers[n - 1]));
        assert(!so_far.contains_key(s.id)) by {
            if so_far.contains_key(s.id) {
                let i = choose|i: int| 0 <= i < n - 1 && (#[trigger] samples[i]).id == s.id;
                assert(samples[i].id != samples[n - 1].id);
            }
        }
        assert forall|t: int| 0 <= t < more.len() implies (#[trigger] more[t]).len() < u32::MAX by {
            let u = t as usize;
            assert(before.forest().len() == before.settings().num_trees);
            assert(holds_part(more[u as int], so_far, before.members(), u));
            lemma_part_small(more[t], so_far, before.members(), u);
        }
        assert(ends_everywhere(before, samples[n - 1].data().values));
        law_forest_learns_exactly(before, steps[n], so_far, more, s, lazy, answers[n - 1]);
        assert forall|i: int| 0 <= i < samples.len() implies ends_everywhere(
            steps[n],
            (#[trigger] samples[i]).data().values,
        ) by {
            lemma_learnt_ends(
                before,
                steps[n],
                s,
                lazy,
                answers[n - 1],
                samples[i].data().values,
            );
        }
        let larger = so_far.insert(s.id, s.data());
        assert(data_with(data, samples, n) == larger);
        let all = choose|all: Seq<Rows>| #[trigger] forest_represents(steps[n], larger, all);
        assert(forest_represents(steps[n], data_with(data, samples, n), all));
    }
}

/// A forest that represents samples represents those and new ones after the new ones have
/// been learnt one after the other, if each of them ends at a leaf in every tree.
pub proof fn law_forest_learns_all_exactly(
    before: DynFrsForest,
    after: DynFrsForest,
    data: Map<u64, SampleData>,
    parts: Seq<Rows>,
    samples: Seq<VecSample>,
    lazy: bool,
    r: (usize, usize),
)
    requires
        forest_represents(before, data, parts),
        all_end(before, samples),
        learnt_all(before, after, samples, lazy, r),
        distinct_ids(samples),
        forall|i: int| 0 <= i < samples.len() ==> !data.contains_key((#[trigger] samples[i]).id),
        data.dom().finite(),
        data.len() + samples.len() <= u32::MAX,
    ensures
        exists|more: Seq<Rows>| #[trigger]
            forest_represents(after, data_with(data, samples, samples.len() as int), more),
        full_forest(before) ==> full_forest(after),
{
    let (steps, answers) = choose|steps: Seq<DynFrsForest>, answers: Seq<(bool, bool)>|
        {
            &&& #[trigger] learnt_each(steps, samples, lazy, answers)
            &&& steps[0] == before
            &&& after.forest() == steps.last().forest()
            &&& after.members() == steps.last().members()
            &&& after.classes() == steps.last().classes()
            &&& after.same_setting(&steps.last())
            &&& after.tuning() == steps.last().tuning()
            &&& r.0 == learnt_count(answers, samples.len() as int)
            &&& r.1 == work_count(answers, samples.len() as int)
        };
    let n = samples.len() as int;
    lemma_learns_each(steps, data, parts, samples, lazy, answers, n);
    let all = data_with(data, samples, n);
    let more = choose|more: Seq<Rows>| #[trigger] forest_represents(steps[n], all, more);
    assert(forest_represents(after, all, more));
}

/// A row passes no marked node where there is none.
proof fn lemma_none_pending(tree: DynFrsTree, values: Seq<i64>, id: u64)
    requires
        settled(tree),
    ensures
        first_pending(tree.structure(), values, id) is None,
    decreases u64::MAX - id,
{
    let nodes = tree.structure();
    if is_inner(nodes, id) && 1 <= id <= MAX_PARENT {
        lemma_none_pending(tree, values, (2 * id) as u64);
        lemma_none_pending(tree, values, (2 * id + 1) as u64);
    }
}

/// Questions to a tree without marks leave it as it is.
proof fn lemma_asked_settled(
    steps: Seq<DynFrsTree>,
    plan: Plan,
    known: Map<u64, &VecSample>,
    queries: Seq<VecSample>,
    answers: Seq<bool>,
    k: int,
    n: int,
)
    requires
        asked_each(steps, plan, known, queries, answers),
        0 <= k <= n <= queries.len(),
        settled(steps[k]),
    ensures
        unchanged(steps[k], steps[n]),
    decreases n,
{
    if n > k {
        lemma_asked_settled(steps, plan, known, queries, answers, k, n - 1);
        lemma_none_pending(steps[n - 1], queries[n - 1].values@, ROOT);
        assert(answered(
            steps[n - 1],
            steps[n],
            plan,
            known,
            queries[n - 1].values@,
            answers[n - 1],
        ));
    }
}

/// Whether answers are the votes of a tree.
pub open spec fn votes(answers: Seq<bool>, tree: DynFrsTree, queries: Seq<VecSample>) -> bool {
    &&& answers.len() == queries.len()
    &&& forall|i: int|
        0 <= i < queries.len() ==> #[trigger] answers[i] == vote(
            tree.structure(),
            queries[i].values@,
        )
}

/// What a tree answers whose root is marked, or which has no nodes, once the work has been
/// done.
proof fn lemma_asked_retrained(
    before: DynFrsTree,
    after: DynFrsTree,
    plan: Plan,
    known: Map<u64, &VecSample>,
    queries: Seq<VecSample>,
    answers: Seq<bool>,
    m: Rows,
)
    requires
        asked(before, after, plan, known, queries, answers),
        queries.len() > 0,
        represents(before.structure(), before.placement(), m),
        m.len() <= u32::MAX,
        knows(known, m),
        plan.config == before.limits(),
        plan.width <= plan.types.len(),
        if m.len() > 0 {
            before.structure()[ROOT].pending() && !before.states().contains_key(ROOT)
        } else {
            before.structure().dom().is_empty()
        },
    ensures
        m.len() > 0 ==> fitted(after, after, plan, m),
        represents(after.structure(), after.placement(), m),
        votes(answers, after, queries),
{
    let steps = choose|steps: Seq<DynFrsTree>| #[trigger]
        asked_each(steps, plan, known, queries, answers) && steps[0] == before && steps.last()
            == after;
    let n = queries.len() as int;
    assert(answered(steps[0], steps[1], plan, known, queries[0].values@, answers[0]));
    let k: int = if m.len() > 0 {
        1
    } else {
        0
    };
    if m.len() > 0 {
        law_lazy_answer_is_retrained(
            before,
            steps[1],
            plan,
            known,
            m,
            queries[0].values@,
            answers[0],
        );
        assert(settled(steps[1]));
    } else {
        assert(settled(before)) by {
            assert forall|id: u64| !before.structure().contains_key(id) by {
                assert(!before.structure().dom().contains(id));
            }
        }
    }
    lemma_asked_settled(steps, plan, known, queries, answers, k, n);
    assert forall|i: int| 0 <= i < queries.len() implies #[trigger] answers[i] == vote(
        after.structure(),
        queries[i].values@,
    ) by {
        assert(answered(
            steps[i],
            steps[i + 1],
            plan,
            known,
            queries[i].values@,
            answers[i],
        ));
        lemma_asked_settled(steps, plan, known, queries, answers, k, i + 1);
    }
}

/// Predictions of a forest whose roots are marked are those of a forest that is grown from
/// the samples that are left: the work that was put off is done first, every tree is then
/// one that growing from its samples alone may give, and the forest decides as those trees
/// do.
pub proof fn law_lazy_predictions_are_retrained(
    before: DynFrsForest,
    after: DynFrsForest,
    known: Map<u64, &VecSample>,
    queries: Seq<VecSample>,
    answers: Seq<Seq<bool>>,
    data: Map<u64, SampleData>,
    parts: Seq<Rows>,
)
    requires
        before.wf(),
        forest_represents(before, data, parts),
        forall|t: int| 0 <= t < parts.len() ==> (#[trigger] parts[t]).len() <= u32::MAX,
        forall|id: u64| #[trigger]
            data.contains_key(id) ==> known.contains_key(id) && known[id].data() == data[id],
        forall|t: int|
            0 <= t < parts.len() ==> {
                let tree = #[trigger] before.forest()[t];
                if parts[t].len() > 0 {
                    tree.structure()[ROOT].pending() && !tree.states().contains_key(ROOT)
                } else {
                    tree.structure().dom().is_empty()
                }
            },
        queries.len() > 0,
        forest_asked(before, after, known, queries, answers),
    ensures
        forest_represents(after, data, parts),
        forall|t: int|
            0 <= t < parts.len() && (#[trigger] parts[t]).len() > 0 ==> fitted(
                after.forest()[t],
                after.forest()[t],
                before.plan(),
                parts[t],
            ),
        forall|i: int|
            0 <= i < queries.len() ==> #[trigger] yeas(answers, i, answers.len() as int)
                == ballots(after.forest(), queries[i].values@, answers.len() as int),
{
    assert forall|t: usize| t < parts.len() implies {
        &&& holds_part(#[trigger] parts[t as int], data, after.members(), t)
        &&& represents(
            after.forest()[t as int].structure(),
            after.forest()[t as int].placement(),
            parts[t as int],
        )
        &&& parts[t as int].len() > 0 ==> fitted(
            after.forest()[t as int],
            after.forest()[t as int],
            before.plan(),
            parts[t as int],
        )
        &&& votes(answers[t as int], after.forest()[t as int], queries)
    } by {
        let m = parts[t as int];
        let tree = before.forest()[t as int];
        assert(before.fits_in(tree, t as int));
        assert(holds_part(m, data, before.members(), t));
        assert(knows(known, m)) by {
            assert forall|d: SampleData| #[trigger] m.count(d) > 0 implies known.contains_key(d.id)
                && known[d.id].data() == d by {
                assert(data.contains_key(d.id) && data[d.id] == d);
            }
        }
        assert(asked(
            tree,
            after.forest()[t as int],
            before.plan(),
            known,
            queries,
            answers[t as int],
        ));
        lemma_asked_retrained(
            tree,
            after.forest()[t as int],
            before.plan(),
            known,
            queries,
            answers[t as int],
            m,
        );
    }
    assert(forest_represents(after, data, parts));
    assert forall|t: int| 0 <= t < parts.len() && (#[trigger] parts[t]).len() > 0 implies fitted(
        after.forest()[t],
        after.forest()[t],
        before.plan(),
        parts[t],
    ) by {
        let u = t as usize;
        assert(parts[u as int].len() > 0);
    }
    assert forall|t: int| 0 <= t < answers.len() implies votes(
        #[trigger] answers[t],
        after.forest()[t],
        queries,
    ) by {
        let u = t as usize;
        assert(parts[u as int] == parts[t]);
    }
    assert forall|i: int| 0 <= i < queries.len() implies #[trigger] yeas(
        answers,
        i,
        answers.len() as int,
    ) == ballots(after.forest(), queries[i].values@, answers.len() as int) by {
        lemma_yeas(after, queries, answers, i, answers.len() as int);
    }
}

/// Counting answers is counting votes.
proof fn lemma_yeas(
    after: DynFrsForest,
    queries: Seq<VecSample>,
    answers: Seq<Seq<bool>>,
    i: int,
    n: int,
)
    requires
        0 <= i < queries.len(),
        0 <= n <= answers.len(),
        forall|t: int|
            0 <= t < answers.len() ==> votes(#[trigger] answers[t], after.forest()[t], queries),
    ensures
        yeas(answers, i, n) == ballots(after.forest(), queries[i].values@, n),
    decreases n,
{
    if n > 0 {
        lemma_yeas(after, queries, answers, i, n - 1);
        assert(votes(answers[n - 1], after.forest()[n - 1], queries));
    }
}

/// Forgetting is exact for the forest as a whole: of two forests whose trees ask the same
/// questions and which represent the same samples in the same trees, each predicts what
/// the other predicts, for every row. So a forest that has forgotten samples predicts as
/// one that was grown without them and came to the same questions.
pub proof fn law_forest_unlearning_is_exact(
    a: DynFrsForest,
    b: DynFrsForest,
    data: Map<u64, SampleData>,
    p: Seq<Rows>,
    q: Seq<Rows>,
    values: Seq<i64>,
)
    requires
        forest_represents(a, data, p),
        forest_represents(b, data, q),
        a.members() == b.members(),
        a.forest().len() == b.forest().len(),
        a.forest().len() <= usize::MAX,
        forall|t: int|
            0 <= t < a.forest().len() ==> same_splits(
                (#[trigger] a.forest()[t]).structure(),
                b.forest()[t].structure(),
            ),
    ensures
        decision(a.forest(), values) == decision(b.forest(), values),
{
    lemma_same_ballots(a, b, data, p, q, values, a.forest().len() as int);
}

/// Forests that represent the same samples cast the same votes.
proof fn lemma_same_ballots(
    a: DynFrsForest,
    b: DynFrsForest,
    data: Map<u64, SampleData>,
    p: Seq<Rows>,
    q: Seq<Rows>,
    values: Seq<i64>,
    n: int,
)
    requires
        forest_represents(a, data, p),
        forest_represents(b, data, q),
        a.members() == b.members(),
        a.forest().len() == b.forest().len(),
        a.forest().len() <= usize::MAX,
        forall|t: int|
            0 <= t < a.forest().len() ==> same_splits(
                (#[trigger] a.forest()[t]).structure(),
                b.forest()[t].structure(),
            ),
        0 <= n <= a.forest().len(),
    ensures
        ballots(a.forest(), values, n) == ballots(b.forest(), values, n),
    decreases n,
{
    if n > 0 {
        lemma_same_ballots(a, b, data, p, q, values, n - 1);
        let t = (n - 1) as usize;
        assert(holds_part(p[t as int], data, a.members(), t));
        assert(holds_part(q[t as int], data, b.members(), t));
        assert(p[t as int] =~= q[t as int]);
        let x = a.forest()[t as int].structure();
        let y = b.forest()[t as int].structure();
        assert(same_splits(x, y));
        law_exact_unlearning(x, y, p[t as int]);
        assert(vote(x, values) == vote(y, values));
    }
}

} // verus!
