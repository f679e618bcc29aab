//! What holds of the samples that a forest keeps account of.

use super::develop::{counts_trees, from_many};
use super::hoeffding::{learnt_inline, learnt_inline_by};
use super::influence::first_of;
use super::learn::{asking, asks, classes_of, marked, members_of, part_of};
use super::occ::slots;
use super::stream::{forgotten_count, learnt_count, work_count};
use super::unlearn::{there_count, to_forget};
use super::DynFrsForest;
use crate::count::{lemma_those, those};
use crate::fraction::Fraction;
use crate::sample::{Rows, Sample, SampleData, VecSample};
use crate::streaming::StateView;
use crate::tree::batch::{all_without, forgot_many, names, taken};
use crate::tree::grow::Plan;
use crate::tree::hoeffding::HoeffdingConfig;
use crate::tree::shape::Nodes;
use crate::tree::{DynFrsTree, TreeConfig};
use vstd::multiset::Multiset;
use vstd::prelude::*;

verus! {

/// A sample is put into at least one tree, if there is one, into no more than there are,
/// and into as many as asked for if there are so many.
pub proof fn law_slots_are_held(num_trees: int, k: int)
    requires
        num_trees >= 0,
    ensures
        slots(num_trees, k) <= num_trees,
        num_trees > 0 ==> slots(num_trees, k) >= 1,
        1 <= k <= num_trees ==> slots(num_trees, k) == k,
        num_trees > 0 && k < 1 ==> slots(num_trees, k) == 1,
        k > num_trees ==> slots(num_trees, k) == num_trees,
{
}

/// Each sample of a list is kept with its trees and its class, if no two share an
/// identifier; and nothing else is kept.
pub proof fn law_samples_are_kept(
    samples: Seq<VecSample>,
    choice: Seq<Seq<usize>>,
    n: int,
    id: u64,
)
    requires
        0 <= n <= samples.len(),
        choice.len() == samples.len(),
        forall|i: int, j: int|
            0 <= i < j < samples.len() ==> (#[trigger] samples[i]).id != (#[trigger] samples[j]).id,
    ensures
        members_of(samples, choice, n).contains_key(id) <==> exists|i: int|
            0 <= i < n && (#[trigger] samples[i]).id == id,
        classes_of(samples, n).contains_key(id) <==> exists|i: int|
            0 <= i < n && (#[trigger] samples[i]).id == id,
        forall|i: int|
            0 <= i < n && (#[trigger] samples[i]).id == id ==> members_of(samples, choice, n)[id]
                == choice[i] && classes_of(samples, n)[id] == samples[i].label,
    decreases n,
{
    if n > 0 {
        law_samples_are_kept(samples, choice, n - 1, id);
    }
}

/// A tree is grown from the samples that it was chosen for: of each row as many as there are
/// such samples with it.
pub proof fn law_tree_gets_its_samples(
    samples: Seq<VecSample>,
    choice: Seq<Seq<usize>>,
    tree: usize,
    n: int,
    d: SampleData,
)
    requires
        0 <= n <= samples.len(),
        choice.len() == samples.len(),
    ensures
        part_of(samples, choice, tree, n).count(d) == those(
            n,
            |i: int| choice[i].contains(tree) && samples[i].data() == d,
        ).len(),
        part_of(samples, choice, tree, n).len() == those(
            n,
            |i: int| choice[i].contains(tree),
        ).len(),
    decreases n,
{
    lemma_those(n, |i: int| choice[i].contains(tree) && samples[i].data() == d);
    lemma_those(n, |i: int| choice[i].contains(tree));
    if n > 0 {
        law_tree_gets_its_samples(samples, choice, tree, n - 1, d);
    } else {
        assert(part_of(samples, choice, tree, n) == Multiset::<SampleData>::empty());
    }
}

/// The trees that ask for work are counted once each, and marks are counted on top of those
/// that there are, as far as a number can hold them.
pub proof fn law_askers_are_counted(
    trees: Seq<DynFrsTree>,
    list: Seq<usize>,
    n: int,
    id: u64,
    features: Seq<i64>,
    label: bool,
    lazy: bool,
    marks: u64,
)
    requires
        0 <= n <= list.len(),
    ensures
        asking(trees, list, n, id, features, label, lazy) == those(
            n,
            |i: int| asks(trees[list[i] as int], id, features, label, lazy),
        ).len(),
        marks + n <= u64::MAX ==> marked(
            marks,
            asking(trees, list, n, id, features, label, lazy),
        ) == marks + asking(trees, list, n, id, features, label, lazy),
    decreases n,
{
    lemma_those(n, |i: int| asks(trees[list[i] as int], id, features, label, lazy));
    if n > 0 {
        law_askers_are_counted(trees, list, n - 1, id, features, label, lazy, marks);
    }
}

/// The samples that were learnt and those that have asked for work are counted once each.
pub proof fn law_learnt_are_counted(answers: Seq<(bool, bool)>, n: int)
    requires
        0 <= n <= answers.len(),
    ensures
        learnt_count(answers, n) == those(n, |i: int| answers[i].0).len(),
        work_count(answers, n) == those(n, |i: int| answers[i].1).len(),
    decreases n,
{
    lemma_those(n, |i: int| answers[i].0);
    lemma_those(n, |i: int| answers[i].1);
    if n > 0 {
        law_learnt_are_counted(answers, n - 1);
    }
}

/// Of the samples that a list names those that are there are counted once each, however
/// often they are named.
pub proof fn law_named_are_counted_once(members: Map<u64, Seq<usize>>, ids: Seq<u64>, n: int)
    requires
        0 <= n <= ids.len(),
    ensures
        ids.take(n).to_set().intersect(members.dom()).finite(),
        there_count(members, ids, n) == ids.take(n).to_set().intersect(members.dom()).len(),
    decreases n,
{
    let set = ids.take(n).to_set().intersect(members.dom());
    if n <= 0 {
        assert(set =~= Set::<u64>::empty());
    } else {
        law_named_are_counted_once(members, ids, n - 1);
        let id = ids[n - 1];
        let before = ids.take(n - 1).to_set().intersect(members.dom());
        assert forall|x: u64| ids.take(n).contains(x) == (ids.take(n - 1).contains(x) || x == id) by {
            if ids.take(n).contains(x) {
                let j = ids.take(n).index_of(x);
                if j < n - 1 {
                    assert(ids.take(n - 1)[j] == x);
                }
            }
            if ids.take(n - 1).contains(x) {
                let j = ids.take(n - 1).index_of(x);
                assert(ids.take(n)[j] == x);
            }
            assert(ids.take(n)[n - 1] == id);
        }
        if members.contains_key(id) {
            assert(set =~= before.insert(id));
        } else {
            assert(set =~= before);
        }
    }
}

/// What a tree has to forget is each named sample that it has learnt, once and with its
/// class.
pub proof fn law_tree_forgets_its_samples(
    members: Map<u64, Seq<usize>>,
    classes: Map<u64, bool>,
    ids: Seq<u64>,
    tree: usize,
    n: int,
)
    requires
        0 <= n <= ids.len(),
    ensures
        forall|e: (u64, bool)| #[trigger]
            to_forget(members, classes, ids, tree, n).contains(e) <==> ids.take(n).contains(e.0)
                && members.contains_key(e.0) && members[e.0].contains(tree) && e.1 == classes[e.0],
        to_forget(members, classes, ids, tree, n).no_duplicates(),
    decreases n,
{
    if n > 0 {
        law_tree_forgets_its_samples(members, classes, ids, tree, n - 1);
        let id = ids[n - 1];
        let before = to_forget(members, classes, ids, tree, n - 1);
        let after = to_forget(members, classes, ids, tree, n);
        assert forall|x: u64| #[trigger] ids.take(n).contains(x) == (ids.take(n - 1).contains(x) || x
            == id) by {
            if ids.take(n).contains(x) {
                let j = ids.take(n).index_of(x);
                if j < n - 1 {
                    assert(ids.take(n - 1)[j] == x);
                }
            }
            if ids.take(n - 1).contains(x) {
                let j = ids.take(n - 1).index_of(x);
                assert(ids.take(n)[j] == x);
            }
            assert(ids.take(n)[n - 1] == id);
        }
        let fits = members.contains_key(id) && !ids.take(n - 1).contains(id)
            && members[id].contains(tree);
        assert forall|e: (u64, bool)| #[trigger] after.contains(e) <==> ids.take(n).contains(e.0)
            && members.contains_key(e.0) && members[e.0].contains(tree) && e.1 == classes[e.0] by {
            assert(before.contains(e) <==> ids.take(n - 1).contains(e.0) && members.contains_key(
                e.0,
            ) && members[e.0].contains(tree) && e.1 == classes[e.0]);
            assert(ids.take(n).contains(e.0) == (ids.take(n - 1).contains(e.0) || e.0 == id));
            if fits {
                assert(after.last() == (id, classes[id]));
                if before.contains(e) {
                    let j = before.index_of(e);
                    assert(after[j] == e);
                }
                if after.contains(e) {
                    let j = after.index_of(e);
                    if j < before.len() {
                        assert(before[j] == e);
                    }
                }
            }
        }
        if fits {
            assert(!before.contains((id, classes[id])));
        }
    } else {
        assert(ids.take(n).len() == 0);
    }
}

/// The samples of a list.
pub open spec fn named(list: Seq<(u64, bool)>) -> Set<u64> {
    Set::new(|sid: u64| names(list, sid))
}

/// Of the samples that a list names those that a tree has are counted once each.
pub proof fn law_taken_are_counted_once(leaves: Map<u64, u64>, list: Seq<(u64, bool)>)
    ensures
        named(list).intersect(leaves.dom()).finite(),
        taken(leaves, list) == named(list).intersect(leaves.dom()).len(),
    decreases list.len(),
{
    let set = named(list).intersect(leaves.dom());
    if list.len() == 0 {
        assert(set =~= Set::<u64>::empty());
    } else {
        let front = list.drop_last();
        law_taken_are_counted_once(leaves, front);
        let sid = list.last().0;
        let before = named(front).intersect(leaves.dom());
        assert forall|x: u64| names(list, x) == (names(front, x) || x == sid) by {
            if names(list, x) {
                let i = choose|i: int| 0 <= i < list.len() && (#[trigger] list[i]).0 == x;
                if i < list.len() - 1 {
                    assert(front[i].0 == x);
                }
            }
            if names(front, x) {
                let i = choose|i: int| 0 <= i < front.len() && (#[trigger] front[i]).0 == x;
                assert(list[i].0 == x);
            }
            assert(list[list.len() - 1].0 == sid);
        }
        if leaves.contains_key(sid) {
            assert(set =~= before.insert(sid));
        } else {
            assert(set =~= before);
        }
    }
}

/// Samples that are forgotten one by one are led nowhere any more, and the others to where
/// they were.
pub proof fn law_named_leave_the_tree(
    nodes: Nodes,
    leaves: Map<u64, u64>,
    config: TreeConfig,
    list: Seq<(u64, bool)>,
)
    ensures
        all_without(nodes, leaves, config, list).1 == leaves.remove_keys(named(list)),
        all_without(nodes, leaves, config, list).0.dom() == nodes.dom(),
    decreases list.len(),
{
    let after = all_without(nodes, leaves, config, list);
    if list.len() == 0 {
        assert(after.1 =~= leaves.remove_keys(named(list)));
    } else {
        let front = list.drop_last();
        law_named_leave_the_tree(nodes, leaves, config, front);
        let sid = list.last().0;
        assert forall|x: u64| names(list, x) == (names(front, x) || x == sid) by {
            if names(list, x) {
                let i = choose|i: int| 0 <= i < list.len() && (#[trigger] list[i]).0 == x;
                if i < list.len() - 1 {
                    assert(front[i].0 == x);
                }
            }
            if names(front, x) {
                let i = choose|i: int| 0 <= i < front.len() && (#[trigger] front[i]).0 == x;
                assert(list[i].0 == x);
            }
            assert(list[list.len() - 1].0 == sid);
        }
        assert(after.1 =~= leaves.remove_keys(named(list)));
        assert(after.0.dom() =~= nodes.dom());
    }
}

/// Forgetting many samples: up to thirty-three for each hundred that a tree has are taken out
/// one by one, which keeps its nodes and its statistics; for more it is grown anew. Without
/// samples to forget nothing happens.
pub proof fn law_few_are_taken_out_one_by_one(
    before: DynFrsTree,
    after: DynFrsTree,
    plan: Plan,
    m: Rows,
    list: Seq<(u64, bool)>,
    r: int,
)
    requires
        forgot_many(before, after, plan, m, list, r),
    ensures
        list.len() == 0 || before.placement().len() == 0 ==> r == 0 && after.structure()
            == before.structure(),
        list.len() > 0 && before.placement().len() > 0 && list.len() * 100
            <= before.placement().len() * 33 ==> {
            &&& r == named(list).intersect(before.placement().dom()).len()
            &&& after.states() == before.states()
            &&& after.structure().dom() == before.structure().dom()
            &&& after.placement() == before.placement().remove_keys(named(list))
        },
        list.len() > 0 && before.placement().len() > 0 && list.len() * 100
            > before.placement().len() * 33 && r > 0 ==> after.states()
            == Map::<u64, StateView>::empty(),
{
    law_taken_are_counted_once(before.placement(), list);
    law_named_leave_the_tree(before.structure(), before.placement(), before.limits(), list);
}

/// The first entries of a list are its start, as many as asked for or all of them.
pub proof fn law_first_are_the_start(list: Seq<(u64, Fraction)>, top_k: Option<usize>, i: int)
    requires
        0 <= i < first_of(list, top_k).len(),
    ensures
        first_of(list, top_k)[i] == list[i],
        top_k is None ==> first_of(list, top_k).len() == list.len(),
        top_k matches Some(k) ==> first_of(list, top_k).len() == (if k < list.len() {
            k as int
        } else {
            list.len() as int
        }),
{
}

/// Samples that are listed by their trees: each once, and none before one that more trees have
/// learnt.
pub proof fn law_most_learnt_come_first(
    members: Map<u64, Seq<usize>>,
    list: Seq<(u64, usize)>,
    i: int,
    j: int,
)
    requires
        counts_trees(members, list),
        from_many(list),
        0 <= i < j < list.len(),
    ensures
        list[i].0 != list[j].0,
        members[list[i].0].len() >= members[list[j].0].len(),
        members[list[i].0].len() == members[list[j].0].len() ==> list[i].0 < list[j].0,
{
}

/// The samples that were forgotten are counted once each.
pub proof fn law_forgotten_are_counted(
    steps: Seq<DynFrsForest>,
    ids: Seq<u64>,
    features: Map<u64, Seq<i64>>,
    n: int,
)
    requires
        0 <= n <= ids.len(),
    ensures
        forgotten_count(steps, ids, features, n) == those(
            n,
            |i: int| features.contains_key(ids[i]) && steps[i].members().contains_key(ids[i]),
        ).len(),
    decreases n,
{
    lemma_those(
        n,
        |i: int| features.contains_key(ids[i]) && steps[i].members().contains_key(ids[i]),
    );
    if n > 0 {
        law_forgotten_are_counted(steps, ids, features, n - 1);
    }
}

/// A sample that is learnt by trees whose leaves are split on the spot is kept with its class
/// and with the trees that were chosen, and all other trees stay as they are; one that the
/// forest has already changes nothing.
pub proof fn law_inline_learning_keeps_other_trees(
    before: DynFrsForest,
    after: DynFrsForest,
    sample: VecSample,
    lazy: bool,
    config: HoeffdingConfig,
    known: Map<u64, &VecSample>,
    r: (bool, bool),
    t: usize,
)
    requires
        learnt_inline(before, after, sample, lazy, config, known, r),
        t < before.forest().len(),
    ensures
        r.0 == !before.members().contains_key(sample.id),
        before.members().contains_key(sample.id) ==> after.forest() == before.forest()
            && after.members() == before.members() && !r.1,
        !before.members().contains_key(sample.id) ==> {
            &&& after.members().contains_key(sample.id)
            &&& after.classes()[sample.id] == sample.label
            &&& after.members()[sample.id].len() == slots(
                before.settings().num_trees as int,
                before.k_now(sample.label) as int,
            )
            &&& !after.members()[sample.id].contains(t) ==> after.forest()[t as int]
                == before.forest()[t as int]
        },
{
    if !before.members().contains_key(sample.id) {
        let (chosen, answers) = choose|
            chosen: Seq<usize>,
            answers: Seq<(Option<u64>, bool)>,
        | #[trigger]
            learnt_inline_by(before, after, sample, lazy, config, known, r, chosen, answers);
        assert(chosen.take(chosen.len() as int) =~= chosen);
    }
}

} // verus!
