//! What holds of the numbers that sum up a forest.

use super::inspect::{greatest, is_depth, least, mean, state_count, streaming_count, summed};
use super::vote::yeas;
use crate::count::{lemma_those, those};
use crate::node::node_id::level;
use crate::tree::DynFrsTree;
use vstd::prelude::*;

verus! {

/// The first numbers of a list add up to what they make one after the other.
pub proof fn law_numbers_add_up(list: Seq<u64>, n: int)
    requires
        0 <= n <= list.len(),
    ensures
        summed(list, n) == list.take(n).fold_left(0int, |sum: int, x: u64| sum + x),
    decreases n,
{
    if n > 0 {
        law_numbers_add_up(list, n - 1);
        assert(list.take(n).drop_last() =~= list.take(n - 1));
        assert(list.take(n).last() == list[n - 1]);
    } else {
        assert(list.take(n).len() == 0);
    }
}

/// A sum of numbers lies between as many times the smallest and as many times the largest
/// one.
proof fn lemma_sum_between(list: Seq<u64>, low: int, high: int, n: int)
    requires
        0 <= n <= list.len(),
        forall|i: int| 0 <= i < list.len() ==> low <= #[trigger] list[i] <= high,
    ensures
        low * n <= summed(list, n) <= high * n,
    decreases n,
{
    if n > 0 {
        lemma_sum_between(list, low, high, n - 1);
        assert(low * n == low * (n - 1) + low) by (nonlinear_arith);
        assert(high * n == high * (n - 1) + high) by (nonlinear_arith);
        assert(low <= list[n - 1] <= high);
    }
}

/// The smallest number of a list is one of it, and so is the largest one; the average lies
/// between them, and as many times the average is the sum.
pub proof fn law_average_lies_between(list: Seq<u64>, low: int, high: int)
    requires
        0 < list.len() <= 0x7fff_ffff_ffff_ffff,
        low >= 0,
        least(list, low),
        greatest(list, high),
    ensures
        exists|i: int| 0 <= i < list.len() && #[trigger] list[i] == low,
        exists|i: int| 0 <= i < list.len() && #[trigger] list[i] == high,
        forall|i: int| 0 <= i < list.len() ==> low <= #[trigger] list[i] <= high,
        mean(list) is Some,
        mean(list)->0.den == list.len(),
        mean(list)->0.num == list.fold_left(0int, |sum: int, x: u64| sum + x),
        low * list.len() <= mean(list)->0.num <= high * list.len(),
{
    let n = list.len() as int;
    assert(list.contains(low as u64));
    assert(list.contains(high as u64));
    let i = list.index_of(low as u64);
    let j = list.index_of(high as u64);
    assert(list[j] >= low);
    assert(list[i] == low as u64 && list[j] == high as u64);
    lemma_sum_between(list, low, high, n);
    law_numbers_add_up(list, n);
    assert(list.take(n) =~= list);
    assert(0 <= low * n && high * n <= 0xffff_ffff_ffff_ffff * 0x7fff_ffff_ffff_ffff)
        by (nonlinear_arith)
        requires
            0 <= low,
            0 <= high <= 0xffff_ffff_ffff_ffff,
            0 < n <= 0x7fff_ffff_ffff_ffff,
    ;
}

/// The trees that stream are counted once each, and the statistics of all trees are.
pub proof fn law_streaming_trees_are_counted(trees: Seq<DynFrsTree>, n: int)
    requires
        0 <= n <= trees.len(),
    ensures
        streaming_count(trees, n) == those(n, |t: int| trees[t].streams()).len(),
        state_count(trees, n) == trees.take(n).fold_left(
            0int,
            |sum: int, tree: DynFrsTree| sum + tree.states().len(),
        ),
    decreases n,
{
    lemma_those(n, |t: int| trees[t].streams());
    if n > 0 {
        law_streaming_trees_are_counted(trees, n - 1);
        assert(trees.take(n).drop_last() =~= trees.take(n - 1));
        assert(trees.take(n).last() == trees[n - 1]);
    } else {
        assert(trees.take(n).len() == 0);
    }
}

/// The answers for the positive class are counted once each.
pub proof fn law_answers_are_counted(answers: Seq<Seq<bool>>, query: int, n: int)
    requires
        0 <= n <= answers.len(),
    ensures
        yeas(answers, query, n) == those(n, |t: int| answers[t][query]).len(),
        yeas(answers, query, n) <= n,
    decreases n,
{
    lemma_those(n, |t: int| answers[t][query]);
    if n > 0 {
        law_answers_are_counted(answers, query, n - 1);
    }
}

/// There is only one depth, and it grows with the tree.
pub proof fn law_depth_is_that_of_deepest_node(tree: DynFrsTree, d: int, e: int, id: u64)
    requires
        is_depth(tree, d),
        tree.structure().contains_key(id),
    ensures
        level(id) <= d,
        is_depth(tree, e) ==> d == e,
        (forall|x: u64| #[trigger] tree.structure().contains_key(x) ==> level(x) <= level(id)) ==> d
            == level(id),
{
}

} // verus!
