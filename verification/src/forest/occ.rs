//! Choosing the trees that a sample is put into.

use crate::draw::places;
use crate::random::{ask_index, put_since, Inquiry, Question};
use rand_xorshift::XorShiftRng;
use super::DynFrsForest;
use vstd::prelude::*;

verus! {

/// How many trees a sample is put into: as many as asked for, but at least one and not
/// more than there are.
pub open spec fn slots(num_trees: int, k: int) -> int {
    if num_trees == 0 {
        0
    } else if k < 1 {
        1
    } else if k > num_trees {
        num_trees
    } else {
        k
    }
}

/// Whether a list is a choice of trees for a sample: distinct trees in order, as many as
/// there are slots.
pub open spec fn is_selection(num_trees: int, k: int, list: Seq<usize>) -> bool {
    &&& list.len() == slots(num_trees, k)
    &&& forall|i: int, j: int| 0 <= i < j < list.len() ==> list[i] < list[j]
    &&& forall|i: int| 0 <= i < list.len() ==> #[trigger] list[i] < num_trees
}

/// The trees that the first draws choose: a tree is chosen if the number that is drawn
/// for it is below the number of slots that are still free.
pub open spec fn chosen_trees(free: int, draws: Seq<usize>, n: int) -> Seq<usize>
    decreases n,
{
    if n <= 0 {
        Seq::empty()
    } else {
        let before = chosen_trees(free, draws, n - 1);
        if draws[n - 1] < free - before.len() {
            before.push((n - 1) as usize)
        } else {
            before
        }
    }
}

/// Whether draws settle the choice of trees: each is below the number of trees that were
/// left, and the draws go on until the slots are taken.
pub open spec fn settles(num_trees: int, k: int, draws: Seq<usize>) -> bool {
    &&& draws.len() <= num_trees
    &&& forall|i: int| 0 <= i < draws.len() ==> #[trigger] draws[i] < num_trees - i
    &&& chosen_trees(slots(num_trees, k), draws, draws.len() as int).len() < slots(num_trees, k)
        ==> draws.len() == num_trees
}

/// What the first draws have chosen.
proof fn lemma_chosen(num_trees: int, free: int, draws: Seq<usize>, n: int)
    requires
        0 <= n <= draws.len() <= num_trees,
        0 <= free <= num_trees <= usize::MAX,
        forall|i: int| 0 <= i < draws.len() ==> #[trigger] draws[i] < num_trees - i,
    ensures
        ({
            let list = chosen_trees(free, draws, n);
            &&& list.len() <= free
            &&& list.len() <= n
            &&& free - list.len() <= num_trees - n
            &&& forall|i: int, j: int| 0 <= i < j < list.len() ==> list[i] < list[j]
            &&& forall|i: int| 0 <= i < list.len() ==> #[trigger] list[i] < n
        }),
    decreases n,
{
    if n > 0 {
        lemma_chosen(num_trees, free, draws, n - 1);
        assert(draws[n - 1] < num_trees - (n - 1));
    }
}

/// Whatever is drawn, a sample is put into exactly as many trees as there are slots, and
/// into no tree twice.
pub proof fn law_selection(num_trees: int, k: int, draws: Seq<usize>)
    requires
        0 <= num_trees <= usize::MAX,
        settles(num_trees, k, draws),
    ensures
        is_selection(
            num_trees,
            k,
            chosen_trees(slots(num_trees, k), draws, draws.len() as int),
        ),
{
    lemma_chosen(num_trees, slots(num_trees, k), draws, draws.len() as int);
}

/// A sample is put into at most as many trees as asked for, if at least one is asked for.
pub proof fn law_at_most_k(num_trees: int, k: int, list: Seq<usize>)
    requires
        is_selection(num_trees, k, list),
        k >= 1,
        num_trees >= 0,
    ensures
        list.len() <= k,
        list.len() <= num_trees,
        list.no_duplicates(),
{
}

/// Computes the number of slots.
pub fn count_slots(num_trees: usize, k: usize) -> (r: usize)
    ensures
        r == slots(num_trees as int, k as int),
{
    if num_trees == 0 {
        0
    } else if k < 1 {
        1
    } else if k > num_trees {
        num_trees
    } else {
        k
    }
}

/// Finds the trees that draws choose.
pub fn trees_from_draws(num_trees: usize, k: usize, draws: &Vec<usize>) -> (r: Vec<usize>)
    requires
        settles(num_trees as int, k as int, draws@),
    ensures
        r@ == chosen_trees(
            slots(num_trees as int, k as int),
            draws@,
            draws@.len() as int,
        ),
        is_selection(num_trees as int, k as int, r@),
{
    let free: usize = count_slots(num_trees, k);
    let mut selected: Vec<usize> = Vec::new();
    let mut i: usize = 0;
    while i < draws.len()
        invariant
            i <= draws@.len() <= num_trees,
            free == slots(num_trees as int, k as int),
            settles(num_trees as int, k as int, draws@),
            selected@ == chosen_trees(free as int, draws@, i as int),
        decreases draws@.len() - i,
    {
        proof {
            lemma_chosen(num_trees as int, free as int, draws@, i as int);
        }
        if draws[i] < free - selected.len() {
            selected.push(i);
        }
        i = i + 1;
    }
    proof {
        law_selection(num_trees as int, k as int, draws@);
    }
    selected
}

/// Whether questions are those by which trees are chosen: one for each tree in turn, for any
/// number below that of the trees that are left.
pub open spec fn asks_trees(num_trees: int, asked: Seq<Question>) -> bool {
    &&& asked.len() <= num_trees
    &&& forall|i: int|
        0 <= i < asked.len() ==> (#[trigger] asked[i]).low == 0 && asked[i].high == num_trees - i
            && asked[i].answered()
}

/// Any choice of trees can come: for each list of distinct trees in order, as many as a
/// sample is put into, there are answers to the questions that are put by which it is chosen.
pub proof fn law_every_selection_can_come(num_trees: int, k: int, list: Seq<usize>)
    requires
        0 < num_trees <= usize::MAX,
        1 <= k <= num_trees,
        list.len() == k,
        forall|i: int, j: int| 0 <= i < j < list.len() ==> list[i] < list[j],
        forall|i: int| 0 <= i < list.len() ==> #[trigger] list[i] < num_trees,
    ensures
        exists|asked: Seq<Question>| #[trigger]
            asks_trees(num_trees, asked) && settles(num_trees, k, places(asked)) && chosen_trees(
                slots(num_trees, k),
                places(asked),
                asked.len() as int,
            ) == list,
{
    let draws = Seq::new(
        num_trees as nat,
        |i: int|
            if list.contains(i as usize) {
                0usize
            } else {
                (num_trees - i - 1) as usize
            },
    );
    let asked = Seq::new(
        num_trees as nat,
        |i: int| Question { low: 0, high: num_trees - i, answer: draws[i] as int },
    );
    assert(places(asked) =~= draws);
    let c = lemma_led_to(num_trees, list, draws, num_trees);
    assert(c == list.len()) by {
        if c < list.len() {
            assert(list[c] < num_trees);
        }
    }
    assert(list.take(c) =~= list);
    assert(asks_trees(num_trees, asked));
}

/// How far draws that lead to a list have come: to the trees of the list up to a bound.
proof fn lemma_led_to(num_trees: int, list: Seq<usize>, draws: Seq<usize>, n: int) -> (c: int)
    requires
        0 < num_trees <= usize::MAX,
        draws.len() == num_trees,
        0 <= n <= num_trees,
        forall|i: int, j: int| 0 <= i < j < list.len() ==> list[i] < list[j],
        forall|i: int| 0 <= i < list.len() ==> #[trigger] list[i] < num_trees,
        forall|i: int|
            0 <= i < num_trees ==> #[trigger] draws[i] == (if list.contains(i as usize) {
                0usize
            } else {
                (num_trees - i - 1) as usize
            }),
    ensures
        0 <= c <= list.len(),
        chosen_trees(list.len() as int, draws, n) == list.take(c),
        forall|i: int| 0 <= i < c ==> #[trigger] list[i] < n,
        forall|i: int| c <= i < list.len() ==> #[trigger] list[i] >= n,
    decreases n,
{
    if n <= 0 {
        assert(list.take(0) =~= Seq::<usize>::empty());
        0
    } else {
        let c = lemma_led_to(num_trees, list, draws, n - 1);
        let t = (n - 1) as usize;
        assert(draws[n - 1] == (if list.contains(t) {
            0usize
        } else {
            (num_trees - (n - 1) - 1) as usize
        }));
        if list.contains(t) {
            let x = list.index_of(t);
            assert(x >= c);
            assert(x == c) by {
                if x > c {
                    assert(list[c] < list[x]);
                }
            }
            assert(list.take(c + 1) =~= list.take(c).push(t));
            assert forall|i: int| c + 1 <= i < list.len() implies #[trigger] list[i] >= n by {
                assert(list[c] < list[i]);
            }
            c + 1
        } else {
            assert forall|i: int| c <= i < list.len() implies #[trigger] list[i] >= n by {
                if list[i] == t {
                    assert(list.contains(t));
                }
            }
            if c < list.len() {
                lemma_spread(list, c, list.len() - 1);
                assert(list[list.len() - 1] < num_trees);
                assert(list[c] >= n);
            }
            c
        }
    }
}

/// Numbers in order are at least as far apart as their places.
proof fn lemma_spread(list: Seq<usize>, i: int, j: int)
    requires
        0 <= i <= j < list.len(),
        forall|x: int, y: int| 0 <= x < y < list.len() ==> list[x] < list[y],
    ensures
        list[j] - list[i] >= j - i,
    decreases j,
{
    if i < j {
        lemma_spread(list, i, j - 1);
        assert(list[j - 1] < list[j]);
    }
}

/// Every tree has the same chance: of the answers to the question for a tree, exactly as many
/// choose it as there are places left to fill, so that its chance is that number over the
/// number of trees that are left.
pub proof fn law_trees_have_equal_chances(num_trees: int, free: int, draws: Seq<usize>)
    requires
        0 <= free <= num_trees <= usize::MAX,
        draws.len() < num_trees,
        forall|i: int| 0 <= i < draws.len() ==> #[trigger] draws[i] < num_trees - i,
    ensures
        ({
            let n = draws.len() as int;
            let left = free - chosen_trees(free, draws, n).len();
            &&& 0 <= left <= num_trees - n
            &&& Set::new(
                |a: int|
                    0 <= a < num_trees - n && chosen_trees(
                        free,
                        draws.push(a as usize),
                        n + 1,
                    ).contains(n as usize),
            ).len() == left
        }),
{
    let n = draws.len() as int;
    let before = chosen_trees(free, draws, n);
    let left = free - before.len();
    lemma_chosen(num_trees, free, draws, n);
    let chance = Set::new(
        |a: int|
            0 <= a < num_trees - n && chosen_trees(free, draws.push(a as usize), n + 1).contains(
                n as usize,
            ),
    );
    assert forall|a: int| chance.contains(a) == vstd::set_lib::set_int_range(0, left).contains(
        a,
    ) by {
        if 0 <= a < num_trees - n {
            let longer = draws.push(a as usize);
            lemma_chosen_prefix(free, draws, longer, n);
            let all = chosen_trees(free, longer, n + 1);
            if a < left {
                assert(all[before.len() as int] == n);
            } else if all.contains(n as usize) {
                let x = all.index_of(n as usize);
                assert(before[x] < n);
            }
        }
    }
    assert(chance =~= vstd::set_lib::set_int_range(0, left));
    vstd::set_lib::lemma_int_range(0, left);
}

/// Chooses trees for a sample at random, and notes the questions that were put.
pub fn ask_trees(rng: &mut XorShiftRng, log: &mut Inquiry, num_trees: usize, k: usize) -> (r: Vec<
    usize,
>)
    ensures
        is_selection(num_trees as int, k as int, r@),
        old(log)@.is_prefix_of(final(log)@),
        asks_trees(num_trees as int, put_since(old(log)@, final(log)@)),
        settles(num_trees as int, k as int, places(put_since(old(log)@, final(log)@))),
        r@ == chosen_trees(
            slots(num_trees as int, k as int),
            places(put_since(old(log)@, final(log)@)),
            put_since(old(log)@, final(log)@).len() as int,
        ),
{
    let free: usize = count_slots(num_trees, k);
    let ghost start = log@;
    let mut taken: usize = 0;
    let mut draws: Vec<usize> = Vec::new();
    assert(put_since(start, log@) =~= Seq::<Question>::empty());
    while draws.len() < num_trees && taken < free
        invariant
            draws@.len() <= num_trees,
            free == slots(num_trees as int, k as int),
            forall|i: int| 0 <= i < draws@.len() ==> #[trigger] draws@[i] < num_trees - i,
            taken == chosen_trees(free as int, draws@, draws@.len() as int).len(),
            start.is_prefix_of(log@),
            log@.len() == start.len() + draws@.len(),
            asks_trees(num_trees as int, put_since(start, log@)),
            places(put_since(start, log@)) =~= draws@,
        decreases num_trees - draws@.len(),
    {
        let ghost before = draws@;
        let ghost asked = put_since(start, log@);
        proof {
            lemma_chosen(num_trees as int, free as int, draws@, draws@.len() as int);
        }
        let draw: usize = ask_index(rng, log, 0, num_trees - draws.len());
        draws.push(draw);
        proof {
            lemma_chosen_prefix(free as int, before, draws@, before.len() as int);
            assert(put_since(start, log@) =~= asked.push(
                Question { low: 0, high: num_trees - before.len(), answer: draw as int },
            ));
        }
        if draw < free - taken {
            taken = taken + 1;
        }
    }
    trees_from_draws(num_trees, k, &draws)
}

/// Chooses trees for a sample at random: as many as asked for, at least one, and all of
/// them if there are not more. Any choice may come.
pub fn draw_trees(rng: &mut XorShiftRng, num_trees: usize, k: usize) -> (r: Vec<usize>)
    ensures
        is_selection(num_trees as int, k as int, r@),
        exists|asked: Seq<Question>| #[trigger]
            asks_trees(num_trees as int, asked) && settles(
                num_trees as int,
                k as int,
                places(asked),
            ) && r@ == chosen_trees(
                slots(num_trees as int, k as int),
                places(asked),
                asked.len() as int,
            ),
{
    let mut log = Inquiry::new();
    ask_trees(rng, &mut log, num_trees, k)
}

/// What the first draws choose rests on those alone.
proof fn lemma_chosen_prefix(free: int, a: Seq<usize>, b: Seq<usize>, n: int)
    requires
        0 <= n <= a.len(),
        n <= b.len(),
        forall|i: int| 0 <= i < n ==> a[i] == b[i],
    ensures
        chosen_trees(free, a, n) == chosen_trees(free, b, n),
    decreases n,
{
    if n > 0 {
        lemma_chosen_prefix(free, a, b, n - 1);
    }
}

/// Whether trees are what was answered to the questions by which so many of them are chosen.
pub open spec fn is_answer(num_trees: int, k: int, asked: Seq<Question>, list: Seq<usize>) -> bool {
    &&& asks_trees(num_trees, asked)
    &&& list == chosen_trees(slots(num_trees, k), places(asked), asked.len() as int)
}

/// Whether trees have been chosen for samples one after the other, by questions that were
/// put for each of them and no others.
pub open spec fn are_answers(
    num_trees: int,
    ks: Seq<usize>,
    before: Seq<Question>,
    after: Seq<Question>,
    choice: Seq<Seq<usize>>,
) -> bool {
    exists|logs: Seq<Seq<Question>>|
        {
            &&& logs.len() == choice.len()
            &&& forall|i: int|
                0 <= i < logs.len() ==> is_answer(
                    num_trees,
                    ks[i] as int,
                    #[trigger] logs[i],
                    choice[i],
                )
            &&& after == before + #[trigger] logs.flatten_alt()
        }
}

impl DynFrsForest {
    /// Chooses trees of the forest for a sample, and notes the questions that were put.
    pub(super) fn choose_trees(&mut self, k: usize) -> (r: Vec<usize>)
        ensures
            final(self).trees == old(self).trees,
            final(self).sample_tree_map == old(self).sample_tree_map,
            final(self).sample_labels == old(self).sample_labels,
            final(self).config == old(self).config,
            final(self).num_attributes == old(self).num_attributes,
            final(self).add_rebuild_marks == old(self).add_rebuild_marks,
            final(self).forget_rebuild_marks == old(self).forget_rebuild_marks,
            final(self).tuning == old(self).tuning,
            is_selection(old(self).settings().num_trees as int, k as int, r@),
            old(self).asked().is_prefix_of(final(self).asked()),
            is_answer(
                old(self).settings().num_trees as int,
                k as int,
                put_since(old(self).asked(), final(self).asked()),
                r@,
            ),
    {
        ask_trees(&mut self.rng, &mut self.log, self.config.num_trees, k)
    }

    /// Chooses trees for a sample at random: as many as asked for, at least one, and all
    /// of them if there are not more. Which sample it is makes no difference.
    pub fn occ_sample_adaptive(&mut self, sample_id: u64, k: usize) -> (r: Vec<usize>)
        requires
            old(self).wf(),
        ensures
            final(self).wf(),
            final(self).same_setting(old(self)),
            final(self).forest() == old(self).forest(),
            final(self).members() == old(self).members(),
            final(self).classes() == old(self).classes(),
            final(self).marks() == old(self).marks(),
            final(self).tuning() == old(self).tuning(),
            is_selection(old(self).settings().num_trees as int, k as int, r@),
            old(self).asked().is_prefix_of(final(self).asked()),
            is_answer(
                old(self).settings().num_trees as int,
                k as int,
                put_since(old(self).asked(), final(self).asked()),
                r@,
            ),
    {
        let _ = sample_id;
        let r = self.choose_trees(k);
        assert forall|i: int| 0 <= i < self.forest().len() implies self.fits_in(
            #[trigger] self.forest()[i],
            i,
        ) by {
            assert(old(self).fits_in(old(self).forest()[i], i));
        }
        r
    }
}

} // verus!
