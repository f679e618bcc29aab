//! Choosing attributes at random.

use crate::random::{ask_index, put_since, Inquiry, Question};
use rand_xorshift::XorShiftRng;
use vstd::prelude::*;

verus! {

/// The numbers below a bound, in order.
pub open spec fn in_order(n: u8) -> Seq<u8> {
    Seq::new(n as nat, |i: int| i as u8)
}

/// A list after some exchanges: the first place with the first drawn place, the second
/// place with the second one, and so on.
pub open spec fn exchanged<T>(list: Seq<T>, draws: Seq<usize>, n: int) -> Seq<T>
    decreases n,
{
    if n <= 0 {
        list
    } else {
        let before = exchanged(list, draws, n - 1);
        before.update(n - 1, before[draws[n - 1] as int]).update(
            draws[n - 1] as int,
            before[n - 1],
        )
    }
}

/// Whether draws can be used to choose among so many attributes.
pub open spec fn drawable(n: u8, draws: Seq<usize>) -> bool {
    &&& draws.len() <= n
    &&& forall|i: int| 0 <= i < draws.len() ==> i <= #[trigger] draws[i] < n
}

/// The attributes that draws choose.
pub open spec fn chosen(n: u8, draws: Seq<usize>) -> Seq<u8> {
    exchanged(in_order(n), draws, draws.len() as int).take(draws.len() as int)
}

/// Whether a list is a choice of distinct attributes.
pub open spec fn is_choice(n: u8, count: int, list: Seq<u8>) -> bool {
    &&& list.len() == count
    &&& list.no_duplicates()
    &&& forall|i: int| 0 <= i < list.len() ==> #[trigger] list[i] < n
}

/// Exchanges keep the numbers apart.
proof fn lemma_exchanged(n: u8, draws: Seq<usize>, k: int)
    requires
        drawable(n, draws),
        0 <= k <= draws.len(),
    ensures
        exchanged(in_order(n), draws, k).len() == n,
        exchanged(in_order(n), draws, k).no_duplicates(),
        forall|i: int| 0 <= i < n ==> #[trigger] exchanged(in_order(n), draws, k)[i] < n,
    decreases k,
{
    if k > 0 {
        lemma_exchanged(n, draws, k - 1);
    }
}

/// Whatever is drawn, the chosen attributes are distinct, and there are as many of
/// them as draws.
pub proof fn law_chosen(n: u8, draws: Seq<usize>)
    requires
        drawable(n, draws),
    ensures
        is_choice(n, draws.len() as int, chosen(n, draws)),
{
    lemma_exchanged(n, draws, draws.len() as int);
}

/// Finds the attributes that draws choose.
pub fn attributes_from_draws(n: u8, draws: &Vec<usize>) -> (r: Vec<u8>)
    requires
        drawable(n, draws@),
    ensures
        r@ == chosen(n, draws@),
        is_choice(n, draws@.len() as int, r@),
{
    let mut list: Vec<u8> = Vec::new();
    let mut a: u8 = 0;
    while a < n
        invariant
            a <= n,
            list@ == in_order(a),
        decreases n - a,
    {
        list.push(a);
        a = a + 1;
        assert(list@ =~= in_order(a));
    }
    let mut i: usize = 0;
    while i < draws.len()
        invariant
            i <= draws@.len(),
            drawable(n, draws@),
            list@ == exchanged(in_order(n), draws@, i as int),
        decreases draws@.len() - i,
    {
        proof {
            lemma_exchanged(n, draws@, i as int);
        }
        let j: usize = draws[i];
        let x: u8 = list[i];
        let y: u8 = list[j];
        list.set(i, y);
        list.set(j, x);
        i = i + 1;
    }
    proof {
        lemma_exchanged(n, draws@, i as int);
        law_chosen(n, draws@);
    }
    list.truncate(draws.len());
    list
}

/// Whether questions are those by which so many attributes are chosen: one for each place,
/// for any place from that one up to the last attribute.
pub open spec fn asks_attributes(n: u8, count: int, asked: Seq<Question>) -> bool {
    &&& asked.len() == count
    &&& forall|i: int|
        0 <= i < asked.len() ==> (#[trigger] asked[i]).low == i && asked[i].high == n
            && asked[i].answered()
}

/// What was answered, as places.
pub open spec fn places(asked: Seq<Question>) -> Seq<usize> {
    Seq::new(asked.len(), |i: int| asked[i].answer as usize)
}

/// Any choice of attributes can come: for each list of distinct attributes there are answers
/// to the questions that are put by which it is chosen.
pub proof fn law_every_choice_can_come(n: u8, list: Seq<u8>)
    requires
        list.no_duplicates(),
        forall|i: int| 0 <= i < list.len() ==> #[trigger] list[i] < n,
    ensures
        exists|asked: Seq<Question>| #[trigger]
            asks_attributes(n, list.len() as int, asked) && chosen(n, places(asked)) == list,
{
    lemma_choice_len(n, list);
    let draws = lemma_reached(n, list, list.len() as int);
    let asked = Seq::new(
        list.len(),
        |i: int| Question { low: i, high: n as int, answer: draws[i] as int },
    );
    assert forall|i: int| 0 <= i < asked.len() implies (#[trigger] asked[i]).answered() by {
        assert(i <= draws[i] < n);
    }
    assert(places(asked) =~= draws);
    lemma_exchanged(n, draws, list.len() as int);
    assert(chosen(n, draws) =~= list);
    assert(asks_attributes(n, list.len() as int, asked));
}

/// A choice of attributes is no longer than there are attributes.
proof fn lemma_choice_len(n: u8, list: Seq<u8>)
    requires
        list.no_duplicates(),
        forall|i: int| 0 <= i < list.len() ==> #[trigger] list[i] < n,
    ensures
        list.len() <= n,
{
    let all = in_order(n);
    assert forall|a: u8| list.to_set().contains(a) implies all.to_set().contains(a) by {
        assert(a < n);
        assert(all[a as int] == a);
    }
    list.unique_seq_to_set();
    assert(all.no_duplicates());
    all.unique_seq_to_set();
    vstd::set_lib::lemma_len_subset(list.to_set(), all.to_set());
}

/// Draws by which the first attributes of a choice come to the first places.
proof fn lemma_reached(n: u8, list: Seq<u8>, k: int) -> (draws: Seq<usize>)
    requires
        list.no_duplicates(),
        list.len() <= n,
        forall|i: int| 0 <= i < list.len() ==> #[trigger] list[i] < n,
        0 <= k <= list.len(),
    ensures
        draws.len() == k,
        drawable(n, draws),
        forall|i: int| 0 <= i < k ==> exchanged(in_order(n), draws, k)[i] == list[i],
        forall|a: u8| a < n ==> #[trigger] exchanged(in_order(n), draws, k).contains(a),
    decreases k,
{
    if k <= 0 {
        let draws = Seq::<usize>::empty();
        assert forall|a: u8| a < n implies #[trigger] exchanged(in_order(n), draws, k).contains(
            a,
        ) by {
            assert(in_order(n)[a as int] == a);
        }
        draws
    } else {
        let before = lemma_reached(n, list, k - 1);
        let state = exchanged(in_order(n), before, k - 1);
        lemma_exchanged(n, before, k - 1);
        assert(state.contains(list[k - 1]));
        let j = state.index_of(list[k - 1]);
        assert(j >= k - 1) by {
            if j < k - 1 {
                assert(state[j] == list[j]);
                assert(list[j] != list[k - 1]);
            }
        }
        let draws = before.push(j as usize);
        lemma_exchanged_prefix(in_order(n), before, draws, k - 1);
        let after = exchanged(in_order(n), draws, k);
        assert forall|a: u8| a < n implies #[trigger] after.contains(a) by {
            assert(state.contains(a));
            let x = state.index_of(a);
            if x == k - 1 {
                assert(after[j] == a);
            } else if x == j {
                assert(after[k - 1] == a);
            } else {
                assert(after[x] == a);
            }
        }
        draws
    }
}

/// What the first exchanges do rests on the first draws alone.
proof fn lemma_exchanged_prefix<T>(list: Seq<T>, a: Seq<usize>, b: Seq<usize>, n: int)
    requires
        n <= a.len(),
        n <= b.len(),
        forall|i: int| 0 <= i < n ==> a[i] == b[i],
    ensures
        exchanged(list, a, n) == exchanged(list, b, n),
    decreases n,
{
    if n > 0 {
        lemma_exchanged_prefix(list, a, b, n - 1);
    }
}

/// The numbers below a bound.
spec fn numbers(n: nat) -> Seq<int> {
    Seq::new(n, |i: int| i)
}

/// Exchanges in a list are those in the list of its places.
proof fn lemma_exchanged_places<T>(all: Seq<T>, draws: Seq<usize>, k: int)
    requires
        0 <= k <= draws.len() <= all.len(),
        forall|i: int| 0 <= i < draws.len() ==> i <= #[trigger] draws[i] < all.len(),
    ensures
        ({
            let moved = exchanged(numbers(all.len()), draws, k);
            &&& moved.len() == all.len()
            &&& forall|i: int| 0 <= i < all.len() ==> 0 <= #[trigger] moved[i] < all.len()
            &&& exchanged(all, draws, k) =~= Seq::new(all.len(), |i: int| all[moved[i]])
        }),
    decreases k,
{
    if k > 0 {
        lemma_exchanged_places(all, draws, k - 1);
    }
}

/// Draws by which any distinct places of a list come to its start.
pub proof fn lemma_any_start<T>(all: Seq<T>, wanted: Seq<int>) -> (draws: Seq<usize>)
    requires
        wanted.no_duplicates(),
        wanted.len() <= all.len() <= usize::MAX,
        forall|i: int| 0 <= i < wanted.len() ==> 0 <= #[trigger] wanted[i] < all.len(),
    ensures
        draws.len() == wanted.len(),
        forall|i: int| 0 <= i < draws.len() ==> i <= #[trigger] draws[i] < all.len(),
        forall|i: int|
            0 <= i < wanted.len() ==> #[trigger] exchanged(all, draws, wanted.len() as int)[i]
                == all[wanted[i]],
        exchanged(all, draws, wanted.len() as int).len() == all.len(),
{
    lemma_start_upto(all, wanted, wanted.len() as int)
}

/// Draws by which the first ones of any distinct places of a list come to its start.
proof fn lemma_start_upto<T>(all: Seq<T>, wanted: Seq<int>, k: int) -> (draws: Seq<usize>)
    requires
        wanted.no_duplicates(),
        wanted.len() <= all.len() <= usize::MAX,
        forall|i: int| 0 <= i < wanted.len() ==> 0 <= #[trigger] wanted[i] < all.len(),
        0 <= k <= wanted.len(),
    ensures
        draws.len() == k,
        forall|i: int| 0 <= i < k ==> i <= #[trigger] draws[i] < all.len(),
        forall|i: int|
            0 <= i < k ==> #[trigger] exchanged(numbers(all.len()), draws, k)[i]
                == wanted[i],
        forall|a: int|
            0 <= a < all.len() ==> #[trigger] exchanged(
                numbers(all.len()),
                draws,
                k,
            ).contains(a),
        forall|i: int| 0 <= i < k ==> #[trigger] exchanged(all, draws, k)[i] == all[wanted[i]],
        exchanged(all, draws, k).len() == all.len(),
    decreases k,
{
    let order = numbers(all.len());
    if k <= 0 {
        let draws = Seq::<usize>::empty();
        assert forall|a: int| 0 <= a < all.len() implies #[trigger] exchanged(
            order,
            draws,
            k,
        ).contains(a) by {
            assert(order[a] == a);
        }
        draws
    } else {
        let before = lemma_start_upto(all, wanted, k - 1);
        let state = exchanged(order, before, k - 1);
        lemma_exchanged_places(all, before, k - 1);
        assert(state.contains(wanted[k - 1]));
        let j = state.index_of(wanted[k - 1]);
        assert(j >= k - 1) by {
            if j < k - 1 {
                assert(state[j] == wanted[j]);
                assert(wanted[j] != wanted[k - 1]);
            }
        }
        let draws = before.push(j as usize);
        lemma_exchanged_prefix(order, before, draws, k - 1);
        lemma_exchanged_prefix(all, before, draws, k - 1);
        let after = exchanged(order, draws, k);
        assert forall|i: int| 0 <= i < k implies i <= #[trigger] draws[i] < all.len() by {
            if i < k - 1 {
                assert(i <= before[i] < all.len());
            }
        }
        assert forall|i: int| 0 <= i < k implies #[trigger] after[i] == wanted[i] by {
            if i < k - 1 {
                assert(state[i] == wanted[i]);
            }
        }
        assert forall|a: int| 0 <= a < all.len() implies #[trigger] after.contains(a) by {
            assert(state.contains(a));
            let x = state.index_of(a);
            if x == k - 1 {
                assert(after[j] == a);
            } else if x == j {
                assert(after[k - 1] == a);
            } else {
                assert(after[x] == a);
            }
        }
        lemma_exchanged_places(all, draws, k);
        assert forall|i: int| 0 <= i < k implies #[trigger] exchanged(all, draws, k)[i]
            == all[wanted[i]] by {
            assert(after[i] == wanted[i]);
        }
        draws
    }
}

/// Chooses distinct attributes at random, all of them if there are not more, and notes the
/// questions that were put.
pub fn ask_attributes(rng: &mut XorShiftRng, log: &mut Inquiry, n: u8, count: usize) -> (r: Vec<
    u8,
>)
    ensures
        is_choice(
            n,
            if count <= n {
                count as int
            } else {
                n as int
            },
            r@,
        ),
        old(log)@.is_prefix_of(final(log)@),
        asks_attributes(n, r@.len() as int, put_since(old(log)@, final(log)@)),
        r@ == chosen(n, places(put_since(old(log)@, final(log)@))),
{
    let wanted: usize = if count <= n as usize {
        count
    } else {
        n as usize
    };
    let ghost start = log@;
    let mut draws: Vec<usize> = Vec::new();
    assert(put_since(start, log@) =~= Seq::<Question>::empty());
    while draws.len() < wanted
        invariant
            draws@.len() <= wanted <= n,
            drawable(n, draws@),
            start.is_prefix_of(log@),
            log@.len() == start.len() + draws@.len(),
            asks_attributes(n, draws@.len() as int, put_since(start, log@)),
            places(put_since(start, log@)) =~= draws@,
        decreases wanted - draws@.len(),
    {
        let ghost before = put_since(start, log@);
        let j: usize = ask_index(rng, log, draws.len(), n as usize);
        draws.push(j);
        assert(put_since(start, log@) =~= before.push(
            Question { low: before.len() as int, high: n as int, answer: j as int },
        ));
    }
    attributes_from_draws(n, &draws)
}

/// Chooses distinct attributes at random, all of them if there are not more. Any choice may
/// come.
pub fn draw_attributes(rng: &mut XorShiftRng, n: u8, count: usize) -> (r: Vec<u8>)
    ensures
        is_choice(
            n,
            if count <= n {
                count as int
            } else {
                n as int
            },
            r@,
        ),
        exists|asked: Seq<Question>| #[trigger]
            asks_attributes(n, r@.len() as int, asked) && r@ == chosen(n, places(asked)),
{
    let mut log = Inquiry::new();
    ask_attributes(rng, &mut log, n, count)
}

} // verus!
