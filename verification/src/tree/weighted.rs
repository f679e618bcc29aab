//! Growing a tree from classes of very different size.

use super::grow::{fitted, lemma_admits_each};
use super::DynFrsTree;
use crate::dataset::Dataset;
use crate::draw::{exchanged, lemma_any_start, places};
use crate::fraction::Fraction;
use crate::random::{ask_index, put_since, Question};
use crate::sample::{lemma_exchange, listed, rows, Rows, Sample, SampleData};
use vstd::multiset::Multiset;
use vstd::prelude::*;

verus! {

/// The unit that ratios are counted in.
pub const RATIO_ONE: i64 = 1_000_000_000;

/// The smallest ratio that weights are made from.
pub const LEAST_RATIO: i64 = 100_000;

/// The largest ratio that weights are made from.
pub const MOST_RATIO: i64 = 999_900_000;

/// How much the samples of each class weigh.
#[derive(Clone, Copy, Debug)]
pub struct ClassWeightConfig {
    /// The weight of a positive sample.
    pub positive_weight: Fraction,
    /// The weight of a negative sample.
    pub negative_weight: Fraction,
    /// The share of the samples that is drawn.
    pub bootstrap_ratio: Fraction,
}

/// A ratio that is neither too small nor too large.
pub open spec fn held_ratio(ratio: i64) -> i64 {
    if ratio < LEAST_RATIO {
        LEAST_RATIO
    } else if ratio > MOST_RATIO {
        MOST_RATIO
    } else {
        ratio
    }
}

impl ClassWeightConfig {
    /// Weights each class by the inverse of its share, where the share of the positive
    /// class is given in parts of 10^9.
    pub fn from_ratio(positive_ratio: i64) -> (r: Self)
        ensures
            r.positive_weight == (Fraction {
                num: 1_000_000_000,
                den: held_ratio(positive_ratio) as u128,
            }),
            r.negative_weight == (Fraction {
                num: 1_000_000_000,
                den: (RATIO_ONE - held_ratio(positive_ratio)) as u128,
            }),
            r.bootstrap_ratio == (Fraction { num: 1, den: 1 }),
    {
        let ratio: i64 = if positive_ratio < LEAST_RATIO {
            LEAST_RATIO
        } else if positive_ratio > MOST_RATIO {
            MOST_RATIO
        } else {
            positive_ratio
        };
        ClassWeightConfig {
            positive_weight: Fraction::new(1_000_000_000, ratio as u128),
            negative_weight: Fraction::new(1_000_000_000, (RATIO_ONE - ratio) as u128),
            bootstrap_ratio: Fraction::new(1, 1),
        }
    }

    /// Weights both classes the same.
    pub fn balanced() -> (r: Self)
        ensures
            r.positive_weight == (Fraction { num: 1, den: 1 }),
            r.negative_weight == (Fraction { num: 1, den: 1 }),
            r.bootstrap_ratio == (Fraction { num: 1, den: 1 }),
    {
        ClassWeightConfig {
            positive_weight: Fraction::new(1, 1),
            negative_weight: Fraction::new(1, 1),
            bootstrap_ratio: Fraction::new(1, 1),
        }
    }

    /// The weight of a sample with a label.
    pub fn weight_for(&self, label: bool) -> (r: Fraction)
        ensures
            r == (if label {
                self.positive_weight
            } else {
                self.negative_weight
            }),
    {
        if label {
            self.positive_weight
        } else {
            self.negative_weight
        }
    }
}

/// The samples of one class, in order.
pub open spec fn of_class(samples: Seq<SampleData>, label: bool) -> Seq<SampleData>
    decreases samples.len(),
{
    if samples.len() == 0 {
        Seq::empty()
    } else {
        let rest = of_class(samples.drop_last(), label);
        if samples.last().label == label {
            rest.push(samples.last())
        } else {
            rest
        }
    }
}

/// The label of the smaller class; of two classes of the same size, the positive one.
pub open spec fn minority_label(samples: Seq<SampleData>) -> bool {
    of_class(samples, true).len() <= of_class(samples, false).len()
}

/// Whether the smaller class is more than three times smaller than the other one.
pub open spec fn lopsided(minority: int, majority: int) -> bool {
    minority * 3 < majority
}

/// How many samples of the larger class are drawn.
pub open spec fn majority_drawn(minority: int, majority: int) -> int {
    if minority * 2 <= majority {
        minority * 2
    } else {
        majority
    }
}

/// A list after its places, from the last one down, have been exchanged with drawn ones.
pub open spec fn shuffled<T>(list: Seq<T>, draws: Seq<usize>, n: int) -> Seq<T>
    decreases n,
{
    if n <= 0 {
        list
    } else {
        let before = shuffled(list, draws, n - 1);
        let i = list.len() - n;
        before.update(i, before[draws[n - 1] as int]).update(draws[n - 1] as int, before[i])
    }
}

/// Whether draws can pick samples of the larger class and shuffle the result.
pub open spec fn fit_draws(minority: int, majority: int, picks: Seq<usize>, swaps: Seq<usize>) -> bool {
    let total = minority + majority_drawn(minority, majority);
    &&& picks.len() == majority_drawn(minority, majority)
    &&& forall|i: int| 0 <= i < picks.len() ==> i <= #[trigger] picks[i] < majority
    &&& swaps.len() == (if total > 0 {
        total - 1
    } else {
        0
    })
    &&& forall|i: int| 0 <= i < swaps.len() ==> #[trigger] swaps[i] <= total - 1 - i
}

/// The samples that draws pick: all of the smaller class and some of the larger one, in
/// the order that the draws give.
pub open spec fn picked_by(
    samples: Seq<SampleData>,
    picks: Seq<usize>,
    swaps: Seq<usize>,
) -> Seq<SampleData> {
    let minority = of_class(samples, minority_label(samples));
    let majority = of_class(samples, !minority_label(samples));
    let chosen = exchanged(majority, picks, picks.len() as int).take(picks.len() as int);
    shuffled(minority + chosen, swaps, swaps.len() as int)
}

/// Whether questions are those by which samples are picked: one for each sample of the
/// larger class that is wanted, for any that has not been picked yet, and then one for each
/// place but the first one of the result, from the last place down, for any place up to it.
pub open spec fn asks_balanced(minority: int, majority: int, asked: Seq<Question>) -> bool {
    let wanted = majority_drawn(minority, majority);
    let total = minority + wanted;
    &&& asked.len() == wanted + (if total > 0 {
        total - 1
    } else {
        0
    })
    &&& forall|i: int| 0 <= i < asked.len() ==> (#[trigger] asked[i]).answered()
    &&& forall|i: int|
        0 <= i < wanted ==> (#[trigger] asked[i]).low == i && asked[i].high == majority
    &&& forall|i: int|
        wanted <= i < asked.len() ==> (#[trigger] asked[i]).low == 0 && asked[i].high == total - (i
            - wanted)
}

/// The samples that the answers to questions pick: all if no class is much smaller than the
/// other one.
pub open spec fn picked_from(samples: Seq<SampleData>, asked: Seq<Question>) -> Seq<SampleData> {
    let minority = of_class(samples, minority_label(samples)).len() as int;
    let majority = of_class(samples, !minority_label(samples)).len() as int;
    let wanted = majority_drawn(minority, majority);
    picked_by(samples, places(asked.take(wanted)), places(asked.skip(wanted)))
}

/// Whether some samples are what the answers to the first questions pick, if one class is much
/// smaller than the other one.
pub open spec fn is_picked_part(
    samples: Seq<SampleData>,
    part: Rows,
    before: Seq<Question>,
    after: Seq<Question>,
) -> bool {
    let minority = of_class(samples, minority_label(samples)).len() as int;
    let majority = of_class(samples, !minority_label(samples)).len() as int;
    lopsided(minority, majority) ==> exists|asked: Seq<Question>|
        {
            &&& #[trigger] (before + asked).is_prefix_of(after)
            &&& asks_balanced(minority, majority, asked)
            &&& part == picked_from(samples, asked).to_multiset()
        }
}

/// Places that are exchanged with themselves leave a list as it is.
proof fn lemma_shuffled_still<T>(list: Seq<T>, draws: Seq<usize>, n: int)
    requires
        0 <= n <= draws.len() <= list.len(),
        forall|i: int| 0 <= i < n ==> #[trigger] draws[i] == list.len() - 1 - i,
    ensures
        shuffled(list, draws, n) == list,
    decreases n,
{
    if n > 0 {
        lemma_shuffled_still(list, draws, n - 1);
        assert(draws[n - 1] == list.len() - n);
        assert(shuffled(list, draws, n) =~= list);
    }
}

/// Any samples of the larger class can be picked: for each list of as many distinct ones as
/// are wanted there are answers to the questions that are put by which all of the smaller
/// class and these are picked.
pub proof fn law_every_part_can_be_picked(
    samples: Seq<SampleData>,
    minority: Seq<SampleData>,
    majority: Seq<SampleData>,
    wanted: Seq<int>,
)
    requires
        samples.len() <= u32::MAX,
        minority == of_class(samples, minority_label(samples)),
        majority == of_class(samples, !minority_label(samples)),
        minority.len() * 3 < majority.len(),
        wanted.len() == 2 * minority.len(),
        wanted.no_duplicates(),
        forall|i: int| 0 <= i < wanted.len() ==> 0 <= #[trigger] wanted[i] < majority.len(),
    ensures
        exists|asked: Seq<Question>| #[trigger]
            asks_balanced(minority.len() as int, majority.len() as int, asked) && picked_from(
                samples,
                asked,
            ) == minority + Seq::new(wanted.len(), |i: int| majority[wanted[i]]),
{
    lemma_of_class(samples, true);
    lemma_of_class(samples, false);
    let k = wanted.len() as int;
    let draws = lemma_any_start(majority, wanted);
    let total = minority.len() + k;
    let rest = if total > 0 {
        total - 1
    } else {
        0
    };
    let asked = Seq::new(
        (k + rest) as nat,
        |i: int|
            if i < k {
                Question { low: i, high: majority.len() as int, answer: draws[i] as int }
            } else {
                Question { low: 0, high: total - (i - k), answer: total - 1 - (i - k) }
            },
    );
    assert forall|i: int| 0 <= i < asked.len() implies (#[trigger] asked[i]).answered() by {
        if i < k {
            assert(i <= draws[i] < majority.len());
        }
    }
    let picks = places(asked.take(k));
    let swaps = places(asked.skip(k));
    assert(picks =~= draws);
    let chosen = Seq::new(wanted.len(), |i: int| majority[wanted[i]]);
    assert(exchanged(majority, draws, k).take(k) =~= chosen);
    assert forall|i: int| 0 <= i < swaps.len() implies #[trigger] swaps[i] == total - 1 - i by {
        assert(asked.skip(k)[i] == asked[k + i]);
    }
    lemma_shuffled_still(minority + chosen, swaps, swaps.len() as int);
    assert(picked_from(samples, asked) == minority + chosen);
    assert(asks_balanced(minority.len() as int, majority.len() as int, asked));
}

/// The samples of one class.
pub open spec fn class_of(m: Rows, label: bool) -> Rows {
    m.filter(|d: SampleData| d.label == label)
}

/// Whether some samples are what a tree is grown from: all samples, unless one class is
/// more than three times smaller than the other one; then all of the smaller class, and
/// twice as many of the larger one.
pub open spec fn is_balanced_part(m: Rows, part: Rows) -> bool {
    let small = class_of(m, true).len() <= class_of(m, false).len();
    let minority = class_of(m, small).len() as int;
    let majority = class_of(m, !small).len() as int;
    if lopsided(minority, majority) {
        &&& part.subset_of(m)
        &&& class_of(part, small) == class_of(m, small)
        &&& class_of(part, !small).len() == majority_drawn(minority, majority)
    } else {
        part == m
    }
}

/// The classes of a list hold its samples.
proof fn lemma_of_class(samples: Seq<SampleData>, label: bool)
    ensures
        of_class(samples, label).to_multiset() == class_of(samples.to_multiset(), label),
        of_class(samples, label).len() <= samples.len(),
        of_class(samples, label).len() == class_of(samples.to_multiset(), label).len(),
    decreases samples.len(),
{
    broadcast use vstd::seq_lib::group_to_multiset_ensures;

    let part = of_class(samples, label);
    if samples.len() == 0 {
        assert(samples.to_multiset() =~= Multiset::empty());
        assert(part.to_multiset() =~= Multiset::empty());
        assert(class_of(samples.to_multiset(), label) =~= Multiset::<SampleData>::empty());
    } else {
        let front = samples.drop_last();
        let d = samples.last();
        lemma_of_class(front, label);
        assert(samples =~= front.push(d));
        assert(samples.to_multiset() =~= front.to_multiset().insert(d));
        assert(class_of(front.to_multiset().insert(d), label) =~= (if d.label == label {
            class_of(front.to_multiset(), label).insert(d)
        } else {
            class_of(front.to_multiset(), label)
        }));
        if d.label == label {
            assert(part.to_multiset() =~= of_class(front, label).to_multiset().insert(d));
        }
    }
}

/// Exchanges keep the samples.
proof fn lemma_exchanged_rows(list: Seq<SampleData>, draws: Seq<usize>, n: int)
    requires
        0 <= n <= draws.len() <= list.len(),
        forall|i: int| 0 <= i < draws.len() ==> #[trigger] draws[i] < list.len(),
    ensures
        exchanged(list, draws, n).len() == list.len(),
        exchanged(list, draws, n).to_multiset() == list.to_multiset(),
    decreases n,
{
    if n > 0 {
        lemma_exchanged_rows(list, draws, n - 1);
        lemma_exchange(exchanged(list, draws, n - 1), n - 1, draws[n - 1] as int);
    }
}

/// Shuffling keeps the samples.
proof fn lemma_shuffled_rows(list: Seq<SampleData>, draws: Seq<usize>, n: int)
    requires
        0 <= n <= draws.len() <= list.len(),
        forall|i: int| 0 <= i < draws.len() ==> #[trigger] draws[i] < list.len(),
    ensures
        shuffled(list, draws, n).len() == list.len(),
        shuffled(list, draws, n).to_multiset() == list.to_multiset(),
    decreases n,
{
    if n > 0 {
        lemma_shuffled_rows(list, draws, n - 1);
        lemma_exchange(shuffled(list, draws, n - 1), list.len() - n, draws[n - 1] as int);
    }
}

/// A ratio is held to what weights can be given for: it stays between one ten-thousandth and
/// the rest of that, keeps its value there, and is held the same for either class.
pub proof fn law_ratio_is_held(ratio: i64, other: i64)
    ensures
        100_000 <= held_ratio(ratio) <= 999_900_000,
        100_000 <= ratio <= 999_900_000 ==> held_ratio(ratio) == ratio,
        ratio <= other ==> held_ratio(ratio) <= held_ratio(other),
        ratio + other == 1_000_000_000 ==> held_ratio(ratio) + held_ratio(other) == 1_000_000_000,
{
}

/// What a tree is grown from: of a class of which there are more than three times as many
/// samples as of the other one only twice as many as of that one, with all of that one; and
/// otherwise all samples.
pub proof fn law_classes_are_balanced(m: Rows, part: Rows, label: bool)
    requires
        is_balanced_part(m, part),
    ensures
        ({
            let few = m.filter(|d: SampleData| d.label == label);
            let many = m.filter(|d: SampleData| d.label == !label);
            &&& few.len() * 3 < many.len() ==> {
                &&& part.subset_of(m)
                &&& part.filter(|d: SampleData| d.label == label) == few
                &&& part.filter(|d: SampleData| d.label == !label).len() == 2 * few.len()
            }
            &&& few.len() * 3 >= many.len() && many.len() * 3 >= few.len() ==> part == m
        }),
{
    assert(class_of(m, label) == m.filter(|d: SampleData| d.label == label));
    assert(class_of(m, !label) == m.filter(|d: SampleData| d.label == !label));
}

/// Whatever is drawn, the picked samples are all of the smaller class, and twice as many
/// of the larger one, none of them more often than it was there.
pub proof fn law_picked_is_balanced(
    samples: Seq<SampleData>,
    picks: Seq<usize>,
    swaps: Seq<usize>,
)
    requires
        lopsided(
            of_class(samples, minority_label(samples)).len() as int,
            of_class(samples, !minority_label(samples)).len() as int,
        ),
        fit_draws(
            of_class(samples, minority_label(samples)).len() as int,
            of_class(samples, !minority_label(samples)).len() as int,
            picks,
            swaps,
        ),
    ensures
        is_balanced_part(
            samples.to_multiset(),
            picked_by(samples, picks, swaps).to_multiset(),
        ),
        picked_by(samples, picks, swaps).len() == of_class(samples, minority_label(samples)).len()
            + picks.len(),
{
    broadcast use vstd::seq_lib::group_to_multiset_ensures;

    let m = samples.to_multiset();
    let small = minority_label(samples);
    let minority = of_class(samples, small);
    let majority = of_class(samples, !small);
    let mixed = exchanged(majority, picks, picks.len() as int);
    let k = picks.len() as int;
    let chosen = mixed.take(k);
    let all = minority + chosen;
    lemma_of_class(samples, true);
    lemma_of_class(samples, false);
    lemma_exchanged_rows(majority, picks, k);
    assert(mixed =~= mixed.take(k) + mixed.skip(k));
    vstd::seq_lib::lemma_multiset_commutative(mixed.take(k), mixed.skip(k));
    vstd::seq_lib::lemma_multiset_commutative(minority, chosen);
    assert(small == (class_of(m, true).len() <= class_of(m, false).len()));
    lemma_shuffled_rows(all, swaps, swaps.len() as int);
    let part = picked_by(samples, picks, swaps).to_multiset();
    assert(part == minority.to_multiset().add(chosen.to_multiset()));
    assert forall|d: SampleData| #[trigger]
        chosen.to_multiset().count(d) <= class_of(m, !small).count(d) by {
        assert(mixed.to_multiset().count(d) == chosen.to_multiset().count(d) + mixed.skip(
            k,
        ).to_multiset().count(d));
    }
    assert(class_of(part, small) =~= class_of(m, small));
    assert(class_of(part, !small) =~= chosen.to_multiset());
    assert(part.subset_of(m));
}

/// Picks samples as draws say.
pub fn sample_from_draws<'a, S: Sample>(
    samples: &'a [S],
    picks: &Vec<usize>,
    swaps: &Vec<usize>,
) -> (r: Vec<&'a S>)
    requires
        fit_draws(
            of_class(listed(samples@), minority_label(listed(samples@))).len() as int,
            of_class(listed(samples@), !minority_label(listed(samples@))).len() as int,
            picks@,
            swaps@,
        ),
    ensures
        listed(r@) == picked_by(listed(samples@), picks@, swaps@),
{
    let (positive, negative) = classes(samples);
    let small: bool = positive.len() <= negative.len();
    let (mut all, mut pool) = if small {
        (positive, negative)
    } else {
        (negative, positive)
    };
    let ghost minority = listed(all@);
    let ghost majority = listed(pool@);
    let mut i: usize = 0;
    while i < picks.len()
        invariant
            i <= picks@.len() <= majority.len(),
            pool@.len() == majority.len(),
            forall|i: int| 0 <= i < picks@.len() ==> i <= #[trigger] picks@[i] < majority.len(),
            listed(pool@) == exchanged(majority, picks@, i as int),
        decreases picks@.len() - i,
    {
        let j: usize = picks[i];
        let x = pool[i];
        let y = pool[j];
        pool.set(i, y);
        pool.set(j, x);
        i = i + 1;
        assert(listed(pool@) =~= exchanged(majority, picks@, i as int));
    }
    let mut k: usize = 0;
    while k < picks.len()
        invariant
            k <= picks@.len() <= pool@.len(),
            listed(all@) == minority + listed(pool@).take(k as int),
        decreases picks@.len() - k,
    {
        let ghost before = listed(all@);
        all.push(pool[k]);
        assert(listed(all@) =~= before.push(listed(pool@)[k as int]));
        k = k + 1;
        assert(listed(all@) =~= minority + listed(pool@).take(k as int));
    }
    let ghost mixed = listed(all@);
    let mut n: usize = 0;
    while n < swaps.len()
        invariant
            n <= swaps@.len() < mixed.len() || swaps@.len() == 0 && n == 0,
            all@.len() == mixed.len(),
            forall|i: int| 0 <= i < swaps@.len() ==> #[trigger] swaps@[i] <= mixed.len() - 1 - i,
            listed(all@) == shuffled(mixed, swaps@, n as int),
        decreases swaps@.len() - n,
    {
        let i: usize = all.len() - 1 - n;
        let j: usize = swaps[n];
        let x = all[i];
        let y = all[j];
        all.set(i, y);
        all.set(j, x);
        n = n + 1;
        assert(listed(all@) =~= shuffled(mixed, swaps@, n as int));
    }
    all
}

/// Divides samples by their labels.
fn classes<S: Sample>(samples: &[S]) -> (r: (Vec<&S>, Vec<&S>))
    ensures
        listed(r.0@) == of_class(listed(samples@), true),
        listed(r.1@) == of_class(listed(samples@), false),
        r.0@.len() + r.1@.len() == samples@.len(),
{
    let ghost list = listed(samples@);
    let mut positive: Vec<&S> = Vec::new();
    assert(listed(positive@) =~= Seq::<SampleData>::empty());
    let mut negative: Vec<&S> = Vec::new();
    let mut i: usize = 0;
    while i < samples.len()
        invariant
            i <= samples@.len(),
            listed(positive@) == of_class(list.take(i as int), true),
            listed(negative@) == of_class(list.take(i as int), false),
            list == listed(samples@),
            positive@.len() + negative@.len() == i,
        decreases samples@.len() - i,
    {
        assert(list.take(i as int + 1).drop_last() =~= list.take(i as int));
        if samples[i].label() {
            let ghost before = listed(positive@);
            positive.push(&samples[i]);
            assert(listed(positive@) =~= before.push(list[i as int]));
        } else {
            let ghost before = listed(negative@);
            negative.push(&samples[i]);
            assert(listed(negative@) =~= before.push(list[i as int]));
        }
        i = i + 1;
    }
    assert(list.take(i as int) =~= list);
    (positive, negative)
}

impl DynFrsTree {
    /// Picks the samples that the tree is grown from.
    fn weighted_bootstrap_sample<'a, S: Sample>(&mut self, samples: &'a [S]) -> (r: Vec<&'a S>)
        requires
            samples@.len() <= u32::MAX,
        ensures
            final(self).same_but_source(old(self)),
            r@.len() <= samples@.len(),
            is_balanced_part(rows(samples@), rows(r@)),
            ({
                let list = listed(samples@);
                let minority = of_class(list, minority_label(list)).len() as int;
                let majority = of_class(list, !minority_label(list)).len() as int;
                let asked = put_since(old(self).asked(), final(self).asked());
                lopsided(minority, majority) ==> asks_balanced(minority, majority, asked)
                    && listed(r@) == picked_from(list, asked)
            }),
            old(self).asked().is_prefix_of(final(self).asked()),
    {
        let (positive, negative) = classes(samples);
        let (minority, majority): (usize, usize) = if positive.len() <= negative.len() {
            (positive.len(), negative.len())
        } else {
            (negative.len(), positive.len())
        };
        let ghost list = listed(samples@);
        proof {
            lemma_of_class(list, true);
            lemma_of_class(list, false);
        }
        if minority as u64 * 3 >= majority as u64 {
            assert(self.log@.is_prefix_of(self.log@));
            return all_of(samples);
        }
        let target: usize = if minority * 2 <= majority {
            minority * 2
        } else {
            majority
        };
        let ghost start = self.log@;
        let ghost mut asked: Seq<Question> = Seq::empty();
        assert(self.log@ =~= start + asked);
        let mut picks: Vec<usize> = Vec::new();
        assert(places(asked) =~= picks@);
        while picks.len() < target
            invariant
                self.same_but_source(old(self)),
                self.log@ == start + asked,
                asked.len() == picks@.len(),
                places(asked) == picks@,
                forall|i: int|
                    0 <= i < asked.len() ==> (#[trigger] asked[i]).low == i && asked[i].high == majority
                        && asked[i].answered(),
                picks@.len() <= target <= majority,
                forall|i: int|
                    0 <= i < picks@.len() ==> i <= #[trigger] picks@[i] < majority,
            decreases target - picks@.len(),
        {
            let j: usize = ask_index(&mut self.rng, &mut self.log, picks.len(), majority);
            proof {
                let q = Question {
                    low: picks@.len() as int,
                    high: majority as int,
                    answer: j as int,
                };
                assert(self.log@ =~= start + asked.push(q));
                asked = asked.push(q);
            }
            picks.push(j);
            assert(places(asked) =~= picks@);
        }
        let ghost first = asked;
        let total: usize = minority + target;
        let mut swaps: Vec<usize> = Vec::new();
        assert(asked.take(target as int) =~= first);
        assert(places(asked.skip(target as int)) =~= swaps@);
        while swaps.len() + 1 < total
            invariant
                self.same_but_source(old(self)),
                self.log@ == start + asked,
                first.len() == target,
                asked.len() == target + swaps@.len(),
                asked.take(target as int) == first,
                places(asked.skip(target as int)) == swaps@,
                forall|i: int| 0 <= i < asked.len() ==> (#[trigger] asked[i]).answered(),
                forall|i: int|
                    target <= i < asked.len() ==> (#[trigger] asked[i]).low == 0 && asked[i].high
                        == total - (i - target),
                swaps@.len() + 1 <= total || (total == 0 && swaps@.len() == 0),
                total <= 0x2_0000_0000,
                forall|i: int|
                    0 <= i < swaps@.len() ==> #[trigger] swaps@[i] <= total - 1 - i,
            decreases total - swaps@.len(),
        {
            let j: usize = ask_index(&mut self.rng, &mut self.log, 0, total - swaps.len());
            proof {
                let q = Question { low: 0, high: total - swaps@.len(), answer: j as int };
                assert(self.log@ =~= start + asked.push(q));
                asked = asked.push(q);
            }
            swaps.push(j);
            assert(asked.take(target as int) =~= first);
            assert(places(asked.skip(target as int)) =~= swaps@);
        }
        proof {
            assert(put_since(start, self.log@) =~= asked);
            assert(start.is_prefix_of(self.log@));
            assert forall|i: int| 0 <= i < target implies (#[trigger] asked[i]).low == i
                && asked[i].high == majority by {
                assert(asked.take(target as int)[i] == asked[i]);
            }
            assert(asks_balanced(minority as int, majority as int, asked));
            law_picked_is_balanced(list, picks@, swaps@);
        }
        let r = sample_from_draws(samples, &picks, &swaps);
        assert(r@.len() == listed(r@).len());
        r
    }

    /// Grows the tree anew from samples in which the classes are balanced. Without samples
    /// the tree has no nodes. The balance goes by the numbers of samples; the weights are
    /// not looked at.
    pub fn fit_weighted<D: Dataset, S: Sample>(
        &mut self,
        dataset: &D,
        samples: &[S],
        class_weights: &ClassWeightConfig,
    )
        requires
            old(self).wf(),
            samples@.len() <= u32::MAX,
            old(self).width() <= dataset.attribute_types().len(),
            old(self).plan(dataset.attribute_types()).admits_each(samples@),
        ensures
            final(self).wf(),
            final(self).same_setting(old(self)),
            exists|part: Rows|
                is_balanced_part(rows(samples@), part) && #[trigger] fitted(
                    *old(self),
                    *final(self),
                    old(self).plan(dataset.attribute_types()),
                    part,
                ) && is_picked_part(
                    listed(samples@),
                    part,
                    old(self).asked(),
                    final(self).asked(),
                ),
    {
        let _ = class_weights;
        let mut drawn = self.weighted_bootstrap_sample(samples);
        let ghost part = rows(drawn@);
        let ghost plan = old(self).plan(dataset.attribute_types());
        assert(self.wf() && self.plan(dataset.attribute_types()) == plan && self.states()
            == old(self).states() && self.same_setting(old(self)));
        proof {
            lemma_admits_each(plan, samples@);
            lemma_admits_each(plan, drawn@);
        }
        assert forall|d: SampleData| #[trigger] part.count(d) > 0 implies plan.admits(d.values) by {
            assert(rows(samples@).count(d) > 0);
        }
        let ghost asked = put_since(old(self).asked(), self.asked());
        assert(old(self).asked() + asked =~= self.asked());
        self.fit(dataset, drawn.as_mut_slice());
        assert((old(self).asked() + asked).is_prefix_of(self.asked()));
        assert(is_picked_part(listed(samples@), part, old(self).asked(), self.asked()));
        assert(fitted(*old(self), *self, plan, part));
    }
}

/// Refers to every sample.
fn all_of<S: Sample>(samples: &[S]) -> (r: Vec<&S>)
    ensures
        r@.len() == samples@.len(),
        rows(r@) == rows(samples@),
{
    let mut refs: Vec<&S> = Vec::new();
    let mut i: usize = 0;
    while i < samples.len()
        invariant
            i <= samples@.len(),
            refs@.len() == i,
            forall|j: int| 0 <= j < i ==> *#[trigger] refs@[j] == samples@[j],
        decreases samples@.len() - i,
    {
        refs.push(&samples[i]);
        i = i + 1;
    }
    assert(listed(refs@) =~= listed(samples@));
    refs
}

} // verus!
