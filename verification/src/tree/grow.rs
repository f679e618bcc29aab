//! Growing a tree from samples.

use super::shape::{
    arrivals, distinct, end_of, exact, full, is_inner, lemma_end_path, lemma_ids_insert, lemma_linked_at,
    lemma_reaches_child, lemma_reaches_frame, lemma_room, linked, mapped, narrow, reaches,
    routable, Nodes,
};
use super::{DynFrsTree, TreeConfig};
use crate::count::{lemma_those, lemma_those_agree, those};
use crate::dataset::{is_range, range_of, AttributeType, Dataset};
use crate::draw::{
    ask_attributes, asks_attributes, chosen, is_choice, law_every_choice_can_come, places,
};
use crate::fixed::{category_of, is_near, near, ONE};
use crate::fraction::Fraction;
use crate::node::node_id::{
    law_level_bounds, law_parent_of_child, left_child, lemma_within_children, lemma_within_root,
    level, right_child, within, MAX_PARENT, ROOT,
};
use crate::node::{LazyTag, Node, NodeView};
use crate::random::{ask_bits, ask_value, put_since, Question};
use crate::sample::{
    count_plus, ids, lemma_plus, lemma_rows, lemma_rows_concat, lemma_rows_empty, lemma_rows_push,
    lemma_sides, plus, rows, side, splittable, Rows, Sample, SampleData,
};
use crate::scan::{partition_in_place, partition_indices, picked, scan_auto, tallies};
use crate::split::Split;
use crate::split_stats::{
    gain_score, gini, gini_impurity, is_share, lemma_weights, weighted_den, weighted_num, SplitStats,
};
use crate::table::IdSet;
use vstd::prelude::*;

verus! {

/// What the growth of a tree goes by.
pub struct Plan {
    pub config: TreeConfig,
    pub types: Seq<AttributeType>,
    pub width: u8,
    /// The place in the stream at which splits are made.
    pub position: u64,
}

/// The smallest number, from a start on, whose square is at least a number.
pub open spec fn root_up(n: int, r: int) -> int
    decreases n - r,
{
    if r * r >= n || r >= n {
        r
    } else {
        root_up(n, r + 1)
    }
}

impl Plan {
    /// How many attributes are tried for a split.
    pub open spec fn features_tried(&self) -> int {
        let wanted = match self.config.max_features {
            Some(k) => k as int,
            None => root_up(self.width as int, 0),
        };
        if wanted <= self.width {
            wanted
        } else {
            self.width as int
        }
    }

    /// Whether a row has a value for every attribute, and a category that a bit can
    /// stand for where the attribute is categorical.
    pub open spec fn admits(&self, values: Seq<i64>) -> bool {
        &&& self.width <= self.types.len()
        &&& self.width <= values.len()
        &&& forall|a: int|
            0 <= a < self.width && #[trigger] self.types[a] is Categorical ==> category_of(
                values[a],
            ) < 64
    }

    /// Whether every sample is admitted.
    pub open spec fn admits_all(&self, m: Rows) -> bool {
        forall|d: SampleData| #[trigger] m.count(d) > 0 ==> self.admits(d.values)
    }

    /// Whether each sample of a list is admitted.
    pub open spec fn admits_each<S: Sample>(&self, samples: Seq<S>) -> bool {
        forall|i: int| 0 <= i < samples.len() ==> self.admits((#[trigger] samples[i]).data().values)
    }

    /// Whether a split looks at an attribute in the way that its type asks for.
    pub open spec fn suits(&self, split: Split) -> bool {
        &&& split.attribute() < self.width
        &&& split.attribute() < self.types.len()
        &&& split is Categorical ==> self.types[split.attribute() as int] is Categorical
    }

    /// Whether every split of a tree suits the attributes.
    pub open spec fn suits_all(&self, nodes: Nodes) -> bool {
        forall|id: u64| #[trigger] is_inner(nodes, id) ==> self.suits(nodes[id]->split)
    }

    /// Whether a node must not be split.
    pub open spec fn must_stop(&self, m: Rows, depth: int) -> bool {
        ||| depth >= self.config.max_depth
        ||| m.len() < self.config.min_samples_split
        ||| plus(m).len() == 0
        ||| plus(m).len() == m.len()
    }

    /// Whether both sides of a split have enough samples.
    pub open spec fn balanced(&self, m: Rows, split: Split) -> bool {
        &&& side(m, split, true).len() >= self.config.min_samples_leaf
        &&& side(m, split, false).len() >= self.config.min_samples_leaf
    }

    /// Whether splits are one try after the other for each of some attributes, in
    /// order, leaving out the attributes that have nothing to split.
    pub open spec fn offers(&self, m: Rows, attrs: Seq<u8>, splits: Seq<Split>) -> bool
        decreases attrs.len(),
    {
        if attrs.len() == 0 {
            splits.len() == 0
        } else {
            let a = attrs.last();
            let tries = if can_split(m, a, self.types[a as int]) {
                self.config.num_splits_to_try as int
            } else {
                0
            };
            &&& splits.len() >= tries
            &&& forall|i: int|
                splits.len() - tries <= i < splits.len() ==> offer(
                    m,
                    a,
                    self.types[a as int],
                    #[trigger] splits[i],
                )
            &&& self.offers(m, attrs.drop_last(), splits.take(splits.len() - tries))
        }
    }

    /// The attributes that are tried after some questions have been put.
    pub open spec fn tried(&self, asked: Seq<Question>) -> Seq<u8> {
        chosen(self.width, places(asked.take(self.features_tried())))
    }

    /// Whether splits are what was answered to some questions: first those for the attributes,
    /// then one for each try.
    pub open spec fn asks_splits(
        &self,
        m: Rows,
        splits: Seq<Split>,
        asked: Seq<Question>,
    ) -> bool {
        let n = self.features_tried();
        &&& asked.len() == n + splits.len()
        &&& asks_attributes(self.width, n, asked.take(n))
        &&& self.offers(m, self.tried(asked), splits)
        &&& forall|i: int|
            0 <= i < splits.len() ==> asks_split(
                m,
                self.types[(#[trigger] splits[i]).attribute() as int],
                splits[i],
                asked[n + i],
            )
    }

    /// Whether splits may have been drawn for some samples.
    pub open spec fn drawn(&self, m: Rows, splits: Seq<Split>) -> bool {
        exists|attrs: Seq<u8>|
            is_choice(self.width, self.features_tried(), attrs) && #[trigger] self.offers(
                m,
                attrs,
                splits,
            )
    }

    /// Whether a node with these samples may stay a leaf: it must, or some draw gives no
    /// split that helps.
    pub open spec fn may_stop(&self, m: Rows, depth: int) -> bool {
        self.must_stop(m, depth) || exists|splits: Seq<Split>| #[trigger]
            self.drawn(m, splits) && match pick(m, splits) {
                Some(split) => !self.balanced(m, split),
                None => true,
            }
    }

    /// Whether a node with these samples may be split in this way: some draw gives this
    /// split as the best one.
    pub open spec fn may_split(&self, m: Rows, depth: int, split: Split) -> bool {
        !self.must_stop(m, depth) && exists|splits: Seq<Split>| #[trigger]
            self.drawn(m, splits) && pick(m, splits) == Some(split) && self.balanced(m, split)
    }

    /// The impurity that is recorded with a split: the weighted impurity of its sides if
    /// the quality of splits is watched, and zero otherwise.
    pub open spec fn recorded(&self, m: Rows, split: Split) -> Fraction {
        let l = side(m, split, true);
        let r = side(m, split, false);
        if self.config.split_quality_threshold is Some {
            left_impurity(
                plus(l).len() as int,
                l.len() - plus(l).len(),
                plus(r).len() as int,
                r.len() - plus(r).len(),
            )
        } else {
            gini(0, 0)
        }
    }

    /// Whether a node is what these samples may make of it.
    pub open spec fn good(&self, nodes: Nodes, part: Rows, id: u64) -> bool {
        &&& nodes[id].samples() == part.len()
        &&& nodes[id].plus() == plus(part).len()
        &&& match nodes[id] {
            NodeView::Leaf { sample_ids, .. } => {
                &&& sample_ids == ids(part)
                &&& self.may_stop(part, level(id) as int)
            },
            NodeView::Internal { split, lazy_tag, created_at, split_gini, .. } => {
                &&& lazy_tag == LazyTag::Clean
                &&& created_at == self.position
                &&& split_gini == self.recorded(part, split)
                &&& self.may_split(part, level(id) as int, split)
                &&& id <= MAX_PARENT
                &&& nodes.contains_key((2 * id) as u64)
                &&& nodes.contains_key((2 * id + 1) as u64)
            },
        }
    }

    /// Whether the part of a tree below a top node is what these samples may make of it.
    pub open spec fn grown(&self, nodes: Nodes, m: Rows, top: u64) -> bool {
        &&& nodes.contains_key(top)
        &&& forall|id: u64| #[trigger]
            nodes.contains_key(id) && within(id, top) ==> {
                &&& self.good(nodes, arrivals(nodes, m, top, id), id)
                &&& id != top ==> is_inner(nodes, id / 2)
            }
    }
}

/// The impurity that a split leaves: the impurities of both sides, each weighted by its
/// share of the samples.
pub open spec fn left_impurity(pl: int, ml: int, pr: int, mr: int) -> Fraction {
    Fraction { num: weighted_num(pl, ml, pr, mr) as i128, den: weighted_den(pl, ml, pr, mr) as u128 }
}

/// Splits may be drawn at any place in the stream.
pub proof fn lemma_drawn_anywhere(a: Plan, b: Plan, m: Rows, splits: Seq<Split>)
    requires
        a.drawn(m, splits),
        a == (Plan { position: a.position, ..b }),
    ensures
        b.drawn(m, splits),
{
    let attrs = choose|attrs: Seq<u8>|
        is_choice(a.width, a.features_tried(), attrs) && #[trigger] a.offers(m, attrs, splits);
    lemma_offers_anywhere(a, b, m, attrs, splits);
    assert(b.offers(m, attrs, splits));
}

/// What is offered does not rest on the place in the stream.
proof fn lemma_offers_anywhere(a: Plan, b: Plan, m: Rows, attrs: Seq<u8>, splits: Seq<Split>)
    requires
        a == (Plan { position: a.position, ..b }),
    ensures
        a.offers(m, attrs, splits) == b.offers(m, attrs, splits),
    decreases attrs.len(),
{
    if attrs.len() > 0 {
        let x = attrs.last();
        let tries = if can_split(m, x, a.types[x as int]) {
            a.config.num_splits_to_try as int
        } else {
            0
        };
        lemma_offers_anywhere(a, b, m, attrs.drop_last(), splits.take(splits.len() - tries));
    }
}

/// The impurity that is recorded with a split.
fn gini_to_record(config: &TreeConfig, stats: &SplitStats) -> (r: Fraction)
    requires
        stats.total() <= u32::MAX,
        stats.num_plus_left + stats.num_minus_left > 0,
        stats.num_plus_right + stats.num_minus_right > 0,
    ensures
        r == (if config.split_quality_threshold is Some {
            left_impurity(
                stats.num_plus_left as int,
                stats.num_minus_left as int,
                stats.num_plus_right as int,
                stats.num_minus_right as int,
            )
        } else {
            gini(0, 0)
        }),
{
    if config.split_quality_threshold.is_none() {
        return Fraction { num: 0, den: 1 };
    }
    weighted_impurity(
        stats.num_plus_left,
        stats.num_minus_left,
        stats.num_plus_right,
        stats.num_minus_right,
    )
}

/// Computes the impurity that a split leaves.
pub fn weighted_impurity(
    num_plus_left: u32,
    num_minus_left: u32,
    num_plus_right: u32,
    num_minus_right: u32,
) -> (r: Fraction)
    requires
        num_plus_left + num_minus_left + num_plus_right + num_minus_right <= u32::MAX,
        num_plus_left + num_minus_left > 0,
        num_plus_right + num_minus_right > 0,
    ensures
        r == left_impurity(
            num_plus_left as int,
            num_minus_left as int,
            num_plus_right as int,
            num_minus_right as int,
        ),
        r.wf(),
        0 <= r.num <= r.den,
        r.den < 0x1000_0000_0000_0000_0000_0000_0000,
{
    let pl: u128 = num_plus_left as u128;
    let ml: u128 = num_minus_left as u128;
    let pr: u128 = num_plus_right as u128;
    let mr: u128 = num_minus_right as u128;
    let nl: u128 = pl + ml;
    let nr: u128 = pr + mr;
    proof {
        lemma_weights(pl as int, ml as int, pr as int, mr as int);
    }
    let num: u128 = 2 * (pl * ml * nr + pr * mr * nl);
    let den: u128 = (pl + ml + pr + mr) * (nl * nr);
    Fraction { num: num as i128, den }
}

/// Whether a pair holds the smallest and the largest value of an attribute.
pub open spec fn spans(m: Rows, attribute: u8, range: (i64, i64)) -> bool {
    &&& forall|d: SampleData| #[trigger]
        m.count(d) > 0 ==> range.0 <= d.values[attribute as int] <= range.1
    &&& exists|d: SampleData| #[trigger] m.count(d) > 0 && d.values[attribute as int] == range.0
    &&& exists|d: SampleData| #[trigger] m.count(d) > 0 && d.values[attribute as int] == range.1
}

/// The smallest and the largest value of an attribute.
pub open spec fn span(m: Rows, attribute: u8) -> (i64, i64) {
    choose|range: (i64, i64)| spans(m, attribute, range)
}

/// The number of categories between the smallest and the largest one.
pub open spec fn categories(range: (i64, i64)) -> int {
    (range.1 - range.0 + ONE) / ONE as int
}

/// Whether an attribute has something to split.
pub open spec fn can_split(m: Rows, attribute: u8, kind: AttributeType) -> bool {
    match kind {
        AttributeType::Numerical => !near(span(m, attribute).1, span(m, attribute).0),
        AttributeType::Categorical => categories(span(m, attribute)) > 1,
    }
}

/// The bound for the subsets of a number of categories.
pub open spec fn subset_bound(categories: int) -> u64 {
    1u64 << (if categories < 63 {
        categories as u64
    } else {
        63u64
    })
}

/// Whether a split is one that may be drawn for an attribute: a threshold from the
/// smallest value up to below the largest one, or a subset of the categories that is
/// not empty.
pub open spec fn offer(m: Rows, attribute: u8, kind: AttributeType, split: Split) -> bool {
    let range = span(m, attribute);
    match kind {
        AttributeType::Numerical => {
            &&& split is Numerical
            &&& split->Numerical_attribute_index == attribute
            &&& range.0 <= split->threshold < range.1
        },
        AttributeType::Categorical => {
            &&& split is Categorical
            &&& split->Categorical_attribute_index == attribute
            &&& 1 <= split->subset < subset_bound(categories(range))
        },
    }
}

/// Whether a question is the one that is put for a split: for any threshold of the range of
/// the attribute, or for any subset of its categories that is not empty.
pub open spec fn asks_split(m: Rows, kind: AttributeType, split: Split, q: Question) -> bool {
    let range = span(m, split.attribute());
    match kind {
        AttributeType::Numerical => {
            &&& q.low == range.0
            &&& q.high == range.1
            &&& q.answer == split->threshold
        },
        AttributeType::Categorical => {
            &&& q.low == 1
            &&& q.high == subset_bound(categories(range))
            &&& q.answer == split->subset
        },
    }
}

/// Any splits can come: for each choice of attributes, and for any thresholds and subsets of
/// those that may be tried, there are answers to the questions that are put by which they are
/// tried.
pub proof fn law_every_split_can_come(plan: Plan, m: Rows, attrs: Seq<u8>, splits: Seq<Split>)
    requires
        is_choice(plan.width, plan.features_tried(), attrs),
        plan.offers(m, attrs, splits),
    ensures
        exists|asked: Seq<Question>|
            {
                &&& #[trigger] plan.asks_splits(m, splits, asked)
                &&& plan.tried(asked) == attrs
                &&& forall|i: int| 0 <= i < asked.len() ==> (#[trigger] asked[i]).answered()
            },
{
    let n = plan.features_tried();
    law_every_choice_can_come(plan.width, attrs);
    let first = choose|first: Seq<Question>| #[trigger]
        asks_attributes(plan.width, attrs.len() as int, first) && chosen(plan.width, places(first))
            == attrs;
    let rest = Seq::new(
        splits.len(),
        |i: int|
            {
                let a = splits[i].attribute();
                let range = span(m, a);
                match plan.types[a as int] {
                    AttributeType::Numerical => Question {
                        low: range.0 as int,
                        high: range.1 as int,
                        answer: splits[i]->threshold as int,
                    },
                    AttributeType::Categorical => Question {
                        low: 1,
                        high: subset_bound(categories(range)) as int,
                        answer: splits[i]->subset as int,
                    },
                }
            },
    );
    let asked = first + rest;
    assert(asked.take(n) =~= first);
    assert forall|i: int| 0 <= i < splits.len() implies asks_split(
        m,
        plan.types[(#[trigger] splits[i]).attribute() as int],
        splits[i],
        asked[n + i],
    ) by {
        assert(asked[n + i] == rest[i]);
    }
    assert(plan.asks_splits(m, splits, asked));
    assert forall|i: int| 0 <= i < asked.len() implies (#[trigger] asked[i]).answered() by {
        if i < n {
            assert(first[i].answered());
        } else {
            lemma_offers_each(plan, m, attrs, splits, i - n);
        }
    }
}

/// Each of some splits that are offered is one for its attribute.
proof fn lemma_offers_each(plan: Plan, m: Rows, attrs: Seq<u8>, splits: Seq<Split>, i: int)
    requires
        plan.offers(m, attrs, splits),
        0 <= i < splits.len(),
    ensures
        attrs.contains(splits[i].attribute()),
        offer(m, splits[i].attribute(), plan.types[splits[i].attribute() as int], splits[i]),
    decreases attrs.len(),
{
    let a = attrs.last();
    let tries = if can_split(m, a, plan.types[a as int]) {
        plan.config.num_splits_to_try as int
    } else {
        0
    };
    if i >= splits.len() - tries {
        assert(offer(m, a, plan.types[a as int], splits[i]));
        assert(attrs[attrs.len() - 1] == a);
    } else {
        let front = attrs.drop_last();
        lemma_offers_each(plan, m, front, splits.take(splits.len() - tries), i);
        let x = splits[i].attribute();
        assert(attrs[front.index_of(x)] == x);
    }
}

/// A threshold may be tried exactly if it parts two samples: one has at most that value, and
/// one has more.
pub proof fn law_thresholds_part_samples(m: Rows, attribute: u8, threshold: i64)
    requires
        m.len() > 0,
    ensures
        offer(
            m,
            attribute,
            AttributeType::Numerical,
            Split::Numerical { attribute_index: attribute, threshold },
        ) <==> exists|a: SampleData, b: SampleData|
            #![trigger m.count(a), m.count(b)]
            m.count(a) > 0 && m.count(b) > 0 && a.values[attribute as int] <= threshold
                < b.values[attribute as int],
{
    let range = lemma_has_span(m, attribute);
    lemma_span(m, attribute, range);
    let split = Split::Numerical { attribute_index: attribute, threshold };
    let low = choose|d: SampleData| #[trigger]
        m.count(d) > 0 && d.values[attribute as int] == range.0;
    let high = choose|d: SampleData| #[trigger]
        m.count(d) > 0 && d.values[attribute as int] == range.1;
    assert(m.count(low) > 0 && m.count(high) > 0);
    if offer(m, attribute, AttributeType::Numerical, split) {
        assert(low.values[attribute as int] <= threshold < high.values[attribute as int]);
    }
}

/// Some samples have a smallest and a largest value of an attribute.
proof fn lemma_has_span(m: Rows, attribute: u8) -> (range: (i64, i64))
    requires
        m.len() > 0,
    ensures
        spans(m, attribute, range),
    decreases m.len(),
{
    let d = m.choose();
    let v = d.values[attribute as int];
    let rest = m.remove(d);
    assert(m.count(d) > 0);
    if rest.len() == 0 {
        assert forall|x: SampleData| #[trigger] m.count(x) > 0 implies x == d by {
            if x != d {
                assert(rest.count(x) > 0);
                assert(rest.len() > 0) by {
                    assert(rest.contains(x));
                }
            }
        }
        (v, v)
    } else {
        let r = lemma_has_span(rest, attribute);
        let low = choose|x: SampleData| #[trigger]
            rest.count(x) > 0 && x.values[attribute as int] == r.0;
        let high = choose|x: SampleData| #[trigger]
            rest.count(x) > 0 && x.values[attribute as int] == r.1;
        assert(m.count(low) > 0 && m.count(high) > 0);
        let range = (
            if v < r.0 {
                v
            } else {
                r.0
            },
            if v > r.1 {
                v
            } else {
                r.1
            },
        );
        assert forall|x: SampleData| #[trigger] m.count(x) > 0 implies range.0
            <= x.values[attribute as int] <= range.1 by {
            if x != d {
                assert(rest.count(x) > 0);
            }
        }
        range
    }
}

/// A numerical attribute can be split exactly if two samples differ in it by more than rounding
/// explains, and a categorical one if two samples have values a whole category apart.
pub proof fn law_attribute_can_be_split(m: Rows, attribute: u8)
    requires
        m.len() > 0,
    ensures
        can_split(m, attribute, AttributeType::Numerical) <==> exists|a: SampleData, b: SampleData|
            #![trigger m.count(a), m.count(b)]
            m.count(a) > 0 && m.count(b) > 0 && b.values[attribute as int]
                - a.values[attribute as int] >= 2,
        can_split(m, attribute, AttributeType::Categorical) <==> exists|
            a: SampleData,
            b: SampleData,
        |
            #![trigger m.count(a), m.count(b)]
            m.count(a) > 0 && m.count(b) > 0 && b.values[attribute as int]
                - a.values[attribute as int] >= 16777216,
{
    let range = lemma_has_span(m, attribute);
    lemma_span(m, attribute, range);
    let low = choose|d: SampleData| #[trigger]
        m.count(d) > 0 && d.values[attribute as int] == range.0;
    let high = choose|d: SampleData| #[trigger]
        m.count(d) > 0 && d.values[attribute as int] == range.1;
    assert(m.count(low) > 0 && m.count(high) > 0);
    assert(low.values[attribute as int] <= high.values[attribute as int]);
}

/// Of the attributes that are tried each one that can be split is tried equally often, and no
/// split is tried for any other.
pub proof fn law_attributes_are_tried_equally(
    plan: Plan,
    m: Rows,
    attrs: Seq<u8>,
    splits: Seq<Split>,
    a: u8,
)
    requires
        plan.offers(m, attrs, splits),
        attrs.no_duplicates(),
    ensures
        those(splits.len() as int, |i: int| splits[i].attribute() == a).len() == (if attrs.contains(
            a,
        ) && can_split(m, a, plan.types[a as int]) {
            plan.config.num_splits_to_try as int
        } else {
            0
        }),
    decreases attrs.len(),
{
    let p = |i: int| splits[i].attribute() == a;
    if attrs.len() == 0 {
        assert(those(splits.len() as int, p) =~= Set::<int>::empty());
    } else {
        let last = attrs.last();
        let front = attrs.drop_last();
        let tries = if can_split(m, last, plan.types[last as int]) {
            plan.config.num_splits_to_try as int
        } else {
            0
        };
        let n = splits.len() - tries;
        let before = splits.take(n);
        law_attributes_are_tried_equally(plan, m, front, before, a);
        lemma_those_agree(n, p, |i: int| before[i].attribute() == a);
        assert forall|i: int| n <= i < splits.len() implies #[trigger] p(i) == (a == last) by {
            assert(offer(m, last, plan.types[last as int], splits[i]));
        }
        lemma_those_run(p, n, tries, a == last);
        assert(attrs[attrs.len() - 1] == last);
        assert(attrs.contains(a) <==> front.contains(a) || a == last) by {
            if attrs.contains(a) {
                let j = attrs.index_of(a);
                if j < front.len() {
                    assert(front[j] == a);
                }
            }
            if front.contains(a) {
                assert(attrs[front.index_of(a)] == a);
            }
        }
        assert(!front.contains(last)) by {
            if front.contains(last) {
                let j = front.index_of(last);
                assert(attrs[j] == last);
            }
        }
    }
}

/// A run of numbers that all have a property, or none of which has it.
proof fn lemma_those_run(p: spec_fn(int) -> bool, n: int, more: int, all: bool)
    requires
        0 <= n,
        0 <= more,
        forall|i: int| n <= i < n + more ==> #[trigger] p(i) == all,
    ensures
        those(n + more, p).len() == those(n, p).len() + (if all {
            more
        } else {
            0
        }),
    decreases more,
{
    if more > 0 {
        lemma_those_run(p, n, more - 1, all);
        lemma_those(n + more, p);
        assert(p(n + more - 1) == all);
    }
}

/// Every category that there may be alone makes up a subset that may be tried.
pub proof fn law_every_category_is_tried(m: Rows, attribute: u8, bit: u64)
    requires
        bit < 63,
        bit < categories(span(m, attribute)),
    ensures
        offer(
            m,
            attribute,
            AttributeType::Categorical,
            Split::Categorical { attribute_index: attribute, subset: 1u64 << bit },
        ),
{
    let c = categories(span(m, attribute));
    let bits: u64 = if c < 63 {
        c as u64
    } else {
        63
    };
    assert(1u64 << bit >= 1u64 && 1u64 << bit < 1u64 << bits) by (bit_vector)
        requires
            bit < bits,
            bits <= 63,
    ;
}

/// The score of a split for some samples; there is none if a side is empty.
pub open spec fn score_in(m: Rows, split: Split) -> Option<int> {
    let l = side(m, split, true);
    let r = side(m, split, false);
    if l.len() == 0 || r.len() == 0 {
        None
    } else {
        Some(
            gain_score(
                gini(plus(m).len() as int, m.len() as int),
                plus(l).len() as int,
                l.len() - plus(l).len(),
                plus(r).len() as int,
                r.len() - plus(r).len(),
            ),
        )
    }
}

/// The place of the best of the first splits: the highest positive score, and the
/// first split that has it.
pub open spec fn pick_upto(m: Rows, splits: Seq<Split>, n: int) -> Option<int>
    decreases n,
{
    if n <= 0 {
        None
    } else {
        let best = pick_upto(m, splits, n - 1);
        let score = score_in(m, splits[n - 1]);
        if score is Some && score->0 > 0 && (best is None || score->0 > score_in(
            m,
            splits[best->0],
        )->0) {
            Some(n - 1)
        } else {
            best
        }
    }
}

/// The best of some splits.
pub open spec fn pick(m: Rows, splits: Seq<Split>) -> Option<Split> {
    match pick_upto(m, splits, splits.len() as int) {
        Some(i) => Some(splits[i]),
        None => None,
    }
}

/// Whether there are no nodes below a top node, and it is not there itself.
pub open spec fn vacant(nodes: Nodes, top: u64) -> bool {
    forall|id: u64| #[trigger] within(id, top) ==> !nodes.contains_key(id)
}

/// Whether two trees are the same outside the part below a top node.
pub open spec fn same_outside(a: Nodes, b: Nodes, top: u64) -> bool {
    forall|id: u64|
        !#[trigger] within(id, top) ==> a.contains_key(id) == b.contains_key(id) && (
        a.contains_key(id) ==> a[id] == b[id])
}

/// Whether each of some samples has been led to a leaf below a top node that names it,
/// and the others to where they were.
pub open spec fn placed(
    before: Map<u64, u64>,
    after: Map<u64, u64>,
    nodes: Nodes,
    named: Set<u64>,
    top: u64,
) -> bool {
    forall|sid: u64|
        #![trigger after.contains_key(sid)]
        #![trigger before.contains_key(sid)]
        #![trigger named.contains(sid)]
        if named.contains(sid) {
            &&& after.contains_key(sid)
            &&& within(after[sid], top)
            &&& nodes.contains_key(after[sid])
            &&& nodes[after[sid]] is Leaf
            &&& nodes[after[sid]]->sample_ids.contains(sid)
        } else {
            after.contains_key(sid) == before.contains_key(sid) && (after.contains_key(sid)
                ==> after[sid] == before[sid])
        }
}

/// There is only one smallest and one largest value.
pub proof fn lemma_span(m: Rows, attribute: u8, range: (i64, i64))
    requires
        spans(m, attribute, range),
    ensures
        span(m, attribute) == range,
{
    let other = span(m, attribute);
    assert(spans(m, attribute, other));
}

/// What was picked is one of the splits and has a positive score.
pub proof fn lemma_pick(m: Rows, splits: Seq<Split>, n: int)
    requires
        0 <= n <= splits.len(),
    ensures
        pick_upto(m, splits, n) is Some ==> {
            let i = pick_upto(m, splits, n)->0;
            &&& 0 <= i < n
            &&& score_in(m, splits[i]) is Some
            &&& score_in(m, splits[i])->0 > 0
        },
    decreases n,
{
    if n > 0 {
        lemma_pick(m, splits, n - 1);
    }
}

/// The pick is the best one: no split has a higher score, and none before it has the
/// same one. There is no pick only if no split has a positive score.
pub proof fn law_pick_is_best(m: Rows, splits: Seq<Split>, n: int)
    requires
        0 <= n <= splits.len(),
    ensures
        match pick_upto(m, splits, n) {
            Some(i) => {
                &&& 0 <= i < n
                &&& score_in(m, splits[i]) is Some && score_in(m, splits[i])->0 > 0
                &&& forall|j: int|
                    0 <= j < n && (#[trigger] score_in(m, splits[j])) is Some ==> score_in(
                        m,
                        splits[j],
                    )->0 <= score_in(m, splits[i])->0
                &&& forall|j: int|
                    0 <= j < i && (#[trigger] score_in(m, splits[j])) is Some ==> score_in(
                        m,
                        splits[j],
                    )->0 < score_in(m, splits[i])->0
            },
            None => forall|j: int|
                0 <= j < n && (#[trigger] score_in(m, splits[j])) is Some ==> score_in(
                    m,
                    splits[j],
                )->0 <= 0,
        },
    decreases n,
{
    if n > 0 {
        law_pick_is_best(m, splits, n - 1);
        lemma_pick(m, splits, n - 1);
    }
}

/// Every split that was drawn looks at an attribute in the way that its type asks for.
pub proof fn lemma_offers_suit(plan: Plan, m: Rows, attrs: Seq<u8>, splits: Seq<Split>, i: int)
    requires
        plan.offers(m, attrs, splits),
        forall|j: int| 0 <= j < attrs.len() ==> #[trigger] attrs[j] < plan.width,
        plan.width <= plan.types.len(),
        0 <= i < splits.len(),
    ensures
        plan.suits(splits[i]),
    decreases attrs.len(),
{
    if attrs.len() > 0 {
        let a = attrs.last();
        let tries = if can_split(m, a, plan.types[a as int]) {
            plan.config.num_splits_to_try as int
        } else {
            0
        };
        if i >= splits.len() - tries {
            assert(offer(m, a, plan.types[a as int], splits[i]));
        } else {
            let rest = splits.take(splits.len() - tries);
            assert(rest[i] == splits[i]);
            lemma_offers_suit(plan, m, attrs.drop_last(), rest, i);
        }
    }
}

/// A split that was made suits the attributes.
pub proof fn lemma_split_suits(plan: Plan, m: Rows, depth: int, split: Split)
    requires
        plan.may_split(m, depth, split),
        plan.width <= plan.types.len(),
    ensures
        plan.suits(split),
{
    let splits = choose|splits: Seq<Split>| #[trigger]
        plan.drawn(m, splits) && pick(m, splits) == Some(split) && plan.balanced(m, split);
    lemma_drawn_suit(plan, m, splits, split);
}

/// A split that was picked from a draw suits the attributes.
pub proof fn lemma_drawn_suit(plan: Plan, m: Rows, splits: Seq<Split>, split: Split)
    requires
        plan.drawn(m, splits),
        pick(m, splits) == Some(split),
        plan.width <= plan.types.len(),
    ensures
        plan.suits(split),
{
    let attrs = choose|attrs: Seq<u8>|
        is_choice(plan.width, plan.features_tried(), attrs) && #[trigger] plan.offers(
            m,
            attrs,
            splits,
        );
    lemma_pick(m, splits, splits.len() as int);
    lemma_offers_suit(plan, m, attrs, splits, pick_upto(m, splits, splits.len() as int)->0);
}

/// A suitable split can decide about every row that is admitted.
pub proof fn lemma_suits_applies(plan: Plan, split: Split, values: Seq<i64>)
    requires
        plan.suits(split),
        plan.admits(values),
    ensures
        split.applies(values),
{
    let a = split.attribute() as int;
    assert(plan.types[a] is Categorical ==> category_of(values[a]) < 64);
}

/// A part of a tree may be moved into another tree.
pub proof fn lemma_grown_frame(plan: Plan, a: Nodes, b: Nodes, m: Rows, top: u64)
    requires
        1 <= top,
        plan.grown(a, m, top),
        forall|id: u64| #[trigger]
            within(id, top) ==> a.contains_key(id) == b.contains_key(id) && (a.contains_key(id)
                ==> a[id] == b[id]),
    ensures
        plan.grown(b, m, top),
{
    assert(within(top, top));
    assert forall|id: u64| #[trigger] b.contains_key(id) && within(id, top) implies {
        &&& plan.good(b, arrivals(b, m, top, id), id)
        &&& id != top ==> is_inner(b, id / 2)
    } by {
        assert(a.contains_key(id));
        assert forall|d: SampleData| reaches(a, d.values, top, id) == reaches(
            b,
            d.values,
            top,
            id,
        ) by {
            lemma_reaches_frame(a, b, d.values, top, id);
        }
        assert(arrivals(a, m, top, id) =~= arrivals(b, m, top, id));
        if a[id] is Internal {
            law_parent_of_child(id);
            assert(within((2 * id) as u64, top));
            assert(within((2 * id + 1) as u64, top));
        }
        if id != top {
            assert(within(id / 2, top));
        }
    }
}

/// A node and the two parts below it make up a part.
pub proof fn lemma_grown_join(plan: Plan, nodes: Nodes, m: Rows, split: Split, top: u64)
    requires
        1 <= top <= MAX_PARENT,
        nodes.contains_key(top),
        nodes[top] == (NodeView::Internal {
            split,
            lazy_tag: LazyTag::Clean,
            num_samples: nodes[top].samples(),
            num_plus: nodes[top].plus(),
            created_at: plan.position,
            split_gini: plan.recorded(m, split),
        }),
        nodes[top].samples() == m.len(),
        nodes[top].plus() == plus(m).len(),
        plan.may_split(m, level(top) as int, split),
        plan.grown(nodes, side(m, split, true), (2 * top) as u64),
        plan.grown(nodes, side(m, split, false), (2 * top + 1) as u64),
    ensures
        plan.grown(nodes, m, top),
{
    let l = (2 * top) as u64;
    let r = (2 * top + 1) as u64;
    law_parent_of_child(top);
    assert forall|id: u64| #[trigger] nodes.contains_key(id) && within(id, top) implies {
        &&& plan.good(nodes, arrivals(nodes, m, top, id), id)
        &&& id != top ==> is_inner(nodes, id / 2)
    } by {
        lemma_within_children(id, top);
        if id == top {
            assert(arrivals(nodes, m, top, top) =~= m);
        } else if within(id, l) {
            assert forall|d: SampleData| #[trigger] reaches(nodes, d.values, top, id) == (
            split.routes_left(d.values) && reaches(nodes, d.values, l, id)) by {
                lemma_reaches_child(nodes, d.values, top, id);
            }
            assert(arrivals(nodes, m, top, id) =~= arrivals(nodes, side(m, split, true), l, id));
        } else {
            assert forall|d: SampleData| #[trigger] reaches(nodes, d.values, top, id) == (
            !split.routes_left(d.values) && reaches(nodes, d.values, r, id)) by {
                lemma_reaches_child(nodes, d.values, top, id);
            }
            assert(arrivals(nodes, m, top, id) =~= arrivals(nodes, side(m, split, false), r, id));
        }
    }
}

/// A tree into which a part has been grown hangs together.
pub proof fn lemma_grown_linked(plan: Plan, a: Nodes, b: Nodes, m: Rows, top: u64)
    requires
        1 <= top,
        linked(a, plan.config.max_depth as int),
        narrow(a, plan.width),
        plan.width <= plan.types.len(),
        same_outside(a, b, top),
        plan.grown(b, m, top),
        level(top) <= plan.config.max_depth,
        top != ROOT ==> is_inner(a, top / 2),
    ensures
        linked(b, plan.config.max_depth as int),
        narrow(b, plan.width),
{
    assert forall|id: u64| #[trigger] is_inner(b, id) implies b[id]->split.attribute()
        < plan.width by {
        if within(id, top) {
            lemma_split_suits(
                plan,
                arrivals(b, m, top, id),
                level(id) as int,
                b[id]->split,
            );
        } else {
            assert(is_inner(a, id));
        }
    }
    reveal(linked);
    assert forall|id: u64| #[trigger] b.contains_key(id) implies {
        &&& id >= 1
        &&& level(id) <= plan.config.max_depth
        &&& b[id] is Internal ==> level(id) < plan.config.max_depth
        &&& id != ROOT ==> is_inner(b, id / 2)
    } by {
        if within(id, top) {
            crate::node::node_id::lemma_within_order(id, top);
            if id != top {
                assert(within(id / 2, top));
                assert(b.contains_key(id / 2));
            } else if id != ROOT {
                assert(!within(id / 2, top)) by {
                    if within(id / 2, top) {
                        crate::node::node_id::lemma_within_order(id / 2, top);
                    }
                }
                assert(is_inner(a, id / 2));
            }
        } else {
            assert(a.contains_key(id));
            lemma_linked_at(a, plan.config.max_depth as int, id);
            if id != ROOT {
                if within(id / 2, top) {
                    assert(id > top) by {
                        crate::node::node_id::lemma_within_order(id / 2, top);
                    }
                    assert(within(id, top));
                }
                assert(is_inner(a, id / 2));
            }
        }
    }
}

/// A whole tree that was grown from some samples counts them exactly, has both
/// children below every inner node, and can route every row that is admitted.
pub proof fn law_grown_is_exact(plan: Plan, nodes: Nodes, m: Rows)
    requires
        plan.grown(nodes, m, ROOT),
        linked(nodes, plan.config.max_depth as int),
        plan.width <= plan.types.len(),
    ensures
        exact(nodes, m),
        full(nodes),
        forall|values: Seq<i64>| plan.admits(values) ==> #[trigger] routable(nodes, values),
{
    assert forall|id: u64| nodes.contains_key(id) implies within(id, ROOT) by {
        lemma_linked_at(nodes, plan.config.max_depth as int, id);
        lemma_within_root(id);
    }
    assert forall|id: u64| #[trigger] is_inner(nodes, id) implies plan.suits(
        nodes[id]->split,
    ) by {
        assert(nodes.contains_key(id) && within(id, ROOT));
        lemma_split_suits(
            plan,
            arrivals(nodes, m, ROOT, id),
            level(id) as int,
            nodes[id]->split,
        );
    }
    assert forall|values: Seq<i64>| plan.admits(values) implies #[trigger] routable(
        nodes,
        values,
    ) by {
        assert forall|id: u64| #[trigger] is_inner(nodes, id) implies nodes[id]->split.applies(
            values,
        ) by {
            lemma_suits_applies(plan, nodes[id]->split, values);
        }
    }
    assert(exact(nodes, m)) by {
        assert forall|id: u64| #[trigger] nodes.contains_key(id) implies {
            &&& nodes[id].samples() == arrivals(nodes, m, ROOT, id).len()
            &&& nodes[id].plus() == plus(arrivals(nodes, m, ROOT, id)).len()
            &&& nodes[id] is Leaf ==> nodes[id]->sample_ids == ids(arrivals(nodes, m, ROOT, id))
        } by {
            assert(within(id, ROOT));
        }
    }
    assert(full(nodes)) by {
        assert forall|id: u64| #[trigger] is_inner(nodes, id) implies id <= MAX_PARENT
            && nodes.contains_key((2 * id) as u64) && nodes.contains_key(
            (2 * id + 1) as u64,
        ) by {
            assert(within(id, ROOT));
        }
    }
}

/// Where no two samples share an identifier, each sample of a freshly grown tree is
/// led to the leaf where it ends.
pub proof fn law_grown_is_mapped(plan: Plan, nodes: Nodes, leaves: Map<u64, u64>, m: Rows)
    requires
        plan.grown(nodes, m, ROOT),
        linked(nodes, plan.config.max_depth as int),
        plan.config.max_depth <= 63,
        distinct(m),
        placed(Map::<u64, u64>::empty(), leaves, nodes, ids(m), ROOT),
    ensures
        mapped(nodes, leaves, m),
{
    assert(leaves.dom() =~= ids(m)) by {
        assert forall|sid: u64| leaves.dom().contains(sid) == ids(m).contains(sid) by {
            assert(leaves.contains_key(sid) == ids(m).contains(sid)) by {
                assert(!Map::<u64, u64>::empty().contains_key(sid));
            }
        }
    }
    assert forall|d: SampleData| #[trigger] m.count(d) > 0 implies leaves[d.id] == end_of(
        nodes,
        d.values,
        ROOT,
    ) by {
        assert(ids(m).contains(d.id));
        assert(leaves.contains_key(d.id));
        let leaf = leaves[d.id];
        lemma_linked_at(nodes, plan.config.max_depth as int, leaf);
        lemma_within_root(leaf);
        let part = arrivals(nodes, m, ROOT, leaf);
        assert(plan.good(nodes, part, leaf));
        assert(ids(part).contains(d.id));
        let x = choose|x: SampleData| part.count(x) > 0 && #[trigger] x.id == d.id;
        assert(m.count(x) > 0 && reaches(nodes, x.values, ROOT, leaf));
        assert(x == d);
        lemma_room(nodes, plan.config.max_depth as int);
        lemma_end_path(nodes, d.values, ROOT, leaf);
        let end = end_of(nodes, d.values, ROOT);
        assert(within(end, leaf));
        if end != leaf {
            lemma_leaf_end(nodes, end, leaf, plan.config.max_depth as int, d.values);
        }
    }
}

/// A row that passes through a leaf ends there.
pub proof fn lemma_leaf_end(nodes: Nodes, end: u64, leaf: u64, max_depth: int, values: Seq<i64>)
    requires
        reaches(nodes, values, ROOT, end),
        within(end, leaf),
        leaf >= 1,
        !is_inner(nodes, leaf),
    ensures
        end == leaf,
    decreases end,
{
    if end != leaf {
        assert(end > leaf);
        assert(is_inner(nodes, end / 2));
        assert(within(end / 2, leaf));
        lemma_leaf_end(nodes, end / 2, leaf, max_depth, values);
    }
}

/// One question more.
proof fn lemma_put_more(
    start: Seq<Question>,
    before: Seq<Question>,
    now: Seq<Question>,
    first: Seq<Question>,
)
    requires
        start.len() < now.len(),
        before == put_since(start, now.drop_last()),
        before.take(first.len() as int) == first,
        first.len() <= before.len(),
    ensures
        put_since(start, now) == before.push(now.last()),
        put_since(start, now).take(first.len() as int) == first,
{
    assert(put_since(start, now) =~= before.push(now.last()));
    assert(put_since(start, now).take(first.len() as int) =~= before.take(first.len() as int));
}

impl DynFrsTree {
    /// What the growth of this tree goes by.
    pub open spec fn plan(&self, types: Seq<AttributeType>) -> Plan {
        Plan { config: self.limits(), types, width: self.width(), position: 0 }
    }

    /// What the growth of this tree goes by at a place in the stream.
    pub open spec fn plan_at(&self, types: Seq<AttributeType>, position: u64) -> Plan {
        Plan { position, ..self.plan(types) }
    }

    /// Draws the splits that are tried for some samples, and notes the questions that were
    /// put.
    fn draw_splits<D: Dataset, S: Sample>(
        &mut self,
        dataset: &D,
        samples: &[S],
    ) -> (r: Vec<Split>)
        requires
            samples@.len() > 0,
            old(self).plan(dataset.attribute_types()).admits_all(rows(samples@)),
        ensures
            old(self).plan(dataset.attribute_types()).drawn(rows(samples@), r@),
            final(self).same_but_source(old(self)),
            old(self).asked().is_prefix_of(final(self).asked()),
            old(self).plan(dataset.attribute_types()).asks_splits(
                rows(samples@),
                r@,
                put_since(old(self).asked(), final(self).asked()),
            ),
    {
        let ghost start = self.log@;
        let ghost plan = self.plan(dataset.attribute_types());
        let ghost m = rows(samples@);
        proof {
            lemma_rows(samples@);
            assert(m.count(samples@[0].data()) > 0);
        }
        let wanted: usize = features_to_try(&self.config, self.num_attributes);
        let attrs = ask_attributes(&mut self.rng, &mut self.log, self.num_attributes, wanted);
        let ghost first = put_since(start, self.log@);
        let ghost n = plan.features_tried();
        assert(first.take(n) =~= first);
        let tries: usize = self.config.num_splits_to_try;
        let mut splits: Vec<Split> = Vec::new();
        let mut k: usize = 0;
        while k < attrs.len()
            invariant
                k <= attrs@.len(),
                samples@.len() > 0,
                m == rows(samples@),
                plan.admits_all(m),
                plan == old(self).plan(dataset.attribute_types()),
                tries == plan.config.num_splits_to_try,
                is_choice(plan.width, plan.features_tried(), attrs@),
                self.same_but_source(old(self)),
                plan.offers(m, attrs@.take(k as int), splits@),
                start.is_prefix_of(self.log@),
                self.log@.len() == start.len() + n + splits@.len(),
                n == plan.features_tried() == first.len(),
                put_since(start, self.log@).take(n) == first,
                forall|i: int|
                    0 <= i < splits@.len() ==> asks_split(
                        m,
                        plan.types[(#[trigger] splits@[i]).attribute() as int],
                        splits@[i],
                        put_since(start, self.log@)[n + i],
                    ),
            decreases attrs@.len() - k,
        {
            let a: u8 = attrs[k];
            proof {
                lemma_rows(samples@);
                assert(plan.admits(samples@[0].data().values));
                assert forall|i: int| 0 <= i < samples@.len() implies a < (
                #[trigger] samples@[i].data()).values.len() by {
                    assert(plan.admits(samples@[i].data().values));
                }
            }
            let range = range_of(samples, a);
            proof {
                lemma_range_spans(samples@, a, range);
                lemma_span(m, a, range);
            }
            let kind = dataset.attribute_type(a);
            let ghost base = splits@;
            let ghost later = attrs@.take(k as int + 1);
            assert(later.last() == a);
            assert(later.drop_last() =~= attrs@.take(k as int));
            match kind {
                AttributeType::Numerical => {
                    if is_near(range.1, range.0) {
                        assert(!can_split(m, a, kind));
                        assert(splits@.take(splits@.len() as int) =~= splits@);
                    } else {
                        let mut j: usize = 0;
                        while j < tries
                            invariant
                                j <= tries,
                                range.0 < range.1,
                                range == span(m, a),
                                self.same_but_source(old(self)),
                                splits@.len() == base.len() + j,
                                splits@.take(base.len() as int) == base,
                                forall|i: int|
                                    base.len() <= i < splits@.len() ==> offer(
                                        m,
                                        a,
                                        AttributeType::Numerical,
                                        #[trigger] splits@[i],
                                    ),
                                plan.types[a as int] is Numerical,
                                start.is_prefix_of(self.log@),
                                self.log@.len() == start.len() + n + splits@.len(),
                                n == first.len(),
                                put_since(start, self.log@).take(n) == first,
                                forall|i: int|
                                    0 <= i < splits@.len() ==> asks_split(
                                        m,
                                        plan.types[(#[trigger] splits@[i]).attribute() as int],
                                        splits@[i],
                                        put_since(start, self.log@)[n + i],
                                    ),
                            decreases tries - j,
                        {
                            let ghost asked = put_since(start, self.log@);
                            let ghost earlier = self.log@;
                            let threshold: i64 = ask_value(&mut self.rng, &mut self.log, range.0, range.1);
                            splits.push(Split::numerical(a, threshold));
                            assert(splits@.take(base.len() as int) =~= base);
                            proof {
                                assert(self.log@.drop_last() =~= earlier);
                                lemma_put_more(start, asked, self.log@, first);
                            }
                            j = j + 1;
                        }
                    }
                },
                AttributeType::Categorical => {
                    let spread: i128 = range.1 as i128 - range.0 as i128 + ONE as i128;
                    let cardinality: i128 = spread / (ONE as i128);
                    if cardinality <= 1 {
                        assert(!can_split(m, a, kind));
                        assert(splits@.take(splits@.len() as int) =~= splits@);
                    } else {
                        let bits: u64 = if cardinality < 63 {
                            cardinality as u64
                        } else {
                            63
                        };
                        let bound: u64 = 1u64 << bits;
                        assert(1u64 << bits > 1u64) by (bit_vector)
                            requires
                                2 <= bits <= 63,
                        ;
                        assert(bound == subset_bound(categories(range)));
                        let mut j: usize = 0;
                        while j < tries
                            invariant
                                j <= tries,
                                bound > 1,
                                bound == subset_bound(categories(range)),
                                range == span(m, a),
                                self.same_but_source(old(self)),
                                splits@.len() == base.len() + j,
                                splits@.take(base.len() as int) == base,
                                forall|i: int|
                                    base.len() <= i < splits@.len() ==> offer(
                                        m,
                                        a,
                                        AttributeType::Categorical,
                                        #[trigger] splits@[i],
                                    ),
                                plan.types[a as int] is Categorical,
                                start.is_prefix_of(self.log@),
                                self.log@.len() == start.len() + n + splits@.len(),
                                n == first.len(),
                                put_since(start, self.log@).take(n) == first,
                                forall|i: int|
                                    0 <= i < splits@.len() ==> asks_split(
                                        m,
                                        plan.types[(#[trigger] splits@[i]).attribute() as int],
                                        splits@[i],
                                        put_since(start, self.log@)[n + i],
                                    ),
                            decreases tries - j,
                        {
                            let ghost asked = put_since(start, self.log@);
                            let ghost earlier = self.log@;
                            let subset: u64 = ask_bits(&mut self.rng, &mut self.log, 1, bound);
                            splits.push(Split::categorical(a, subset));
                            assert(splits@.take(base.len() as int) =~= base);
                            proof {
                                assert(self.log@.drop_last() =~= earlier);
                                lemma_put_more(start, asked, self.log@, first);
                            }
                            j = j + 1;
                        }
                    }
                },
            }
            k = k + 1;
        }
        assert(attrs@.take(k as int) =~= attrs@);
        assert(plan.tried(put_since(start, self.log@)) == attrs@);
        splits
    }

    /// Finds the best of some randomly drawn splits.
    fn find_best_split<D: Dataset, S: Sample>(
        &mut self,
        dataset: &D,
        samples: &[S],
        impurity_before: Fraction,
    ) -> (r: Option<(Split, SplitStats)>)
        requires
            0 < samples@.len() <= u32::MAX,
            old(self).plan(dataset.attribute_types()).admits_all(rows(samples@)),
            impurity_before == gini(
                plus(rows(samples@)).len() as int,
                samples@.len() as int,
            ),
        ensures
            final(self).same_but_source(old(self)),
            exists|splits: Seq<Split>| #[trigger]
                old(self).plan(dataset.attribute_types()).drawn(rows(samples@), splits)
                    && best_found(rows(samples@), splits, r) && old(self).plan(
                    dataset.attribute_types(),
                ).asks_splits(
                    rows(samples@),
                    splits,
                    put_since(old(self).asked(), final(self).asked()),
                ),
            old(self).asked().is_prefix_of(final(self).asked()),
    {
        let ghost m = rows(samples@);
        let ghost plan = self.plan(dataset.attribute_types());
        let splits = self.draw_splits(dataset, samples);
        proof {
            lemma_drawn_splittable(plan, m, splits@, samples@);
        }
        best_of(samples, &splits, impurity_before)
    }

    /// Finds the best of some randomly drawn splits of borrowed samples.
    pub(super) fn find_best_split_refs<D: Dataset, S: Sample>(
        &mut self,
        dataset: &D,
        sample_refs: &[&S],
        impurity_before: Fraction,
    ) -> (r: Option<(Split, SplitStats)>)
        requires
            0 < sample_refs@.len() <= u32::MAX,
            old(self).plan(dataset.attribute_types()).admits_all(rows(sample_refs@)),
            impurity_before == gini(
                plus(rows(sample_refs@)).len() as int,
                sample_refs@.len() as int,
            ),
        ensures
            final(self).same_but_source(old(self)),
            exists|splits: Seq<Split>| #[trigger]
                old(self).plan(dataset.attribute_types()).drawn(rows(sample_refs@), splits)
                    && best_found(rows(sample_refs@), splits, r) && old(self).plan(
                    dataset.attribute_types(),
                ).asks_splits(
                    rows(sample_refs@),
                    splits,
                    put_since(old(self).asked(), final(self).asked()),
                ),
            old(self).asked().is_prefix_of(final(self).asked()),
    {
        self.find_best_split(dataset, sample_refs, impurity_before)
    }

    /// Makes a node a leaf with some samples.
    fn create_leaf<S: Sample>(
        &mut self,
        samples: &[S],
        node_id: u64,
        num_samples: u32,
        num_plus: u32,
        Ghost(plan): Ghost<Plan>,
    )
        requires
            node_id >= 1,
            vacant(old(self).structure(), node_id),
            num_samples == samples@.len(),
            num_plus == plus(rows(samples@)).len(),
            plan.may_stop(rows(samples@), level(node_id) as int),
        ensures
            final(self).regrown(old(self), plan, rows(samples@), node_id),
            final(self).log == old(self).log,
            final(self).structure()[node_id] is Leaf,
    {
        let mut sample_ids = IdSet::new();
        let mut i: usize = 0;
        proof {
            lemma_rows_empty(samples@.take(0));
            assert(ids(rows(samples@.take(0))) =~= Set::<u64>::empty());
        }
        while i < samples.len()
            invariant
                i <= samples@.len(),
                sample_ids@ == ids(rows(samples@.take(i as int))),
                self.index == old(self).index,
                self.log == old(self).log,
                self.nodes == old(self).nodes,
                self.config == old(self).config,
                self.num_attributes == old(self).num_attributes,
                self.streaming_states == old(self).streaming_states,
                self.streaming_enabled == old(self).streaming_enabled,
                forall|sid: u64|
                    #![trigger self.sample_leaf_map@.contains_key(sid)]
                    #![trigger sample_ids@.contains(sid)]
                    if sample_ids@.contains(sid) {
                        self.sample_leaf_map@.contains_key(sid) && self.sample_leaf_map@[sid]
                            == node_id
                    } else {
                        &&& self.sample_leaf_map@.contains_key(sid) == old(
                            self,
                        ).sample_leaf_map@.contains_key(sid)
                        &&& self.sample_leaf_map@.contains_key(sid) ==> self.sample_leaf_map@[sid]
                            == old(self).sample_leaf_map@[sid]
                    },
            decreases samples@.len() - i,
        {
            proof {
                lemma_rows_push(samples@, i as int);
                lemma_ids_insert(rows(samples@.take(i as int)), samples@[i as int].data());
            }
            let id: u64 = samples[i].id();
            sample_ids.insert(id);
            self.sample_leaf_map.insert(id, node_id);
            i = i + 1;
        }
        assert(samples@.take(i as int) =~= samples@);
        let node = Node::leaf_with_samples(num_samples, num_plus, sample_ids);
        self.nodes.insert(node_id, node);
        proof {
            assert(self.log@.is_prefix_of(self.log@));
            let m = rows(samples@);
            lemma_rows(samples@);
            let nodes = self.structure();
            assert(nodes =~= old(self).structure().insert(node_id, node@));
            assert(within(node_id, node_id));
            assert(arrivals(nodes, m, node_id, node_id) =~= m);
            assert forall|id: u64| #[trigger]
                nodes.contains_key(id) && within(id, node_id) implies id == node_id by {
                if id != node_id {
                    assert(old(self).structure().contains_key(id));
                }
            }
            assert(plan.grown(nodes, m, node_id));
            assert(same_outside(old(self).structure(), nodes, node_id));
        }
    }

    /// Grows the part of the tree below a node from some samples, which it reorders.
    #[verifier::rlimit(40)]
    fn build_node<D: Dataset, S: Sample>(
        &mut self,
        dataset: &D,
        samples: &mut [S],
        node_id: u64,
        depth: usize,
        impurity_before: Fraction,
        current_position: u64,
    )
        requires
            old(samples)@.len() <= u32::MAX,
            node_id >= 1,
            level(node_id) == depth,
            depth <= old(self).limits().max_depth <= 63,
            old(self).width() <= dataset.attribute_types().len(),
            old(self).plan(dataset.attribute_types()).admits_all(rows(old(samples)@)),
            vacant(old(self).structure(), node_id),
            impurity_before == gini(
                plus(rows(old(samples)@)).len() as int,
                old(samples)@.len() as int,
            ),
        ensures
            final(samples)@.len() == old(samples)@.len(),
            rows(final(samples)@) == rows(old(samples)@),
            final(self).regrown(
                old(self),
                old(self).plan_at(dataset.attribute_types(), current_position),
                rows(old(samples)@),
                node_id,
            ),
            drawn_at(
                old(self).plan(dataset.attribute_types()),
                old(self).asked(),
                final(self).asked(),
                final(self).structure()[node_id],
                rows(old(samples)@),
                depth as int,
            ),
        decreases old(self).limits().max_depth - depth,
    {
        let ghost plan = self.plan_at(dataset.attribute_types(), current_position);
        let ghost m = rows(samples@);
        let ghost start = *self;
        let num_samples: u32 = samples.len() as u32;
        let num_plus: u32 = count_plus(samples) as u32;
        proof {
            lemma_rows(samples@);
        }
        let should_stop = depth >= self.config.max_depth || samples.len()
            < self.config.min_samples_split || num_plus == 0 || num_plus == num_samples;
        if should_stop {
            self.create_leaf(samples, node_id, num_samples, num_plus, Ghost(plan));
            return;
        }
        let best_split = self.find_best_split(dataset, samples, impurity_before);
        let ghost asked = put_since(start.log@, self.log@);
        let ghost splits = choose|splits: Seq<Split>| #[trigger]
            start.plan(dataset.attribute_types()).drawn(m, splits) && best_found(
            m,
            splits,
            best_split,
        ) && start.plan(dataset.attribute_types()).asks_splits(m, splits, asked);
        assert(start.log@ + asked =~= self.log@);
        assert((start.log@ + asked).is_prefix_of(self.log@));
        proof {
            lemma_drawn_anywhere(start.plan(dataset.attribute_types()), plan, m, splits);
        }
        match best_split {
            Some((split, stats)) => {
                proof {
                    lemma_drawn_splittable(plan, m, splits, samples@);
                    lemma_pick(m, splits, splits.len() as int);
                    law_level_bounds(node_id);
                    law_parent_of_child(node_id);
                }
                let split_idx: usize = partition_in_place(samples, &split);
                let right_len: usize = samples.len() - split_idx;
                proof {
                    lemma_rows(samples@);
                    lemma_rows(samples@.take(split_idx as int));
                    lemma_rows(samples@.skip(split_idx as int));
                }
                if split_idx < self.config.min_samples_leaf || right_len
                    < self.config.min_samples_leaf {
                    self.create_leaf(samples, node_id, num_samples, num_plus, Ghost(plan));
                    proof {
                        lemma_drawn_at(
                            start.plan(dataset.attribute_types()),
                            start.log@,
                            self.log@,
                            self.structure()[node_id],
                            m,
                            depth as int,
                            splits,
                            asked,
                        );
                    }
                    return;
                }
                let split_gini = gini_to_record(&self.config, &stats);
                proof {
                    lemma_sides(m, split);
                }
                let node = Node::internal_at(
                    split,
                    num_samples,
                    num_plus,
                    current_position,
                    split_gini,
                );
                self.nodes.insert(node_id, node);
                let ghost planted = *self;
                proof {
                    assert(planted.structure() =~= start.structure().insert(node_id, node@));
                    lemma_vacant_children(start.structure(), planted.structure(), node_id);
                    lemma_admits_sides(plan, m, split);
                }
                let (left_samples, right_samples) = samples.split_at_mut(split_idx);
                self.build_node(
                    dataset,
                    left_samples,
                    left_child(node_id),
                    depth + 1,
                    stats.impurity_left,
                    current_position,
                );
                let ghost halfway = *self;
                proof {
                    lemma_vacant_right(planted.structure(), halfway.structure(), node_id);
                }
                self.build_node(
                    dataset,
                    right_samples,
                    right_child(node_id),
                    depth + 1,
                    stats.impurity_right,
                    current_position,
                );
                proof {
                    lemma_rows_concat(left_samples@, right_samples@);
                    lemma_sides(m, split);
                    lemma_regrown_join(start, planted, halfway, *self, plan, m, split, node_id);
                    lemma_prefix(start.log@ + asked, planted.log@, halfway.log@);
                    lemma_prefix(start.log@ + asked, halfway.log@, self.log@);
                    lemma_drawn_at(
                        start.plan(dataset.attribute_types()),
                        start.log@,
                        self.log@,
                        self.structure()[node_id],
                        m,
                        depth as int,
                        splits,
                        asked,
                    );
                }
            },
            None => {
                self.create_leaf(samples, node_id, num_samples, num_plus, Ghost(plan));
                proof {
                    lemma_drawn_at(
                        start.plan(dataset.attribute_types()),
                        start.log@,
                        self.log@,
                        self.structure()[node_id],
                        m,
                        depth as int,
                        splits,
                        asked,
                    );
                }
            },
        }
    }

    /// Makes a node a leaf with some borrowed samples.
    fn create_leaf_from_refs<S: Sample>(
        &mut self,
        sample_refs: &[&S],
        node_id: u64,
        num_samples: u32,
        num_plus: u32,
        Ghost(plan): Ghost<Plan>,
    )
        requires
            node_id >= 1,
            vacant(old(self).structure(), node_id),
            num_samples == sample_refs@.len(),
            num_plus == plus(rows(sample_refs@)).len(),
            plan.may_stop(rows(sample_refs@), level(node_id) as int),
        ensures
            final(self).regrown(old(self), plan, rows(sample_refs@), node_id),
            final(self).log == old(self).log,
            final(self).structure()[node_id] is Leaf,
    {
        self.create_leaf(sample_refs, node_id, num_samples, num_plus, Ghost(plan));
    }

    /// Grows the part of the tree below a node from borrowed samples.
    #[verifier::rlimit(40)]
    pub(super) fn build_node_from_refs<D: Dataset, S: Sample>(
        &mut self,
        dataset: &D,
        sample_refs: &[&S],
        node_id: u64,
        depth: usize,
        impurity_before: Fraction,
        current_position: u64,
    )
        requires
            sample_refs@.len() <= u32::MAX,
            node_id >= 1,
            level(node_id) == depth,
            depth <= old(self).limits().max_depth <= 63,
            old(self).width() <= dataset.attribute_types().len(),
            old(self).plan(dataset.attribute_types()).admits_all(rows(sample_refs@)),
            vacant(old(self).structure(), node_id),
            impurity_before == gini(
                plus(rows(sample_refs@)).len() as int,
                sample_refs@.len() as int,
            ),
        ensures
            final(self).regrown(
                old(self),
                old(self).plan_at(dataset.attribute_types(), current_position),
                rows(sample_refs@),
                node_id,
            ),
            drawn_at(
                old(self).plan(dataset.attribute_types()),
                old(self).asked(),
                final(self).asked(),
                final(self).structure()[node_id],
                rows(sample_refs@),
                depth as int,
            ),
        decreases old(self).limits().max_depth - depth,
    {
        let ghost plan = self.plan_at(dataset.attribute_types(), current_position);
        let ghost m = rows(sample_refs@);
        let ghost start = *self;
        let num_samples: u32 = sample_refs.len() as u32;
        let num_plus: u32 = count_plus(sample_refs) as u32;
        proof {
            lemma_rows(sample_refs@);
        }
        let should_stop = depth >= self.config.max_depth || sample_refs.len()
            < self.config.min_samples_split || num_plus == 0 || num_plus == num_samples;
        if should_stop {
            self.create_leaf_from_refs(sample_refs, node_id, num_samples, num_plus, Ghost(plan));
            return;
        }
        let best_split = self.find_best_split_refs(dataset, sample_refs, impurity_before);
        let ghost asked = put_since(start.log@, self.log@);
        let ghost splits = choose|splits: Seq<Split>| #[trigger]
            start.plan(dataset.attribute_types()).drawn(m, splits) && best_found(
            m,
            splits,
            best_split,
        ) && start.plan(dataset.attribute_types()).asks_splits(m, splits, asked);
        assert(start.log@ + asked =~= self.log@);
        assert((start.log@ + asked).is_prefix_of(self.log@));
        proof {
            lemma_drawn_anywhere(start.plan(dataset.attribute_types()), plan, m, splits);
        }
        match best_split {
            Some((split, stats)) => {
                proof {
                    lemma_drawn_splittable(plan, m, splits, sample_refs@);
                    lemma_pick(m, splits, splits.len() as int);
                    law_level_bounds(node_id);
                    law_parent_of_child(node_id);
                }
                let (left_indices, right_indices) = partition_indices(sample_refs, &split);
                let left_refs = pick_refs(sample_refs, &left_indices);
                let right_refs = pick_refs(sample_refs, &right_indices);
                proof {
                    lemma_rows(left_refs@);
                    lemma_rows(right_refs@);
                    lemma_sides(m, split);
                }
                if left_refs.len() < self.config.min_samples_leaf || right_refs.len()
                    < self.config.min_samples_leaf {
                    self.create_leaf_from_refs(
                        sample_refs,
                        node_id,
                        num_samples,
                        num_plus,
                        Ghost(plan),
                    );
                    proof {
                        lemma_drawn_at(
                            start.plan(dataset.attribute_types()),
                            start.log@,
                            self.log@,
                            self.structure()[node_id],
                            m,
                            depth as int,
                            splits,
                            asked,
                        );
                    }
                    return;
                }
                let split_gini = gini_to_record(&self.config, &stats);
                proof {
                    lemma_sides(m, split);
                }
                let node = Node::internal_at(
                    split,
                    num_samples,
                    num_plus,
                    current_position,
                    split_gini,
                );
                self.nodes.insert(node_id, node);
                let ghost planted = *self;
                proof {
                    assert(planted.structure() =~= start.structure().insert(node_id, node@));
                    lemma_vacant_children(start.structure(), planted.structure(), node_id);
                    lemma_admits_sides(plan, m, split);
                }
                self.build_node_from_refs(
                    dataset,
                    left_refs.as_slice(),
                    left_child(node_id),
                    depth + 1,
                    stats.impurity_left,
                    current_position,
                );
                let ghost halfway = *self;
                proof {
                    lemma_vacant_right(planted.structure(), halfway.structure(), node_id);
                }
                self.build_node_from_refs(
                    dataset,
                    right_refs.as_slice(),
                    right_child(node_id),
                    depth + 1,
                    stats.impurity_right,
                    current_position,
                );
                proof {
                    lemma_regrown_join(start, planted, halfway, *self, plan, m, split, node_id);
                    lemma_prefix(start.log@ + asked, planted.log@, halfway.log@);
                    lemma_prefix(start.log@ + asked, halfway.log@, self.log@);
                    lemma_drawn_at(
                        start.plan(dataset.attribute_types()),
                        start.log@,
                        self.log@,
                        self.structure()[node_id],
                        m,
                        depth as int,
                        splits,
                        asked,
                    );
                }
            },
            None => {
                self.create_leaf_from_refs(
                    sample_refs,
                    node_id,
                    num_samples,
                    num_plus,
                    Ghost(plan),
                );
                proof {
                    lemma_drawn_at(
                        start.plan(dataset.attribute_types()),
                        start.log@,
                        self.log@,
                        self.structure()[node_id],
                        m,
                        depth as int,
                        splits,
                        asked,
                    );
                }
            },
        }
    }

    /// Grows the tree anew from some samples, which it reorders. Without samples the tree
    /// has no nodes.
    pub fn fit<D: Dataset, S: Sample>(&mut self, dataset: &D, samples: &mut [S])
        requires
            old(self).wf(),
            old(samples)@.len() <= u32::MAX,
            old(self).width() <= dataset.attribute_types().len(),
            old(self).plan(dataset.attribute_types()).admits_each(old(samples)@),
        ensures
            final(self).wf(),
            final(self).same_setting(old(self)),
            final(samples)@.len() == old(samples)@.len(),
            rows(final(samples)@) == rows(old(samples)@),
            fitted(
                *old(self),
                *final(self),
                old(self).plan(dataset.attribute_types()),
                rows(old(samples)@),
            ),
            old(self).asked().is_prefix_of(final(self).asked()),
            old(samples)@.len() > 0 ==> drawn_at(
                old(self).plan(dataset.attribute_types()),
                old(self).asked(),
                final(self).asked(),
                final(self).structure()[ROOT],
                rows(old(samples)@),
                0,
            ),
    {
        let ghost m = rows(samples@);
        let ghost plan = self.plan(dataset.attribute_types());
        assert(self.log@.is_prefix_of(self.log@));
        proof {
            lemma_admits_each(plan, samples@);
        }
        self.nodes.clear();
        self.sample_leaf_map.clear();
        assert(self.structure() =~= Map::<u64, NodeView>::empty());
        reveal(linked);
        proof {
            lemma_rows(samples@);
        }
        if samples.len() == 0 {
            proof {
                lemma_rows_empty(samples@);
                assert(ids(m) =~= Set::<u64>::empty());
                assert(mapped(self.structure(), self.placement(), m)) by {
                    assert(self.placement().dom() =~= ids(m));
                }
            }
            return;
        }
        let num_plus: u32 = count_plus(samples) as u32;
        let impurity = gini_impurity(num_plus, samples.len() as u32);
        let ghost emptied = *self;
        self.build_node(dataset, samples, ROOT, 0, impurity, 0);
        proof {
            lemma_grown_linked(plan, emptied.structure(), self.structure(), m, ROOT);
            law_grown_is_exact(plan, self.structure(), m);
            lemma_grown_suits(plan, self.structure(), m, ROOT);
            assert(plan.suits_all(self.structure())) by {
                assert forall|id: u64| #[trigger] is_inner(self.structure(), id) implies plan.suits(
                    self.structure()[id]->split,
                ) by {
                    lemma_linked_at(self.structure(), plan.config.max_depth as int, id);
                    lemma_within_root(id);
                }
            }
            if distinct(m) {
                law_grown_is_mapped(plan, self.structure(), self.placement(), m);
            }
        }
    }
}

/// Whether a node is what the splits made of it that were drawn for its samples first of all:
/// the best of them is its split, unless it has to stay a leaf or that one does not help.
pub open spec fn drawn_at(
    plan: Plan,
    before: Seq<Question>,
    after: Seq<Question>,
    node: NodeView,
    m: Rows,
    depth: int,
) -> bool {
    plan.must_stop(m, depth) || exists|splits: Seq<Split>, asked: Seq<Question>|
        {
            &&& #[trigger] plan.asks_splits(m, splits, asked)
            &&& (before + asked).is_prefix_of(after)
            &&& match pick(m, splits) {
                Some(split) => if plan.balanced(m, split) {
                    node is Internal && node->split == split
                } else {
                    node is Leaf
                },
                None => node is Leaf,
            }
        }
}

/// Whether a tree has been grown anew from some samples. It then counts them exactly,
/// every inner node has its children, each sample is led to the leaf where it ends if no
/// two share an identifier, and the tree can route every row that its plan admits.
pub open spec fn fitted(before: DynFrsTree, after: DynFrsTree, plan: Plan, m: Rows) -> bool {
    &&& after.states() == before.states()
    &&& if m.len() == 0 {
        &&& after.structure() == Map::<u64, NodeView>::empty()
        &&& after.placement() == Map::<u64, u64>::empty()
    } else {
        plan.grown(after.structure(), m, ROOT)
    }
    &&& placed(Map::<u64, u64>::empty(), after.placement(), after.structure(), ids(m), ROOT)
    &&& exact(after.structure(), m)
    &&& full(after.structure())
    &&& distinct(m) ==> mapped(after.structure(), after.placement(), m)
    &&& plan.suits_all(after.structure())
    &&& forall|values: Seq<i64>|
        plan.admits(values) ==> #[trigger] routable(after.structure(), values)
}

/// To admit each sample of a list is to admit its rows.
pub proof fn lemma_admits_each<S: Sample>(plan: Plan, samples: Seq<S>)
    ensures
        plan.admits_each(samples) == plan.admits_all(rows(samples)),
{
    lemma_rows(samples);
    if plan.admits_each(samples) {
        assert forall|d: SampleData| #[trigger] rows(samples).count(d) > 0 implies plan.admits(
            d.values,
        ) by {
            let i = choose|i: int| 0 <= i < samples.len() && #[trigger] samples[i].data() == d;
            assert(plan.admits(samples[i].data().values));
        }
    }
    if plan.admits_all(rows(samples)) {
        assert forall|i: int| 0 <= i < samples.len() implies plan.admits(
            (#[trigger] samples[i]).data().values,
        ) by {
            assert(rows(samples).count(samples[i].data()) > 0);
        }
    }
}

/// Every split below a node that was grown suits the attributes.
pub proof fn lemma_grown_suits(plan: Plan, nodes: Nodes, m: Rows, top: u64)
    requires
        plan.grown(nodes, m, top),
        plan.width <= plan.types.len(),
    ensures
        forall|id: u64| #[trigger]
            is_inner(nodes, id) && within(id, top) ==> plan.suits(nodes[id]->split),
{
    assert forall|id: u64| #[trigger] is_inner(nodes, id) && within(id, top) implies plan.suits(
        nodes[id]->split,
    ) by {
        lemma_split_suits(plan, arrivals(nodes, m, top, id), level(id) as int, nodes[id]->split);
    }
}

/// Lists the samples at chosen places.
pub(super) fn pick_refs<'a, S: Sample>(samples: &[&'a S], places: &Vec<usize>) -> (r: Vec<&'a S>)
    requires
        forall|i: int| 0 <= i < places@.len() ==> #[trigger] places@[i] < samples@.len(),
    ensures
        r@ == picked(samples@, places@),
{
    let mut list: Vec<&'a S> = Vec::new();
    let mut i: usize = 0;
    while i < places.len()
        invariant
            i <= places@.len(),
            forall|i: int| 0 <= i < places@.len() ==> #[trigger] places@[i] < samples@.len(),
            list@ == picked(samples@, places@).take(i as int),
        decreases places@.len() - i,
    {
        list.push(samples[places[i]]);
        assert(list@ =~= picked(samples@, places@).take(i as int + 1));
        i = i + 1;
    }
    assert(list@ =~= picked(samples@, places@));
    list
}

/// The children of a new node are vacant.
proof fn lemma_vacant_children(a: Nodes, b: Nodes, top: u64)
    requires
        1 <= top <= MAX_PARENT,
        vacant(a, top),
        b == a.insert(top, b[top]),
    ensures
        vacant(b, (2 * top) as u64),
        vacant(b, (2 * top + 1) as u64),
{
    assert forall|id: u64| #[trigger] within(id, (2 * top) as u64) implies !b.contains_key(id) by {
        lemma_within_children(id, top);
        assert(within(id, top));
    }
    assert forall|id: u64| #[trigger] within(id, (2 * top + 1) as u64) implies !b.contains_key(
        id,
    ) by {
        lemma_within_children(id, top);
        assert(within(id, top));
    }
}

/// Growing the left part leaves the right one vacant.
proof fn lemma_vacant_right(a: Nodes, b: Nodes, top: u64)
    requires
        1 <= top <= MAX_PARENT,
        vacant(a, (2 * top + 1) as u64),
        same_outside(a, b, (2 * top) as u64),
    ensures
        vacant(b, (2 * top + 1) as u64),
{
    assert forall|id: u64| #[trigger] within(id, (2 * top + 1) as u64) implies !b.contains_key(
        id,
    ) by {
        lemma_within_children(id, top);
        assert(!within(id, (2 * top) as u64));
    }
}

/// Every part of what is admitted is admitted.
pub proof fn lemma_admits_sides(plan: Plan, m: Rows, split: Split)
    requires
        plan.admits_all(m),
    ensures
        plan.admits_all(side(m, split, true)),
        plan.admits_all(side(m, split, false)),
{
    assert forall|d: SampleData| #[trigger]
        side(m, split, true).count(d) > 0 implies plan.admits(d.values) by {
        assert(m.count(d) > 0);
    }
    assert forall|d: SampleData| #[trigger]
        side(m, split, false).count(d) > 0 implies plan.admits(d.values) by {
        assert(m.count(d) > 0);
    }
}

/// A node is what drawn splits have made of it.
proof fn lemma_drawn_at(
    plan: Plan,
    before: Seq<Question>,
    after: Seq<Question>,
    node: NodeView,
    m: Rows,
    depth: int,
    splits: Seq<Split>,
    asked: Seq<Question>,
)
    requires
        plan.asks_splits(m, splits, asked),
        (before + asked).is_prefix_of(after),
        match pick(m, splits) {
            Some(split) => if plan.balanced(m, split) {
                node is Internal && node->split == split
            } else {
                node is Leaf
            },
            None => node is Leaf,
        },
    ensures
        drawn_at(plan, before, after, node, m, depth),
{
}

/// What questions start with, longer lists of them start with.
proof fn lemma_prefix(a: Seq<Question>, b: Seq<Question>, c: Seq<Question>)
    requires
        a.is_prefix_of(b),
        b.is_prefix_of(c),
    ensures
        a.is_prefix_of(c),
{
    assert(a =~= c.subrange(0, a.len() as int)) by {
        assert forall|i: int| 0 <= i < a.len() implies a[i] == c[i] by {
            assert(a[i] == b.subrange(0, a.len() as int)[i]);
            assert(b[i] == c.subrange(0, b.len() as int)[i]);
        }
    }
}

/// A node and the two parts that were grown below it make up a part that was grown.
proof fn lemma_regrown_join(
    start: DynFrsTree,
    planted: DynFrsTree,
    halfway: DynFrsTree,
    done: DynFrsTree,
    plan: Plan,
    m: Rows,
    split: Split,
    top: u64,
)
    requires
        1 <= top <= MAX_PARENT,
        start.index == planted.index,
        start.sample_leaf_map == planted.sample_leaf_map,
        start.config == planted.config,
        start.num_attributes == planted.num_attributes,
        start.streaming_states == planted.streaming_states,
        start.streaming_enabled == planted.streaming_enabled,
        start.log@.is_prefix_of(planted.log@),
        vacant(start.structure(), top),
        planted.structure() == start.structure().insert(top, planted.structure()[top]),
        planted.structure()[top] == (NodeView::Internal {
            split,
            lazy_tag: LazyTag::Clean,
            num_samples: planted.structure()[top].samples(),
            num_plus: planted.structure()[top].plus(),
            created_at: plan.position,
            split_gini: plan.recorded(m, split),
        }),
        planted.structure()[top].samples() == m.len(),
        planted.structure()[top].plus() == plus(m).len(),
        plan.may_split(m, level(top) as int, split),
        halfway.regrown(&planted, plan, side(m, split, true), (2 * top) as u64),
        done.regrown(&halfway, plan, side(m, split, false), (2 * top + 1) as u64),
    ensures
        done.regrown(&start, plan, m, top),
        done.structure()[top] == planted.structure()[top],
{
    let l = (2 * top) as u64;
    let r = (2 * top + 1) as u64;
    let s = start.structure();
    let p = planted.structure();
    let h = halfway.structure();
    let d = done.structure();
    lemma_prefix(start.log@, planted.log@, halfway.log@);
    lemma_prefix(start.log@, halfway.log@, done.log@);
    lemma_within_children(top, top);
    assert(p.contains_key(top));
    assert(h.contains_key(top) && h[top] == p[top]);
    assert(d.contains_key(top) && d[top] == p[top]);
    assert forall|id: u64| #[trigger] within(id, l) implies h.contains_key(id) == d.contains_key(id)
        && (h.contains_key(id) ==> h[id] == d[id]) by {
        lemma_within_children(id, top);
        assert(!within(id, r));
    }
    lemma_grown_frame(plan, h, d, side(m, split, true), l);
    lemma_grown_join(plan, d, m, split, top);
    assert forall|id: u64| !#[trigger] within(id, top) implies s.contains_key(id)
        == d.contains_key(id) && (s.contains_key(id) ==> s[id] == d[id]) by {
        lemma_within_children(id, top);
        assert(!within(id, l) && !within(id, r));
        assert(within(top, top));
    }
    let left = ids(side(m, split, true));
    let right = ids(side(m, split, false));
    lemma_ids_sides(m, split);
    let before = start.placement();
    let mid = halfway.placement();
    let after = done.placement();
    assert forall|sid: u64|
        #![trigger after.contains_key(sid)]
        #![trigger before.contains_key(sid)]
        #![trigger ids(m).contains(sid)]
        if ids(m).contains(sid) {
            &&& after.contains_key(sid)
            &&& within(after[sid], top)
            &&& d.contains_key(after[sid])
            &&& d[after[sid]] is Leaf
            &&& d[after[sid]]->sample_ids.contains(sid)
        } else {
            after.contains_key(sid) == before.contains_key(sid) && (after.contains_key(sid)
                ==> after[sid] == before[sid])
        } by {
        assert(ids(m).contains(sid) == (left.contains(sid) || right.contains(sid)));
        assert(mid.contains_key(sid) || !mid.contains_key(sid));
        if right.contains(sid) {
            lemma_within_children(after[sid], top);
        } else if left.contains(sid) {
            lemma_within_children(mid[sid], top);
            assert(after[sid] == mid[sid]);
            assert(!within(mid[sid], r));
        }
    }
}

/// The identifiers on the two sides of a split are all the identifiers.
proof fn lemma_ids_sides(m: Rows, split: Split)
    ensures
        forall|sid: u64| #[trigger]
            ids(m).contains(sid) == (ids(side(m, split, true)).contains(sid) || ids(
                side(m, split, false),
            ).contains(sid)),
{
    let l = side(m, split, true);
    let r = side(m, split, false);
    assert forall|sid: u64| #[trigger] ids(m).contains(sid) == (ids(l).contains(sid) || ids(
        r,
    ).contains(sid)) by {
        if ids(m).contains(sid) {
            let d = choose|d: SampleData| m.count(d) > 0 && #[trigger] d.id == sid;
            if split.routes_left(d.values) {
                assert(l.count(d) > 0);
            } else {
                assert(r.count(d) > 0);
            }
        }
        if ids(l).contains(sid) {
            let d = choose|d: SampleData| l.count(d) > 0 && #[trigger] d.id == sid;
            assert(m.count(d) > 0);
        }
        if ids(r).contains(sid) {
            let d = choose|d: SampleData| r.count(d) > 0 && #[trigger] d.id == sid;
            assert(m.count(d) > 0);
        }
    }
}

/// Whether a result is the best of some splits, with its class counts and its score.
pub open spec fn best_found(m: Rows, splits: Seq<Split>, r: Option<(Split, SplitStats)>) -> bool {
    match r {
        Some((split, stats)) => {
            &&& pick(m, splits) == Some(split)
            &&& tallies(stats, m, split)
            &&& stats.scored(gini(plus(m).len() as int, m.len() as int))
            &&& stats.score is Some
            &&& stats.score->0 > 0
        },
        None => pick(m, splits) is None,
    }
}

/// Two searches that try the same splits for the same samples find the same: the same
/// split, with the same class counts and the same score. How the samples are handed over
/// makes no difference.
pub proof fn law_searches_agree<S: Sample, T: Sample>(
    samples: Seq<S>,
    others: Seq<T>,
    splits: Seq<Split>,
    a: Option<(Split, SplitStats)>,
    b: Option<(Split, SplitStats)>,
)
    requires
        rows(samples) == rows(others),
        best_found(rows(samples), splits, a),
        best_found(rows(others), splits, b),
    ensures
        a == b,
{
}

/// How many attributes are tried for a split.
fn features_to_try(config: &TreeConfig, num_attributes: u8) -> (r: usize)
    ensures
        r == (Plan { config: *config, types: Seq::empty(), width: num_attributes, position: 0 })
            .features_tried(),
        r <= num_attributes,
{
    let wanted: usize = match config.max_features {
        Some(k) => k,
        None => {
            let n: usize = num_attributes as usize;
            let mut r: usize = 0;
            assert(r * r <= 255 * 255);
            while r * r < n && r < n
                invariant
                    r <= n <= 255,
                    r * r <= 255 * 255,
                    root_up(n as int, 0) == root_up(n as int, r as int),
                decreases n - r,
            {
                r = r + 1;
                assert(r * r <= 255 * 255) by (nonlinear_arith)
                    requires
                        0 <= r <= 255,
                ;
            }
            r
        },
    };
    if wanted <= num_attributes as usize {
        wanted
    } else {
        num_attributes as usize
    }
}

/// The extent that was found is the extent of the samples.
proof fn lemma_range_spans<S: Sample>(samples: Seq<S>, a: u8, range: (i64, i64))
    requires
        samples.len() > 0,
        is_range(samples, a as int, range),
    ensures
        spans(rows(samples), a, range),
{
    lemma_rows(samples);
    let m = rows(samples);
    assert forall|d: SampleData| #[trigger] m.count(d) > 0 implies range.0 <= d.values[a as int]
        <= range.1 by {
        let i = choose|i: int| 0 <= i < samples.len() && #[trigger] samples[i].data() == d;
        assert(samples[i].data() == d);
    }
    let i = choose|i: int|
        0 <= i < samples.len() && (#[trigger] samples[i].data()).values[a as int] == range.0;
    assert(m.count(samples[i].data()) > 0);
    let j = choose|i: int|
        0 <= i < samples.len() && (#[trigger] samples[i].data()).values[a as int] == range.1;
    assert(m.count(samples[j].data()) > 0);
}

/// Every split that was drawn can decide about every sample.
pub proof fn lemma_drawn_splittable<S: Sample>(
    plan: Plan,
    m: Rows,
    splits: Seq<Split>,
    samples: Seq<S>,
)
    requires
        m == rows(samples),
        samples.len() > 0,
        plan.drawn(m, splits),
        plan.admits_all(m),
    ensures
        forall|i: int| 0 <= i < splits.len() ==> splittable(m, #[trigger] splits[i]),
{
    lemma_rows(samples);
    assert(m.count(samples[0].data()) > 0);
    assert(plan.admits(samples[0].data().values));
    let attrs = choose|attrs: Seq<u8>|
        is_choice(plan.width, plan.features_tried(), attrs) && #[trigger] plan.offers(
            m,
            attrs,
            splits,
        );
    assert forall|i: int| 0 <= i < splits.len() implies splittable(m, #[trigger] splits[i]) by {
        lemma_offers_suit(plan, m, attrs, splits, i);
        assert forall|d: SampleData| #[trigger] m.count(d) > 0 implies splits[i].applies(
            d.values,
        ) by {
            lemma_suits_applies(plan, splits[i], d.values);
        }
    }
}

/// Finds the best of some splits: the one with the highest positive score, and the
/// first of them if there are several.
pub fn best_of<S: Sample>(
    samples: &[S],
    splits: &Vec<Split>,
    impurity_before: Fraction,
) -> (r: Option<(Split, SplitStats)>)
    requires
        samples@.len() <= u32::MAX,
        forall|i: int| 0 <= i < splits@.len() ==> splittable(rows(samples@), #[trigger] splits@[i]),
        impurity_before == gini(plus(rows(samples@)).len() as int, samples@.len() as int),
    ensures
        best_found(rows(samples@), splits@, r),
{
    let ghost m = rows(samples@);
    let mut best: Option<(Split, SplitStats)> = None;
    let mut i: usize = 0;
    proof {
        lemma_rows(samples@);
        lemma_plus(m);
        lemma_gini_share(plus(m).len() as int, m.len() as int);
    }
    while i < splits.len()
        invariant
            i <= splits@.len(),
            m == rows(samples@),
            m.len() == samples@.len() <= u32::MAX,
            is_share(impurity_before),
            impurity_before == gini(plus(m).len() as int, m.len() as int),
            forall|i: int| 0 <= i < splits@.len() ==> splittable(m, #[trigger] splits@[i]),
            match best {
                Some((split, stats)) => {
                    &&& pick_upto(m, splits@, i as int) is Some
                    &&& split == splits@[pick_upto(m, splits@, i as int)->0]
                    &&& tallies(stats, m, split)
                    &&& stats.scored(impurity_before)
                    &&& stats.score is Some
                    &&& stats.score->0 > 0
                    &&& score_in(m, split) == Some(stats.score->0 as int)
                },
                None => pick_upto(m, splits@, i as int) is None,
            },
        decreases splits@.len() - i,
    {
        let split = splits[i];
        let mut stats = scan_auto(samples, &split);
        stats.update_score(impurity_before);
        proof {
            lemma_sides(m, split);
        }
        assert(score_in(m, split) == (match stats.score {
            Some(s) => Some(s as int),
            None => None,
        }));
        if stats.has_positive_score() {
            let higher = match &best {
                None => true,
                Some(b) => match (stats.score, b.1.score) {
                    (Some(x), Some(y)) => x > y,
                    _ => false,
                },
            };
            if higher {
                best = Some((split, stats));
            }
        }
        i = i + 1;
    }
    best
}

/// The impurity of a node lies between zero and one.
proof fn lemma_gini_share(p: int, n: int)
    requires
        0 <= p <= n <= u32::MAX,
    ensures
        is_share(gini(p, n)),
{
    if n > 0 {
        assert(0 <= 2 * p * (n - p) <= n * n) by (nonlinear_arith)
            requires
                0 <= p <= n,
        ;
        assert(0 < n * n <= 0xffff_ffff * 0xffff_ffff) by (nonlinear_arith)
            requires
                0 < n <= 0xffff_ffff,
        ;
    }
}

} // verus!
