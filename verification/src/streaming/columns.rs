//! What holds of the columns that statistics are made from.

use super::{
    asks_thresholds, column_of, count_upto, counted, extent_of, is_constant, label_count,
    law_extent, near_upto, plus_upto, positive_rows, value_at, values_answered, values_of, varying,
    Column, RowView, StatsView, ThresholdCandidate,
};
use crate::count::{lemma_those, those};
use crate::draw::{asks_attributes, chosen, law_every_choice_can_come, places};
use crate::random::Question;
use vstd::multiset::Multiset;
use vstd::prelude::*;

verus! {

/// The values of a column are counted by what they are: those that are equal to a value up
/// to rounding, those that are at most a threshold, the positive ones of these, and all
/// positive ones.
pub proof fn law_values_are_counted(column: Column, n: int, v: i64)
    requires
        0 <= n <= column.len(),
    ensures
        near_upto(column, n, v) == those(
            n,
            |i: int| -2 < column[i].0 - v && column[i].0 - v < 2,
        ).len(),
        count_upto(column, n, v) == those(n, |i: int| column[i].0 <= v).len(),
        plus_upto(column, n, v) == those(n, |i: int| column[i].0 <= v && column[i].1).len(),
        label_count(column, n) == those(n, |i: int| column[i].1).len(),
        near_upto(column, n, v) <= n,
        plus_upto(column, n, v) <= count_upto(column, n, v) <= n,
        plus_upto(column, n, v) <= label_count(column, n) <= n,
    decreases n,
{
    lemma_those(n, |i: int| -2 < column[i].0 - v && column[i].0 - v < 2);
    lemma_those(n, |i: int| column[i].0 <= v);
    lemma_those(n, |i: int| column[i].0 <= v && column[i].1);
    lemma_those(n, |i: int| column[i].1);
    if n > 0 {
        law_values_are_counted(column, n - 1, v);
    }
}

/// A candidate counts at its threshold the values that go left there, and the positive ones
/// of them.
pub proof fn law_candidate_counts_left_side(column: Column, threshold: i64)
    requires
        column.len() <= u32::MAX,
    ensures
        counted(column, threshold).threshold == threshold,
        counted(column, threshold).left_count == those(
            column.len() as int,
            |i: int| column[i].0 <= threshold,
        ).len(),
        counted(column, threshold).left_positive == those(
            column.len() as int,
            |i: int| column[i].0 <= threshold && column[i].1,
        ).len(),
{
    law_values_are_counted(column, column.len() as int, threshold);
}

/// A column has nothing to split if no two of its values are further apart than rounding
/// explains.
pub proof fn law_constant_column_has_equal_values(column: Column)
    ensures
        is_constant(column) <==> forall|i: int, j: int|
            0 <= i < column.len() && 0 <= j < column.len() ==> (#[trigger] column[i]).0 - (
            #[trigger] column[j]).0 < 2,
{
    if column.len() > 0 {
        law_extent(column);
        let e = extent_of(column);
        let a = choose|i: int| 0 <= i < column.len() && (#[trigger] column[i]).0 == e.min_val;
        let b = choose|i: int| 0 <= i < column.len() && (#[trigger] column[i]).0 == e.max_val;
        assert(column[b].0 - column[a].0 == e.max_val - e.min_val);
        if e.max_val - e.min_val < 2 {
            assert forall|i: int, j: int|
                0 <= i < column.len() && 0 <= j < column.len() implies (#[trigger] column[i]).0 - (
            #[trigger] column[j]).0 < 2 by {
                assert(column[i].0 <= e.max_val);
                assert(column[j].0 >= e.min_val);
            }
        }
    }
}

/// A column holds the values of an attribute in order, with the classes; a row that lacks the
/// attribute counts as zero.
pub proof fn law_column_holds_values(rows: Seq<RowView>, attr: u8, i: int)
    requires
        0 <= i < rows.len(),
    ensures
        column_of(rows, attr).len() == rows.len(),
        column_of(rows, attr)[i].1 == rows[i].label,
        attr < rows[i].values.len() ==> column_of(rows, attr)[i].0 == rows[i].values[attr as int],
        attr >= rows[i].values.len() ==> column_of(rows, attr)[i].0 == 0,
        value_at(rows[i].values, attr) == column_of(rows, attr)[i].0,
{
}

/// The attributes that can be split are those of a list that are not constant, in order.
pub proof fn law_varying_are_not_constant(rows: Seq<RowView>, attrs: Seq<u8>)
    ensures
        varying(rows, attrs) == attrs.filter(|a: u8| !is_constant(column_of(rows, a))),
    decreases attrs.len(),
{
    reveal(Seq::filter);
    if attrs.len() > 0 {
        law_varying_are_not_constant(rows, attrs.drop_last());
    } else {
        assert(varying(rows, attrs) =~= attrs.filter(|a: u8| !is_constant(column_of(rows, a))));
    }
}

/// Statistics count all rows and the positive ones of them.
pub proof fn law_rows_are_counted(stats: StatsView, rows: Seq<RowView>, attrs: Seq<u8>)
    requires
        stats.describes(rows, attrs),
        rows.len() <= u32::MAX,
    ensures
        stats.total_samples == rows.len(),
        stats.total_positive == those(rows.len() as int, |i: int| rows[i].label).len(),
        stats.candidates.len() <= attrs.len(),
{
    lemma_positive_rows(rows, rows.len() as int);
    law_varying_are_not_constant(rows, attrs);
    attrs.lemma_filter_len(|a: u8| !is_constant(column_of(rows, a)));
}

/// The positive ones of the first rows.
proof fn lemma_positive_rows(rows: Seq<RowView>, n: int)
    requires
        0 <= n <= rows.len(),
    ensures
        positive_rows(rows, n) == those(n, |i: int| rows[i].label).len(),
        positive_rows(rows, n) <= n,
    decreases n,
{
    lemma_those(n, |i: int| rows[i].label);
    if n > 0 {
        lemma_positive_rows(rows, n - 1);
    }
}

/// A sample that comes is counted in all and, if it is, in the positive ones; one that goes
/// is no longer.
pub proof fn law_totals_follow_samples(stats: StatsView, values: Seq<i64>, label: bool)
    requires
        0 < stats.total_samples < u32::MAX,
        stats.total_positive < u32::MAX,
        label ==> stats.total_positive > 0,
    ensures
        ({
            let one = if label {
                1int
            } else {
                0
            };
            let more = stats.with_sample(values, label);
            let less = stats.without_sample(values, label);
            &&& more.total_samples == stats.total_samples + 1
            &&& more.total_positive == stats.total_positive + one
            &&& less.total_samples == stats.total_samples - 1
            &&& less.total_positive == stats.total_positive - one
            &&& more.constant == stats.constant
            &&& less.constant == stats.constant
        }),
{
}

/// What was answered to questions for given values is those values.
proof fn lemma_answers(values: Seq<i64>, low: int, high: int, asked: Seq<Question>)
    requires
        asked.len() == values.len(),
        forall|i: int| 0 <= i < asked.len() ==> (#[trigger] asked[i]).answer == values[i],
    ensures
        values_answered(asked) == values.to_multiset(),
    decreases asked.len(),
{
    broadcast use vstd::seq_lib::group_to_multiset_ensures;

    if asked.len() == 0 {
        assert(values =~= Seq::<i64>::empty());
        assert(values.to_multiset() =~= Multiset::empty());
    } else {
        let front = values.drop_last();
        lemma_answers(front, low, high, asked.drop_last());
        assert(values =~= front.push(values.last()));
        assert(front.push(values.last()).to_multiset() =~= front.to_multiset().insert(
            values.last(),
        ));
        assert(asked.last().answer as i64 == values.last());
    }
}

/// Any thresholds from the smallest value of a column up to below its largest one can come
/// together.
pub proof fn law_any_thresholds_can_come(column: Column, thresholds: Seq<ThresholdCandidate>)
    requires
        forall|i: int|
            0 <= i < thresholds.len() ==> extent_of(column).min_val <= (
            #[trigger] thresholds[i]).threshold < extent_of(column).max_val,
    ensures
        exists|asked: Seq<Question>| #[trigger]
            asks_thresholds(column, thresholds, asked) && asked.len() == thresholds.len(),
{
    let e = extent_of(column);
    let asked = Seq::new(
        thresholds.len(),
        |i: int|
            Question {
                low: e.min_val as int,
                high: e.max_val as int,
                answer: thresholds[i].threshold as int,
            },
    );
    let values = values_of(thresholds);
    lemma_answers(values, e.min_val as int, e.max_val as int, asked);
    assert(asks_thresholds(column, thresholds, asked));
}

/// Any choice of attributes can come for statistics, as many as asked for or all of them.
pub proof fn law_any_candidates_can_come(stats: StatsView, rows: Seq<RowView>, attrs: Seq<u8>)
    requires
        attrs.no_duplicates(),
        forall|i: int| 0 <= i < attrs.len() ==> #[trigger] attrs[i] < stats.num_attributes,
        attrs.len() <= stats.num_attributes,
        stats.describes(rows, attrs),
    ensures
        exists|asked: Seq<Question>| #[trigger] stats.asked_for(rows, attrs.len() as int, asked),
{
    law_every_choice_can_come(stats.num_attributes, attrs);
    let asked = choose|asked: Seq<Question>| #[trigger]
        asks_attributes(stats.num_attributes, attrs.len() as int, asked) && chosen(
            stats.num_attributes,
            places(asked),
        ) == attrs;
    assert(asked.take(attrs.len() as int) =~= asked);
    assert(stats.asked_for(rows, attrs.len() as int, asked));
}

} // verus!
