//! What is kept of a sample.

use crate::fraction::Fraction;
use vstd::prelude::*;

verus! {

/// Influences, and the weights and rates that go with them, count parts of this many.
pub const INFLUENCE_ONE: i64 = 1000000000;

/// How many entries a history keeps at most.
pub const MAX_HISTORY_LEN: usize = 20;

/// What is kept of a sample.
#[derive(Clone, Debug)]
pub struct TrackedSample {
    /// The trees that have learnt the sample.
    pub tree_indices: Vec<usize>,
    /// The class.
    pub label: bool,
    /// The place in the stream at which the sample came.
    pub position: u64,
    /// The latest influence, if it has been computed.
    pub cached_influence: Option<i64>,
    /// The influence before that.
    pub prev_influence: Option<i64>,
    /// Influences, each with the place in the stream at which it was computed.
    pub influence_history: Vec<(u64, i64)>,
    /// Ranks among the candidates for removal, each with the place in the stream.
    pub removal_rank_history: Vec<(u64, usize)>,
}

/// What is kept of a sample.
#[verifier::ext_equal]
pub struct TrackedView {
    pub tree_indices: Seq<usize>,
    pub label: bool,
    pub position: u64,
    pub cached_influence: Option<i64>,
    pub prev_influence: Option<i64>,
    pub influence_history: Seq<(u64, i64)>,
    pub removal_rank_history: Seq<(u64, usize)>,
}

/// A history with one entry more, without the oldest one if it was full.
pub open spec fn appended<T>(history: Seq<T>, entry: T) -> Seq<T> {
    if history.len() >= MAX_HISTORY_LEN {
        history.drop_first().push(entry)
    } else {
        history.push(entry)
    }
}

/// The sum of the influences from one place of a history up to another.
pub open spec fn influence_sum(history: Seq<(u64, i64)>, from: int, to: int) -> int
    decreases to - from,
{
    if to <= from {
        0
    } else {
        influence_sum(history, from, to - 1) + history[to - 1].1
    }
}

/// How many of the first ranks of a history are below a bound.
pub open spec fn risk_count(history: Seq<(u64, usize)>, top_n: usize, n: int) -> nat
    decreases n,
{
    if n <= 0 {
        0
    } else {
        risk_count(history, top_n, n - 1) + if history[n - 1].1 < top_n {
            1nat
        } else {
            0nat
        }
    }
}

impl TrackedView {
    /// A sample that has just come.
    pub open spec fn fresh(tree_indices: Seq<usize>, label: bool, position: u64) -> TrackedView {
        TrackedView {
            tree_indices,
            label,
            position,
            cached_influence: None,
            prev_influence: None,
            influence_history: Seq::empty(),
            removal_rank_history: Seq::empty(),
        }
    }

    /// Whether no history is longer than allowed.
    pub open spec fn wf(&self) -> bool {
        &&& self.influence_history.len() <= MAX_HISTORY_LEN
        &&& self.removal_rank_history.len() <= MAX_HISTORY_LEN
    }

    /// An estimate of the memory that the sample takes.
    pub open spec fn bytes(&self) -> nat {
        84 + 8 * self.tree_indices.len() + 16 * self.influence_history.len() + 16
            * self.removal_rank_history.len()
    }

    /// The estimate as far as a number can hold it.
    pub open spec fn bytes_held(&self) -> usize {
        if self.bytes() <= usize::MAX {
            self.bytes() as usize
        } else {
            usize::MAX
        }
    }

    /// The change from the influence before to the latest one.
    pub open spec fn delta(&self) -> Option<int> {
        match (self.cached_influence, self.prev_influence) {
            (Some(current), Some(prev)) => Some(current - prev),
            _ => None,
        }
    }

    /// Whether the sample helped before and does harm now.
    pub open spec fn degraded(&self) -> bool {
        match (self.cached_influence, self.prev_influence) {
            (Some(current), Some(prev)) => prev >= 0 && current < 0,
            _ => false,
        }
    }

    /// The average influence: of the history if there is one, and the latest one
    /// otherwise.
    pub open spec fn average(&self) -> Option<Fraction> {
        let n = self.influence_history.len();
        if n > 0 {
            Some(
                Fraction {
                    num: influence_sum(self.influence_history, 0, n as int) as i128,
                    den: n as u128,
                },
            )
        } else {
            match self.cached_influence {
                Some(x) => Some(Fraction { num: x as i128, den: 1 }),
                None => None,
            }
        }
    }

    /// The average of the second half of the history minus that of the first half.
    pub open spec fn trend(&self) -> Option<Fraction> {
        let n = self.influence_history.len() as int;
        let h = n / 2;
        if n < 2 {
            None
        } else {
            Some(
                Fraction {
                    num: (influence_sum(self.influence_history, h, n) * h - influence_sum(
                        self.influence_history,
                        0,
                        h,
                    ) * (n - h)) as i128,
                    den: (h * (n - h)) as u128,
                },
            )
        }
    }

    /// The sample after an influence has been recorded.
    pub open spec fn with_influence(&self, position: u64, influence: i64) -> TrackedView {
        TrackedView {
            prev_influence: self.cached_influence,
            cached_influence: Some(influence),
            influence_history: appended(self.influence_history, (position, influence)),
            ..*self
        }
    }

    /// The sample after a rank has been recorded.
    pub open spec fn with_rank(&self, position: u64, rank: usize) -> TrackedView {
        TrackedView {
            removal_rank_history: appended(self.removal_rank_history, (position, rank)),
            ..*self
        }
    }

    /// The squared deviations of the first influences from their average, in parts of the
    /// square of their number.
    pub open spec fn spread(&self, n: int) -> int
        decreases n,
    {
        if n <= 0 {
            0
        } else {
            let all = self.influence_history.len() as int;
            let d = all * self.influence_history[n - 1].1 - influence_sum(
                self.influence_history,
                0,
                all,
            );
            self.spread(n - 1) + d * d
        }
    }

    /// Whether there is a history and its variance is at most a bound. The variance is the
    /// sum of squared deviations over the number of influences; the bound counts parts of
    /// [`INFLUENCE_ONE`], as the influences do.
    pub open spec fn steady(&self, max_variance: i64) -> bool {
        let n = self.influence_history.len() as int;
        n > 0 && self.spread(n) <= max_variance * INFLUENCE_ONE * (n * n * n)
    }
}

impl View for TrackedSample {
    type V = TrackedView;

    open spec fn view(&self) -> TrackedView {
        TrackedView {
            tree_indices: self.tree_indices@,
            label: self.label,
            position: self.position,
            cached_influence: self.cached_influence,
            prev_influence: self.prev_influence,
            influence_history: self.influence_history@,
            removal_rank_history: self.removal_rank_history@,
        }
    }
}

/// A sum of influences is no larger than their number allows.
pub proof fn lemma_influence_sum(history: Seq<(u64, i64)>, from: int, to: int)
    requires
        0 <= from <= to <= history.len(),
    ensures
        -(to - from) * 0x8000_0000_0000_0000 <= influence_sum(history, from, to) <= (to - from)
            * 0x8000_0000_0000_0000,
    decreases to - from,
{
    if from < to {
        lemma_influence_sum(history, from, to - 1);
        let k = to - 1 - from;
        assert((k + 1) * 0x8000_0000_0000_0000 == k * 0x8000_0000_0000_0000
            + 0x8000_0000_0000_0000) by (nonlinear_arith);
        assert(-(k + 1) * 0x8000_0000_0000_0000 == -k * 0x8000_0000_0000_0000
            - 0x8000_0000_0000_0000) by (nonlinear_arith);
    }
}

/// Adds up the influences from one place of a history up to another.
fn sum_influences(history: &Vec<(u64, i64)>, from: usize, to: usize) -> (r: i128)
    requires
        from <= to <= history@.len(),
        history@.len() <= MAX_HISTORY_LEN,
    ensures
        r == influence_sum(history@, from as int, to as int),
        -0xa_0000_0000_0000_0000 <= r <= 0xa_0000_0000_0000_0000,
{
    let mut sum: i128 = 0;
    let mut i: usize = from;
    while i < to
        invariant
            from <= i <= to <= history@.len(),
            history@.len() <= MAX_HISTORY_LEN,
            sum == influence_sum(history@, from as int, i as int),
        decreases to - i,
    {
        proof {
            lemma_influence_sum(history@, from as int, i as int);
            lemma_influence_sum(history@, from as int, i as int + 1);
        }
        sum = sum + history[i].1 as i128;
        i = i + 1;
    }
    proof {
        lemma_influence_sum(history@, from as int, to as int);
    }
    sum
}

impl TrackedSample {
    /// A sample that has just come.
    pub fn new(tree_indices: Vec<usize>, label: bool, position: u64) -> (r: Self)
        ensures
            r@ == TrackedView::fresh(tree_indices@, label, position),
    {
        TrackedSample {
            tree_indices,
            label,
            position,
            cached_influence: None,
            prev_influence: None,
            influence_history: Vec::new(),
            removal_rank_history: Vec::new(),
        }
    }

    /// An estimate of the memory that the sample takes, as far as a number can hold it.
    pub fn memory_bytes(&self) -> (r: usize)
        ensures
            r == self@.bytes_held(),
    {
        let total: u128 = 84 + 8 * self.tree_indices.len() as u128 + 16
            * self.influence_history.len() as u128 + 16 * self.removal_rank_history.len() as u128;
        if total <= usize::MAX as u128 {
            total as usize
        } else {
            usize::MAX
        }
    }

    /// Records an influence.
    pub fn record_influence(&mut self, position: u64, influence: i64)
        ensures
            final(self)@ == old(self)@.with_influence(position, influence),
    {
        self.prev_influence = self.cached_influence;
        if self.influence_history.len() >= MAX_HISTORY_LEN {
            let ghost before = self.influence_history@;
            self.influence_history.remove(0);
            assert(self.influence_history@ =~= before.drop_first());
        }
        self.influence_history.push((position, influence));
        self.cached_influence = Some(influence);
    }

    /// The change from the influence before to the latest one. Negative is worse.
    pub fn influence_delta(&self) -> (r: Option<i128>)
        ensures
            r is Some <==> self@.delta() is Some,
            r is Some ==> r->0 == self@.delta()->0,
    {
        match (self.cached_influence, self.prev_influence) {
            (Some(current), Some(prev)) => Some(current as i128 - prev as i128),
            _ => None,
        }
    }

    /// Whether the sample helped before and does harm now.
    pub fn is_influence_degraded(&self) -> (r: bool)
        ensures
            r == self@.degraded(),
    {
        match (self.cached_influence, self.prev_influence) {
            (Some(current), Some(prev)) => prev >= 0 && current < 0,
            _ => false,
        }
    }

    /// Records a rank among the candidates for removal.
    pub fn record_removal_rank(&mut self, position: u64, rank: usize)
        ensures
            final(self)@ == old(self)@.with_rank(position, rank),
    {
        if self.removal_rank_history.len() >= MAX_HISTORY_LEN {
            let ghost before = self.removal_rank_history@;
            self.removal_rank_history.remove(0);
            assert(self.removal_rank_history@ =~= before.drop_first());
        }
        self.removal_rank_history.push((position, rank));
    }

    /// The average influence.
    pub fn average_influence(&self) -> (r: Option<Fraction>)
        requires
            self@.wf(),
        ensures
            r == self@.average(),
            r is Some ==> r->0.wf(),
    {
        let n: usize = self.influence_history.len();
        if n == 0 {
            return match self.cached_influence {
                Some(x) => Some(Fraction { num: x as i128, den: 1 }),
                None => None,
            };
        }
        let sum: i128 = sum_influences(&self.influence_history, 0, n);
        Some(Fraction { num: sum, den: n as u128 })
    }

    /// How the influence develops. Negative is worse.
    pub fn influence_trend(&self) -> (r: Option<Fraction>)
        requires
            self@.wf(),
        ensures
            r == self@.trend(),
            r is Some ==> r->0.wf(),
            r is Some ==> -0x100_0000_0000_0000_0000 <= r->0.num <= 0x100_0000_0000_0000_0000
                && r->0.den <= 100,
    {
        let n: usize = self.influence_history.len();
        if n < 2 {
            return None;
        }
        let h: usize = n / 2;
        let first: i128 = sum_influences(&self.influence_history, 0, h);
        let second: i128 = sum_influences(&self.influence_history, h, n);
        proof {
            let a = second as int;
            let b = first as int;
            let x = h as int;
            let y = (n - h) as int;
            assert(-0x64_0000_0000_0000_0000 <= a * x <= 0x64_0000_0000_0000_0000)
                by (nonlinear_arith)
                requires
                    -0xa_0000_0000_0000_0000 <= a <= 0xa_0000_0000_0000_0000,
                    1 <= x <= 10,
            ;
            assert(-0x64_0000_0000_0000_0000 <= b * y <= 0x64_0000_0000_0000_0000)
                by (nonlinear_arith)
                requires
                    -0xa_0000_0000_0000_0000 <= b <= 0xa_0000_0000_0000_0000,
                    1 <= y <= 10,
            ;
            assert(1 <= x * y <= 100) by (nonlinear_arith)
                requires
                    1 <= x <= 10,
                    1 <= y <= 10,
            ;
        }
        Some(
            Fraction {
                num: second * h as i128 - first * (n - h) as i128,
                den: (h * (n - h)) as u128,
            },
        )
    }

    /// How often the sample was among so many candidates for removal.
    pub fn removal_risk_count(&self, top_n: usize) -> (r: usize)
        ensures
            r == risk_count(
                self@.removal_rank_history,
                top_n,
                self@.removal_rank_history.len() as int,
            ),
    {
        let mut count: usize = 0;
        let mut i: usize = 0;
        while i < self.removal_rank_history.len()
            invariant
                i <= self.removal_rank_history@.len(),
                count <= i,
                count == risk_count(self.removal_rank_history@, top_n, i as int),
            decreases self.removal_rank_history@.len() - i,
        {
            if self.removal_rank_history[i].1 < top_n {
                count = count + 1;
            }
            i = i + 1;
        }
        count
    }

    /// Whether there is a history and its variance is at most a bound.
    pub fn is_steady(&self, max_variance: i64) -> (r: bool)
        requires
            self@.wf(),
        ensures
            r == self@.steady(max_variance),
    {
        let n: usize = self.influence_history.len();
        if n == 0 {
            return false;
        }
        let ghost view = self@;
        let all: i128 = n as i128;
        let sum: i128 = sum_influences(&self.influence_history, 0, n);
        proof {
            assert(1 <= n * n <= 400) by (nonlinear_arith)
                requires
                    1 <= n <= 20,
            ;
            assert(1 <= n * n * n <= 8000) by (nonlinear_arith)
                requires
                    1 <= n <= 20,
                    1 <= n * n <= 400,
            ;
        }
        let cube: i128 = (n * n * n) as i128;
        let scaled: i128 = max_variance as i128 * INFLUENCE_ONE as i128;
        assert(-0x4000_0000_0000_0000_0000_0000 <= scaled <= 0x4000_0000_0000_0000_0000_0000);
        assert(-0x1000_0000_0000_0000_0000_0000_0000 <= scaled * cube
            <= 0x1000_0000_0000_0000_0000_0000_0000) by (nonlinear_arith)
            requires
                -0x4000_0000_0000_0000_0000_0000 <= scaled <= 0x4000_0000_0000_0000_0000_0000,
                1 <= cube <= 8000,
        ;
        let limit: i128 = scaled * cube;
        let mut total: i128 = 0;
        let mut i: usize = 0;
        while i < n
            invariant
                i <= n == self.influence_history@.len(),
                n <= MAX_HISTORY_LEN,
                view == self@,
                all == n,
                sum == influence_sum(self.influence_history@, 0, n as int),
                -0xa_0000_0000_0000_0000 <= sum <= 0xa_0000_0000_0000_0000,
                limit <= 0x1000_0000_0000_0000_0000_0000_0000,
                limit == max_variance * INFLUENCE_ONE * (n * n * n),
                total == view.spread(i as int),
                0 <= total,
                i > 0 ==> total <= limit,
            decreases n - i,
        {
            let x: i128 = self.influence_history[i].1 as i128;
            assert(-0xa_0000_0000_0000_0000 <= all * x <= 0xa_0000_0000_0000_0000)
                by (nonlinear_arith)
                requires
                    1 <= all <= 20,
                    -0x8000_0000_0000_0000 <= x <= 0x7fff_ffff_ffff_ffff,
            ;
            let d: i128 = all * x - sum;
            let ghost dd = d * d;
            assert(view.spread(i as int + 1) == total + dd);
            if d <= -0x1000_0000_0000_0000 || d >= 0x1000_0000_0000_0000 {
                proof {
                    assert(dd >= 0x0100_0000_0000_0000_0000_0000_0000_0000) by (nonlinear_arith)
                        requires
                            dd == d * d,
                            d <= -0x1000_0000_0000_0000 || d >= 0x1000_0000_0000_0000,
                    ;
                    lemma_spread_grows(view, i as int + 1, n as int);
                }
                return false;
            }
            assert(0 <= d * d <= 0x0100_0000_0000_0000_0000_0000_0000_0000) by (nonlinear_arith)
                requires
                    -0x1000_0000_0000_0000 < d < 0x1000_0000_0000_0000,
            ;
            total = total + d * d;
            if total > limit {
                proof {
                    lemma_spread_grows(view, i as int + 1, n as int);
                }
                return false;
            }
            i = i + 1;
        }
        true
    }
}

/// Squared deviations only add up.
proof fn lemma_spread_grows(view: TrackedView, a: int, b: int)
    requires
        0 <= a <= b,
    ensures
        0 <= view.spread(a) <= view.spread(b),
    decreases b,
{
    if b > 0 {
        let all = view.influence_history.len() as int;
        let d = all * view.influence_history[b - 1].1 - influence_sum(
            view.influence_history,
            0,
            all,
        );
        assert(d * d >= 0) by (nonlinear_arith);
        if a < b {
            lemma_spread_grows(view, a, b - 1);
        } else {
            lemma_spread_grows(view, a - 1, b - 1);
        }
    }
}

/// Histories keep within their bound.
pub proof fn law_histories_are_bounded(view: TrackedView, position: u64, influence: i64, rank: usize)
    requires
        view.wf(),
    ensures
        view.with_influence(position, influence).wf(),
        view.with_rank(position, rank).wf(),
{
}

} // verus!
