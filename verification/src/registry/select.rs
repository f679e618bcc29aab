//! Choosing samples by what is known of them.

use super::entry::{risk_count, TrackedSample, TrackedView, INFLUENCE_ONE};
use super::{listed_ids, BudgetConfig, InfluenceRegistry, RegistryView};
use crate::fraction::Fraction;
use crate::order::{lemma_reordered, ordered, sort_keyed, sorted, Key};
use crate::wide::{has_room, lemma_long, long, Long};
use vstd::prelude::*;
use vstd::wrapping::u64_specs;

verus! {

/// A multiple of every denominator that the trend of a history can have.
pub const TREND_PARTS: i128 = 6350400;

/// A key of 256 bits and the sample that it belongs to.
pub type Ranked = (Long, u64);

/// What the eviction score of a sample goes by, besides the sample itself.
#[derive(Clone, Copy, Debug)]
pub struct Scales {
    pub config: BudgetConfig,
    /// The smaller class.
    pub minority: bool,
    /// The age of the oldest sample, or one.
    pub max_age: u64,
    /// The smallest and the largest influence, if any is known.
    pub span: Option<(i64, i64)>,
    /// The number of samples.
    pub total: usize,
    /// The number of negative samples.
    pub minus: usize,
    /// The number of positive samples.
    pub plus: usize,
}

/// A number that looks random, from an identifier and a place in the stream.
pub open spec fn scrambled(id: u64, place: u64) -> u64 {
    let a = u64_specs::wrapping_add(
        u64_specs::wrapping_mul(id, 0x9E3779B97F4A7C15),
        u64_specs::wrapping_mul(place, 0xD1B54A32D192ED03),
    );
    let b = u64_specs::wrapping_mul(a ^ (a >> 30), 0xBF58476D1CE4E5B9);
    let c = u64_specs::wrapping_mul(b ^ (b >> 27), 0x94D049BB133111EB);
    c ^ (c >> 31)
}

/// Makes a number that looks random.
fn scramble(id: u64, place: u64) -> (r: u64)
    ensures
        r == scrambled(id, place),
{
    let a: u64 = id.wrapping_mul(0x9E3779B97F4A7C15).wrapping_add(
        place.wrapping_mul(0xD1B54A32D192ED03),
    );
    let b: u64 = (a ^ (a >> 30)).wrapping_mul(0xBF58476D1CE4E5B9);
    let c: u64 = (b ^ (b >> 27)).wrapping_mul(0x94D049BB133111EB);
    c ^ (c >> 31)
}

/// How many places in the stream a sample has been kept for.
pub open spec fn age_of(place: u64, s: TrackedView) -> u64 {
    if place >= s.position {
        (place - s.position) as u64
    } else {
        0
    }
}

impl Scales {
    /// What the age of a sample counts for: its age, or a number that looks random.
    pub open spec fn age_part(&self, place: u64, id: u64, s: TrackedView) -> int {
        if self.config.class_aware_random {
            (scrambled(id, place) >> 11) as int
        } else {
            age_of(place, s) as int
        }
    }

    /// What ages are parts of: the age of the oldest sample, or the bound of the numbers
    /// that look random.
    pub open spec fn age_whole(&self) -> int {
        if self.config.class_aware_random {
            0x20_0000_0000_0000
        } else {
            self.max_age as int
        }
    }

    /// How harmful a sample is compared with the others, in halves: from zero for the most
    /// helpful one to twice the whole for the most harmful one, and in the middle if nothing
    /// is known of it.
    pub open spec fn influence_part(&self, s: TrackedView) -> int {
        match self.span {
            Some((low, high)) => match s.cached_influence {
                Some(x) => 2 * (high - x),
                None => high - low,
            },
            None => 0,
        }
    }

    /// What the harm of samples is a part of: the distance between the smallest and the
    /// largest influence.
    pub open spec fn influence_whole(&self) -> int {
        match self.span {
            Some((low, high)) => if high - low < 1 {
                1
            } else {
                high - low
            },
            None => 1,
        }
    }

    /// What is added for a sample that has become harmful, or more harmful: six twentieths,
    /// or three.
    pub open spec fn bonus(s: TrackedView) -> int {
        if s.degraded() {
            6
        } else if s.delta() is Some && s.delta()->0 < -100000000 {
            3
        } else {
            0
        }
    }

    /// What is added for a sample of the smaller class: minus one half.
    pub open spec fn penalty(&self, label: bool) -> int {
        if label == self.minority {
            -1
        } else {
            0
        }
    }

    /// The number of samples of a class.
    pub open spec fn class_size(&self, label: bool) -> usize {
        if label {
            self.plus
        } else {
            self.minus
        }
    }

    /// How much of its score a sample keeps, in tenths: two if its class has less than a
    /// twentieth of the samples, five if it has less than the protected share, and ten
    /// otherwise.
    pub open spec fn protection(&self, label: bool) -> int {
        if self.class_size(label) * 20 < self.total {
            2
        } else if self.class_size(label) * INFLUENCE_ONE < self.config.minority_protection_ratio
            * self.total {
            5
        } else {
            10
        }
    }

    /// How much speaks for the going of a sample: the weighted sum of the share that its
    /// age has of the whole, of the share that its harm has of the whole together with the
    /// bonus, and of the penalty; of that as much as it keeps. All scores are brought to one
    /// denominator, which is four hundred times both wholes, so that none is rounded.
    pub open spec fn score(&self, place: u64, id: u64, s: TrackedView) -> int {
        let a = self.age_whole();
        let r = self.influence_whole();
        (self.config.age_weight * (40 * self.age_part(place, id, s) * r)
            + self.config.influence_weight * ((20 * self.influence_part(s) + 2 * Self::bonus(s) * r)
            * a) + self.config.class_weight * (20 * self.penalty(s.label) * a * r))
            * self.protection(s.label)
    }

    /// Whether the scales fit a sample: its influence lies between the bounds, and it is
    /// no older than the oldest one.
    pub open spec fn fits(&self, place: u64, s: TrackedView) -> bool {
        &&& self.max_age >= 1
        &&& age_of(place, s) <= self.max_age
        &&& self.span is Some ==> (self.span->0).0 <= (self.span->0).1
        &&& s.cached_influence is Some ==> self.span is Some && (self.span->0).0
            <= s.cached_influence->0 <= (self.span->0).1
    }

    /// Computes what the age of a sample counts for, and what that is a part of.
    fn compute_age(&self, place: u64, id: u64, sample: &TrackedSample) -> (r: (u64, u64))
        requires
            self.fits(place, sample@),
        ensures
            r.0 == self.age_part(place, id, sample@),
            r.1 == self.age_whole(),
    {
        if self.config.class_aware_random {
            (scramble(id, place) >> 11, 0x20_0000_0000_0000)
        } else {
            (place.saturating_sub(sample.position), self.max_age)
        }
    }

    /// Computes how harmful a sample is compared with the others, in units that are told,
    /// and what that is a part of.
    fn compute_harm(&self, place: u64, sample: &TrackedSample) -> (r: (u64, u64, u64))
        requires
            self.fits(place, sample@),
        ensures
            r.0 * r.1 == self.influence_part(sample@),
            1 <= r.1 <= 2,
            r.2 == self.influence_whole(),
    {
        match self.span {
            Some((low, high)) => {
                let spread: i128 = high as i128 - low as i128;
                let range: u64 = if spread < 1 {
                    1
                } else {
                    spread as u64
                };
                match sample.cached_influence {
                    Some(x) => ((high as i128 - x as i128) as u64, 2, range),
                    None => (spread as u64, 1, range),
                }
            },
            None => (0, 1, 1),
        }
    }

    /// Computes how much of its score a sample keeps, in tenths.
    fn compute_protection(&self, label: bool) -> (r: i128)
        ensures
            r == self.protection(label),
            2 <= r <= 10,
    {
        let size: usize = if label {
            self.plus
        } else {
            self.minus
        };
        proof {
            lemma_share_sizes(
                size as int,
                self.config.minority_protection_ratio as int,
                self.total as int,
            );
        }
        if (size as i128) * 20 < self.total as i128 {
            2
        } else if (size as i128) * (INFLUENCE_ONE as i128)
            < (self.config.minority_protection_ratio as i128) * (self.total as i128) {
            5
        } else {
            10
        }
    }

    /// Computes what is added for a sample that has become harmful, or more harmful.
    fn compute_bonus(sample: &TrackedSample) -> (r: i128)
        ensures
            r == Self::bonus(sample@),
            0 <= r <= 6,
    {
        if sample.is_influence_degraded() {
            6
        } else {
            match sample.influence_delta() {
                Some(delta) => if delta < -100000000 {
                    3
                } else {
                    0
                },
                None => 0,
            }
        }
    }

    /// Computes how much speaks for the going of a sample.
    fn compute_score(&self, place: u64, id: u64, sample: &TrackedSample) -> (r: Long)
        requires
            self.fits(place, sample@),
        ensures
            r.value() == self.score(place, id, sample@),
            r.high > i128::MIN,
    {
        let age: (u64, u64) = self.compute_age(place, id, sample);
        let harm: (u64, u64, u64) = self.compute_harm(place, sample);
        let bonus: i128 = Self::compute_bonus(sample);
        let penalty: i128 = if sample.label == self.minority {
            -1
        } else {
            0
        };
        let keep: i128 = self.compute_protection(sample.label);
        weighed(
            (self.config.age_weight, self.config.influence_weight, self.config.class_weight),
            age,
            harm,
            bonus,
            penalty,
            keep,
        )
    }
}

/// Weighs what speaks for the going of a sample: its age and what that is a part of, its
/// harm, the units of that and what it is a part of, the bonus, the penalty, and how much it
/// keeps.
#[verifier::rlimit(30)]
fn weighed(
    weights: (i64, i64, i64),
    age: (u64, u64),
    harm: (u64, u64, u64),
    bonus: i128,
    penalty: i128,
    keep: i128,
) -> (r: Long)
    requires
        1 <= harm.1 <= 2,
        0 <= bonus <= 6,
        -1 <= penalty <= 0,
        2 <= keep <= 10,
    ensures
        r.value() == (weights.0 * (40 * age.0 * harm.2) + weights.1 * ((20 * (harm.0 * harm.1) + 2
            * bonus * harm.2) * age.1) + weights.2 * (20 * penalty * age.1 * harm.2)) * keep,
        r.high > i128::MIN,
{
    let unit: i128 = 20 * harm.1 as i128;
    proof {
        lemma_coefficient(weights.0 as int, 40, keep as int);
        lemma_coefficient(weights.1 as int, unit as int, keep as int);
        lemma_coefficient(weights.1 as int, 2 * bonus, keep as int);
        lemma_coefficient(weights.2 as int, 20 * penalty, keep as int);
        lemma_score_sum(
            weights.0 as int,
            weights.1 as int,
            weights.2 as int,
            age.0 as int,
            age.1 as int,
            harm.0 as int,
            harm.1 as int,
            harm.2 as int,
            bonus as int,
            penalty as int,
            keep as int,
        );
    }
    let first: Long = Long::product(weights.0 as i128 * 40 * keep, age.0, harm.2);
    let second: Long = Long::product(weights.1 as i128 * unit * keep, harm.0, age.1);
    let third: Long = Long::product(weights.1 as i128 * (2 * bonus) * keep, harm.2, age.1);
    let fourth: Long = Long::product(weights.2 as i128 * (20 * penalty) * keep, age.1, harm.2);
    let half: Long = first.plus(&second);
    let rest: Long = third.plus(&fourth);
    half.plus(&rest)
}

/// A weight times two small numbers.
proof fn lemma_coefficient(weight: int, factor: int, keep: int)
    requires
        -0x8000_0000_0000_0000 <= weight <= 0x7fff_ffff_ffff_ffff,
        -40 <= factor <= 40,
        2 <= keep <= 10,
    ensures
        -0x8000_0000_0000_0000 * 40 <= weight * factor <= 0x8000_0000_0000_0000 * 40,
        -0x1000_0000_0000_0000_0000 <= weight * factor * keep <= 0x1000_0000_0000_0000_0000,
{
    assert(-0x8000_0000_0000_0000 * 40 <= weight * factor <= 0x8000_0000_0000_0000 * 40)
        by (nonlinear_arith)
        requires
            -0x8000_0000_0000_0000 <= weight <= 0x7fff_ffff_ffff_ffff,
            -40 <= factor <= 40,
    ;
    let x = weight * factor;
    assert(-0x8000_0000_0000_0000 * 400 <= x * keep <= 0x8000_0000_0000_0000 * 400)
        by (nonlinear_arith)
        requires
            -0x8000_0000_0000_0000 * 40 <= x <= 0x8000_0000_0000_0000 * 40,
            2 <= keep <= 10,
    ;
}

/// A score is the sum of four products.
proof fn lemma_score_sum(
    aw: int,
    iw: int,
    cw: int,
    age: int,
    a: int,
    gap: int,
    unit: int,
    w: int,
    bonus: int,
    penalty: int,
    keep: int,
)
    ensures
        (aw * (40 * age * w) + iw * ((20 * (gap * unit) + 2 * bonus * w) * a) + cw * (20 * penalty
            * a * w)) * keep == aw * 40 * keep * age * w + iw * (20 * unit) * keep * gap * a + iw * (
        2 * bonus) * keep * w * a + cw * (20 * penalty) * keep * a * w,
{
    assert(aw * (40 * age * w) * keep == aw * 40 * keep * age * w) by (nonlinear_arith);
    assert(iw * (20 * (gap * unit) * a) * keep == iw * (20 * unit) * keep * gap * a)
        by (nonlinear_arith);
    assert(iw * (2 * bonus * w * a) * keep == iw * (2 * bonus) * keep * w * a)
        by (nonlinear_arith);
    assert(cw * (20 * penalty * a * w) * keep == cw * (20 * penalty) * keep * a * w)
        by (nonlinear_arith);
    let x = 20 * (gap * unit);
    let y = 2 * bonus * w;
    assert(iw * ((x + y) * a) == iw * (x * a) + iw * (y * a)) by (nonlinear_arith);
    let p = aw * (40 * age * w);
    let q = iw * (x * a);
    let r = iw * (y * a);
    let t = cw * (20 * penalty * a * w);
    assert((p + (q + r) + t) * keep == p * keep + q * keep + r * keep + t * keep)
        by (nonlinear_arith);
}

/// The sizes of the numbers that shares of classes are compared by.
proof fn lemma_share_sizes(size: int, ratio: int, total: int)
    requires
        0 <= size <= 0xffff_ffff_ffff_ffff,
        0 <= total <= 0xffff_ffff_ffff_ffff,
        -0x8000_0000_0000_0000 <= ratio <= 0x7fff_ffff_ffff_ffff,
    ensures
        0 <= size * INFLUENCE_ONE <= 0xffff_ffff_ffff_ffff * INFLUENCE_ONE,
        -0x8000_0000_0000_0000 * 0xffff_ffff_ffff_ffff <= ratio * total <= 0x8000_0000_0000_0000
            * 0xffff_ffff_ffff_ffff,
{
    assert(-0x8000_0000_0000_0000 * 0xffff_ffff_ffff_ffff <= ratio * total <= 0x8000_0000_0000_0000
        * 0xffff_ffff_ffff_ffff) by (nonlinear_arith)
        requires
            0 <= total <= 0xffff_ffff_ffff_ffff,
            -0x8000_0000_0000_0000 <= ratio <= 0x7fff_ffff_ffff_ffff,
    ;
}

/// Which samples are chosen, and in what order.
#[derive(Clone, Copy, Debug)]
pub enum Rule {
    /// All, those that have been kept longest first.
    LongestSurviving,
    /// Those with enough recorded influences that get worse, the worst first.
    Declining { min_observations: usize },
    /// Those that have often been near their removal, the most often first.
    HighRisk { top_n: usize, min_risk_count: usize },
    /// Those with a known influence, by influence less what their age costs.
    TimeWeighted { label: Option<bool>, decay_rate: i64 },
    /// All, by age in steps of a size, the oldest first; within a step the most harmful
    /// first.
    AgeBracket { size: u64 },
    /// Those that came first.
    Oldest { label: Option<bool> },
    /// Those with a known influence, the most harmful first; if a bound is given, only
    /// those below it.
    Harmful { label: Option<bool>, below: Option<i64> },
    /// Those whose influence has fallen by more than a bound, the steepest fall first.
    Falling { min_delta: i64 },
    /// Those that helped before and do harm now.
    Degraded,
    /// Those with enough recorded influences whose average is high enough.
    CoreConcept { min_observations: usize, min_avg_influence: i64 },
    /// Those with enough recorded influences that vary little enough.
    Stable { max_variance: i64, min_observations: usize },
    /// Those of a class.
    OfClass { label: bool },
    /// All, by a number that looks random.
    Scrambled,
    /// All, by how much speaks for their going.
    Eviction { scales: Scales },
}

impl Rule {
    /// Whether a sample may be chosen.
    pub open spec fn admits(&self, s: TrackedView) -> bool {
        match *self {
            Rule::LongestSurviving => true,
            Rule::Declining { min_observations } => s.influence_history.len() >= min_observations
                && s.trend() is Some && s.trend()->0.num < 0,
            Rule::HighRisk { top_n, min_risk_count } => risk_count(
                s.removal_rank_history,
                top_n,
                s.removal_rank_history.len() as int,
            ) >= min_risk_count,
            Rule::TimeWeighted { label, .. } => s.cached_influence is Some && (label is Some
                ==> label->0 == s.label),
            Rule::AgeBracket { .. } => true,
            Rule::Oldest { label } => label is Some ==> label->0 == s.label,
            Rule::Harmful { label, below } => s.cached_influence is Some && (label is Some
                ==> label->0 == s.label) && (below is Some ==> s.cached_influence->0 < below->0),
            Rule::Falling { min_delta } => s.delta() is Some && s.delta()->0 < min_delta,
            Rule::Degraded => s.degraded(),
            Rule::CoreConcept { min_observations, min_avg_influence } => s.influence_history.len()
                >= min_observations && s.average() is Some && min_avg_influence
                * s.average()->0.den <= s.average()->0.num,
            Rule::Stable { max_variance, min_observations } => s.influence_history.len()
                >= min_observations && s.steady(max_variance),
            Rule::OfClass { label } => s.label == label,
            Rule::Scrambled => true,
            Rule::Eviction { .. } => true,
        }
    }

    /// The key by which a sample stands in line, the lowest first.
    pub open spec fn key(&self, place: u64, id: u64, s: TrackedView) -> int {
        match *self {
            Rule::LongestSurviving => -age_of(place, s),
            Rule::Declining { .. } => s.trend()->0.num * (TREND_PARTS as int / s.trend()->0.den as int),
            Rule::HighRisk { top_n, .. } => -risk_count(
                s.removal_rank_history,
                top_n,
                s.removal_rank_history.len() as int,
            ),
            Rule::TimeWeighted { decay_rate, .. } => s.cached_influence->0 - decay_rate * age_of(
                place,
                s,
            ),
            Rule::AgeBracket { size } => (match s.cached_influence {
                Some(x) => x as int,
                None => 0,
            }) - (age_of(place, s) as int / (if size < 1 {
                1
            } else {
                size as int
            })) * 0x1_0000_0000_0000_0000,
            Rule::Oldest { .. } => s.position as int,
            Rule::Harmful { .. } => s.cached_influence->0 as int,
            Rule::Falling { .. } => s.delta()->0,
            Rule::Degraded => 0,
            Rule::CoreConcept { .. } => 0,
            Rule::Stable { .. } => 0,
            Rule::OfClass { .. } => 0,
            Rule::Scrambled => scrambled(id, place) as int,
            Rule::Eviction { scales } => -scales.score(place, id, s),
        }
    }

    /// Whether a rule can be applied to a sample.
    pub open spec fn fits(&self, place: u64, s: TrackedView) -> bool {
        &&& s.wf()
        &&& place <= i64::MAX
        &&& match *self {
            Rule::Eviction { scales } => scales.fits(place, s),
            _ => true,
        }
    }

    /// Tells whether a sample may be chosen.
    fn check(&self, sample: &TrackedSample) -> (r: bool)
        requires
            sample@.wf(),
        ensures
            r == self.admits(sample@),
    {
        match *self {
            Rule::LongestSurviving => true,
            Rule::Declining { min_observations } => {
                if sample.influence_history.len() >= min_observations {
                    match sample.influence_trend() {
                        Some(trend) => trend.num < 0,
                        None => false,
                    }
                } else {
                    false
                }
            },
            Rule::HighRisk { top_n, min_risk_count } => sample.removal_risk_count(top_n)
                >= min_risk_count,
            Rule::TimeWeighted { label, .. } => sample.cached_influence.is_some() && agrees(
                label,
                sample.label,
            ),
            Rule::AgeBracket { .. } => true,
            Rule::Oldest { label } => agrees(label, sample.label),
            Rule::Harmful { label, below } => match sample.cached_influence {
                Some(x) => agrees(label, sample.label) && match below {
                    Some(bound) => x < bound,
                    None => true,
                },
                None => false,
            },
            Rule::Falling { min_delta } => match sample.influence_delta() {
                Some(delta) => delta < min_delta as i128,
                None => false,
            },
            Rule::Degraded => sample.is_influence_degraded(),
            Rule::CoreConcept { min_observations, min_avg_influence } => {
                if sample.influence_history.len() >= min_observations {
                    match sample.average_influence() {
                        Some(average) => {
                            let n: i128 = average.den as i128;
                            assert(1 <= n <= 20);
                            assert(-0x8000_0000_0000_0000 * 20 <= min_avg_influence * n
                                <= 0x8000_0000_0000_0000 * 20) by (nonlinear_arith)
                                requires
                                    1 <= n <= 20,
                                    -0x8000_0000_0000_0000 <= min_avg_influence
                                        <= 0x7fff_ffff_ffff_ffff,
                            ;
                            min_avg_influence as i128 * n <= average.num
                        },
                        None => false,
                    }
                } else {
                    false
                }
            },
            Rule::Stable { max_variance, min_observations } => sample.influence_history.len()
                >= min_observations && sample.is_steady(max_variance),
            Rule::OfClass { label } => sample.label == label,
            Rule::Scrambled => true,
            Rule::Eviction { .. } => true,
        }
    }

    /// Computes the key of a sample that may be chosen.
    fn compute_key(&self, place: u64, id: u64, sample: &TrackedSample) -> (r: Long)
        requires
            self.fits(place, sample@),
            self.admits(sample@),
        ensures
            r.value() == self.key(place, id, sample@),
    {
        let age: u64 = place.saturating_sub(sample.position);
        let key: i128 = match *self {
            Rule::LongestSurviving => -(age as i128),
            Rule::Declining { .. } => match sample.influence_trend() {
                Some(trend) => {
                    let parts: i128 = TREND_PARTS / (trend.den as i128);
                    proof {
                        let den = trend.den as int;
                        vstd::arithmetic::div_mod::lemma_div_is_ordered_by_denominator(
                            TREND_PARTS as int,
                            1,
                            den,
                        );
                    }
                    assert(-0x100_0000_0000_0000_0000 * TREND_PARTS <= trend.num * parts
                        <= 0x100_0000_0000_0000_0000 * TREND_PARTS) by (nonlinear_arith)
                        requires
                            -0x100_0000_0000_0000_0000 <= trend.num <= 0x100_0000_0000_0000_0000,
                            0 <= parts <= TREND_PARTS,
                    ;
                    trend.num * parts
                },
                None => 0,
            },
            Rule::HighRisk { top_n, .. } => {
                let count: usize = sample.removal_risk_count(top_n);
                -(count as i128)
            },
            Rule::TimeWeighted { decay_rate, .. } => match sample.cached_influence {
                Some(x) => {
                    assert(-0x8000_0000_0000_0000 * 0xffff_ffff_ffff_ffff <= decay_rate * age
                        <= 0x7fff_ffff_ffff_ffff * 0xffff_ffff_ffff_ffff) by (nonlinear_arith)
                        requires
                            0 <= age <= 0xffff_ffff_ffff_ffff,
                            -0x8000_0000_0000_0000 <= decay_rate <= 0x7fff_ffff_ffff_ffff,
                    ;
                    x as i128 - decay_rate as i128 * age as i128
                },
                None => 0,
            },
            Rule::AgeBracket { size } => {
                let step: u64 = if size < 1 {
                    1
                } else {
                    size
                };
                let bracket: u64 = age / step;
                proof {
                    vstd::arithmetic::div_mod::lemma_div_is_ordered_by_denominator(
                        age as int,
                        1,
                        step as int,
                    );
                }
                assert(bracket <= 0x7fff_ffff_ffff_ffff);
                let influence: i128 = match sample.cached_influence {
                    Some(x) => x as i128,
                    None => 0,
                };
                influence - bracket as i128 * 0x1_0000_0000_0000_0000
            },
            Rule::Oldest { .. } => sample.position as i128,
            Rule::Harmful { .. } => match sample.cached_influence {
                Some(x) => x as i128,
                None => 0,
            },
            Rule::Falling { .. } => match sample.influence_delta() {
                Some(delta) => delta,
                None => 0,
            },
            Rule::Degraded => 0,
            Rule::CoreConcept { .. } => 0,
            Rule::Stable { .. } => 0,
            Rule::OfClass { .. } => 0,
            Rule::Scrambled => scramble(id, place) as i128,
            Rule::Eviction { scales } => {
                return scales.compute_score(place, id, sample).negated();
            },
        };
        Long::of(key)
    }
}

/// A larger summand times a positive number.
proof fn lemma_larger_score(weight: int, a: int, b: int, rest: int, keep: int)
    requires
        weight >= 0,
        a >= b,
        keep >= 0,
    ensures
        (weight * a + rest) * keep >= (weight * b + rest) * keep,
{
    assert(weight * a >= weight * b) by (nonlinear_arith)
        requires
            weight >= 0,
            a >= b,
    ;
    assert((weight * a + rest) * keep >= (weight * b + rest) * keep) by (nonlinear_arith)
        requires
            weight * a >= weight * b,
            keep >= 0,
    ;
}

/// Of two samples that differ in age alone, as much speaks for the going of the older one
/// as for that of the younger one, or more.
pub proof fn law_older_goes_first(
    scales: Scales,
    place: u64,
    id: u64,
    other: u64,
    older: TrackedView,
    younger: TrackedView,
)
    requires
        !scales.config.class_aware_random,
        scales.config.age_weight >= 0,
        scales.max_age >= 1,
        older.position <= younger.position,
        older == (TrackedView { position: older.position, ..younger }),
    ensures
        scales.score(place, id, older) >= scales.score(place, other, younger),
{
    let w = scales.influence_whole();
    let x = 40 * scales.age_part(place, id, older) * w;
    let y = 40 * scales.age_part(place, other, younger) * w;
    assert(x >= y) by (nonlinear_arith)
        requires
            x == 40 * scales.age_part(place, id, older) * w,
            y == 40 * scales.age_part(place, other, younger) * w,
            scales.age_part(place, id, older) >= scales.age_part(place, other, younger),
            w >= 1,
    ;
    lemma_larger_score(
        scales.config.age_weight as int,
        x,
        y,
        scales.config.influence_weight * ((20 * scales.influence_part(younger) + 2 * Scales::bonus(
            younger,
        ) * w) * scales.age_whole()) + scales.config.class_weight * (20 * scales.penalty(
            younger.label,
        ) * scales.age_whole() * w),
        scales.protection(younger.label),
    );
}

/// Of two samples that differ in their influences alone, as much speaks for the going of
/// the more harmful one as for that of the other one, or more.
pub proof fn law_harmful_goes_first(
    scales: Scales,
    place: u64,
    id: u64,
    harmful: TrackedView,
    helpful: TrackedView,
)
    requires
        scales.config.influence_weight >= 0,
        scales.span is Some,
        harmful.cached_influence is Some,
        helpful.cached_influence is Some,
        harmful.cached_influence->0 <= helpful.cached_influence->0,
        harmful == (TrackedView { cached_influence: harmful.cached_influence, ..helpful }),
    ensures
        scales.score(place, id, harmful) >= scales.score(place, id, helpful),
{
    let a = scales.age_whole();
    let w = scales.influence_whole();
    let x = (20 * scales.influence_part(harmful) + 2 * Scales::bonus(harmful) * w) * a;
    let y = (20 * scales.influence_part(helpful) + 2 * Scales::bonus(helpful) * w) * a;
    let p = Scales::bonus(harmful);
    let q = Scales::bonus(helpful);
    assert(2 * p * w >= 2 * q * w) by (nonlinear_arith)
        requires
            p >= q,
            w >= 1,
    ;
    let f = 20 * scales.influence_part(harmful) + 2 * p * w;
    let g = 20 * scales.influence_part(helpful) + 2 * q * w;
    assert(f * a >= g * a) by (nonlinear_arith)
        requires
            f >= g,
            a >= 0,
    ;
    let rest = scales.config.age_weight * (40 * scales.age_part(place, id, helpful) * w)
        + scales.config.class_weight * (20 * scales.penalty(helpful.label) * a * w);
    lemma_larger_score(
        scales.config.influence_weight as int,
        x,
        y,
        rest,
        scales.protection(helpful.label),
    );
}

/// Samples whose influences get worse stand in line exactly by how much they do.
pub proof fn law_declining_is_exact(
    rule: Rule,
    place: u64,
    id: u64,
    other: u64,
    a: TrackedView,
    b: TrackedView,
)
    requires
        rule is Declining,
        a.wf(),
        b.wf(),
        a.trend() is Some,
        b.trend() is Some,
    ensures
        rule.key(place, id, a) < rule.key(place, other, b) <==> a.trend()->0.below(&b.trend()->0),
{
    let f = a.trend()->0;
    let g = b.trend()->0;
    lemma_trend_parts(a);
    lemma_trend_parts(b);
    let x = TREND_PARTS as int / f.den as int;
    let y = TREND_PARTS as int / g.den as int;
    let d = f.den as int;
    let e = g.den as int;
    let m = f.num as int;
    let n = g.num as int;
    assert(m * x < n * y <==> m * e < n * d) by (nonlinear_arith)
        requires
            x * d == TREND_PARTS,
            y * e == TREND_PARTS,
            d >= 1,
            e >= 1,
            x >= 1,
            y >= 1,
    {
        assert((m * x) * (d * e) == (m * e) * (x * d)) by (nonlinear_arith);
        assert((n * y) * (d * e) == (n * d) * (y * e)) by (nonlinear_arith);
        assert(d * e >= 1) by (nonlinear_arith)
            requires
                d >= 1,
                e >= 1,
        ;
        let k = d * e;
        let t = TREND_PARTS as int;
        let p = m * x;
        let q = n * y;
        let u = m * e;
        let v = n * d;
        assert(p * k == u * t && q * k == v * t);
        assert(p < q <==> u < v) by (nonlinear_arith)
            requires
                p * k == u * t,
                q * k == v * t,
                k >= 1,
                t >= 1,
        ;
    }
}

/// The denominator of a trend divides the parts that trends are counted in.
proof fn lemma_trend_parts(s: TrackedView)
    requires
        s.wf(),
        s.trend() is Some,
    ensures
        s.trend()->0.den >= 1,
        (TREND_PARTS as int / s.trend()->0.den as int) >= 1,
        (TREND_PARTS as int / s.trend()->0.den as int) * s.trend()->0.den == TREND_PARTS,
{
    let n = s.influence_history.len() as int;
    let h = n / 2;
    let d = h * (n - h);
    assert(d == 1 || d == 2 || d == 4 || d == 6 || d == 9 || d == 12 || d == 16 || d == 20 || d
        == 25 || d == 30 || d == 36 || d == 42 || d == 49 || d == 56 || d == 64 || d == 72 || d
        == 81 || d == 90 || d == 100) by {
        assert(h == 1 || h == 2 || h == 3 || h == 4 || h == 5 || h == 6 || h == 7 || h == 8 || h
            == 9 || h == 10);
        assert(n - h == h || n - h == h + 1);
    }
    let q: int = TREND_PARTS as int;
    assert(q / d >= 1 && (q / d) * d == q) by (nonlinear_arith)
        requires
            q == 6350400,
            d == 1 || d == 2 || d == 4 || d == 6 || d == 9 || d == 12 || d == 16 || d == 20 || d
                == 25 || d == 30 || d == 36 || d == 42 || d == 49 || d == 56 || d == 64 || d == 72
                || d == 81 || d == 90 || d == 100,
    ;
}

/// Whether a class is the one asked for, if one is.
fn agrees(wanted: Option<bool>, label: bool) -> (r: bool)
    ensures
        r == (wanted is Some ==> wanted->0 == label),
{
    match wanted {
        Some(w) => w == label,
        None => true,
    }
}

/// The samples that a rule admits.
pub open spec fn admitted(v: RegistryView, rule: Rule) -> Set<u64> {
    Set::new(|id: u64| v.kept.contains_key(id) && rule.admits(v.kept[id]))
}

/// Whether a sample stands before another under a rule: by key, and by identifier where
/// the keys are equal.
pub open spec fn stands_before(v: RegistryView, rule: Rule, a: u64, b: u64) -> bool {
    let x = rule.key(v.place, a, v.kept[a]);
    let y = rule.key(v.place, b, v.kept[b]);
    x < y || (x == y && a < b)
}

/// Whether a list holds the first of the samples that a rule admits, in order: as many as
/// asked for, or all of them.
pub open spec fn chosen_by(v: RegistryView, rule: Rule, n: int, list: Seq<u64>) -> bool {
    let all = admitted(v, rule);
    &&& list.len() == (if n <= all.len() {
        n
    } else {
        all.len() as int
    })
    &&& forall|i: int| 0 <= i < list.len() ==> all.contains(#[trigger] list[i])
    &&& forall|i: int, j: int|
        0 <= i < j < list.len() ==> stands_before(v, rule, #[trigger] list[i], #[trigger] list[j])
    &&& forall|i: int, id: u64|
        0 <= i < list.len() && #[trigger] all.contains(id) && !list.contains(id) ==> stands_before(
            v,
            rule,
            #[trigger] list[i],
            id,
        )
}

/// What a rule chooses is determined: two lists of the first samples under the same rule
/// are the same list, whatever order the samples were looked at in, and hold no sample
/// twice.
pub proof fn law_choice_is_determined(
    v: RegistryView,
    rule: Rule,
    n: int,
    a: Seq<u64>,
    b: Seq<u64>,
)
    requires
        chosen_by(v, rule, n, a),
        chosen_by(v, rule, n, b),
    ensures
        a == b,
        a.no_duplicates(),
{
    assert forall|i: int, j: int| 0 <= i < a.len() && 0 <= j < a.len() && i != j implies a[i]
        != a[j] by {
        if i < j {
            assert(stands_before(v, rule, a[i], a[j]));
        } else {
            assert(stands_before(v, rule, a[j], a[i]));
        }
    }
    lemma_same_start(v, rule, n, a, b, a.len() as int);
    assert(a.take(a.len() as int) =~= a);
    assert(b.take(a.len() as int) =~= b);
}

/// Two lists of the first samples under the same rule start with the same samples.
proof fn lemma_same_start(v: RegistryView, rule: Rule, n: int, a: Seq<u64>, b: Seq<u64>, k: int)
    requires
        chosen_by(v, rule, n, a),
        chosen_by(v, rule, n, b),
        0 <= k <= a.len(),
    ensures
        a.take(k) == b.take(k),
    decreases k,
{
    if k > 0 {
        lemma_same_start(v, rule, n, a, b, k - 1);
        assert forall|i: int| 0 <= i < k - 1 implies a[i] == b[i] by {
            assert(a.take(k - 1)[i] == b.take(k - 1)[i]);
        }
        if a[k - 1] != b[k - 1] {
            lemma_earlier(v, rule, n, a, b, k - 1);
            lemma_earlier(v, rule, n, b, a, k - 1);
        }
        assert(a.take(k) =~= b.take(k));
    }
}

/// Where two lists of the first samples part, each has what stands before the other's.
proof fn lemma_earlier(v: RegistryView, rule: Rule, n: int, a: Seq<u64>, b: Seq<u64>, k: int)
    requires
        chosen_by(v, rule, n, a),
        chosen_by(v, rule, n, b),
        0 <= k < a.len(),
        forall|i: int| 0 <= i < k ==> a[i] == b[i],
        a[k] != b[k],
    ensures
        stands_before(v, rule, b[k], a[k]),
{
    assert(admitted(v, rule).contains(a[k]));
    if b.contains(a[k]) {
        let j = b.index_of(a[k]);
        if j < k {
            assert(stands_before(v, rule, a[j], a[k]));
        }
        assert(stands_before(v, rule, b[k], b[j]));
    }
}

/// Samples go by their scores: of those that are to go none has a lower score than one
/// that comes later or stays, and equal scores go by identifier.
pub proof fn law_highest_scores_go(
    v: RegistryView,
    scales: Scales,
    n: int,
    list: Seq<u64>,
    i: int,
    other: u64,
)
    requires
        chosen_by(v, Rule::Eviction { scales }, n, list),
        0 <= i < list.len(),
        v.kept.contains_key(other),
        !list.take(i + 1).contains(other),
    ensures
        ({
            let x = scales.score(v.place, list[i], v.kept[list[i]]);
            let y = scales.score(v.place, other, v.kept[other]);
            x > y || (x == y && list[i] < other)
        }),
{
    let rule = Rule::Eviction { scales };
    assert(admitted(v, rule).contains(other));
    if list.contains(other) {
        let j = list.index_of(other);
        if j <= i {
            assert(list.take(i + 1)[j] == other);
        }
        assert(stands_before(v, rule, list[i], list[j]));
    } else {
        assert(stands_before(v, rule, list[i], other));
    }
}

/// Whether a list holds the key of every sample that a rule admits, in order.
pub open spec fn lined_up(v: RegistryView, rule: Rule, list: Seq<Ranked>) -> bool {
    &&& sorted(list)
    &&& list.no_duplicates()
    &&& forall|x: Ranked| #[trigger]
        list.contains(x) <==> admitted(v, rule).contains(x.1) && x.0.value() == rule.key(
            v.place,
            x.1,
            v.kept[x.1],
        )
}

/// The samples of a list of keys.
pub open spec fn keyed_ids(list: Seq<Ranked>) -> Seq<u64> {
    Seq::new(list.len(), |i: int| list[i].1)
}

/// A line holds each admitted sample once.
proof fn lemma_line(v: RegistryView, rule: Rule, list: Seq<Ranked>)
    requires
        lined_up(v, rule, list),
        forall|id: u64| #[trigger]
            admitted(v, rule).contains(id) ==> has_room(
                rule.key(v.place, id, v.kept[id]),
            ),
    ensures
        keyed_ids(list).no_duplicates(),
        keyed_ids(list).to_set() == admitted(v, rule),
        admitted(v, rule).len() == list.len(),
        forall|i: int, j: int|
            0 <= i < j < list.len() ==> stands_before(
                v,
                rule,
                (#[trigger] list[i]).1,
                (#[trigger] list[j]).1,
            ),
{
    let l = keyed_ids(list);
    assert forall|i: int, j: int| 0 <= i < j < list.len() implies stands_before(
        v,
        rule,
        (#[trigger] list[i]).1,
        (#[trigger] list[j]).1,
    ) by {
        assert(list.contains(list[i]));
        assert(list.contains(list[j]));
        assert(ordered(list[i], list[j]));
        assert(list[i] != list[j]);
    }
    assert forall|i: int, j: int| 0 <= i < j < l.len() implies l[i] != l[j] by {
        assert(stands_before(v, rule, list[i].1, list[j].1));
    }
    assert forall|id: u64| l.to_set().contains(id) == admitted(v, rule).contains(id) by {
        if admitted(v, rule).contains(id) {
            let x: Ranked = (long(rule.key(v.place, id, v.kept[id])), id);
            lemma_long(rule.key(v.place, id, v.kept[id]));
            assert(list.contains(x));
            let i = list.index_of(x);
            assert(l[i] == id);
        }
        if l.to_set().contains(id) {
            let i = choose|i: int| 0 <= i < l.len() && l[i] == id;
            assert(list.contains(list[i]));
        }
    }
    assert(l.to_set() =~= admitted(v, rule));
    l.unique_seq_to_set();
}

/// The first of a line are the chosen ones.
proof fn lemma_first_chosen(v: RegistryView, rule: Rule, list: Seq<Ranked>, n: int)
    requires
        lined_up(v, rule, list),
        forall|id: u64| #[trigger]
            admitted(v, rule).contains(id) ==> has_room(
                rule.key(v.place, id, v.kept[id]),
            ),
        0 <= n,
    ensures
        chosen_by(
            v,
            rule,
            n,
            keyed_ids(list).take(if n <= list.len() {
                n
            } else {
                list.len() as int
            }),
        ),
{
    lemma_line(v, rule, list);
    let l = keyed_ids(list);
    let k = if n <= list.len() {
        n
    } else {
        list.len() as int
    };
    let r = l.take(k);
    assert forall|i: int| 0 <= i < r.len() implies admitted(v, rule).contains(
        #[trigger] r[i],
    ) by {
        assert(l.to_set().contains(l[i]));
    }
    assert forall|i: int, j: int| 0 <= i < j < r.len() implies stands_before(
        v,
        rule,
        #[trigger] r[i],
        #[trigger] r[j],
    ) by {
        assert(stands_before(v, rule, list[i].1, list[j].1));
    }
    assert forall|i: int, id: u64|
        0 <= i < r.len() && #[trigger] admitted(v, rule).contains(id) && !r.contains(
            id,
        ) implies stands_before(v, rule, #[trigger] r[i], id) by {
        assert(l.to_set().contains(id));
        let j = choose|j: int| 0 <= j < l.len() && l[j] == id;
        if j < k {
            assert(r[j] == id);
        }
        assert(stands_before(v, rule, list[i].1, list[j].1));
    }
}

/// The first entries of a list, as samples.
fn first_ids(list: &Vec<Ranked>, n: usize) -> (r: Vec<u64>)
    ensures
        r@ == keyed_ids(list@).take(if n <= list@.len() {
            n as int
        } else {
            list@.len() as int
        }),
{
    let count: usize = if n <= list.len() {
        n
    } else {
        list.len()
    };
    let mut ids: Vec<u64> = Vec::new();
    while ids.len() < count
        invariant
            ids@.len() <= count <= list@.len(),
            ids@ == keyed_ids(list@).take(ids@.len() as int),
        decreases count - ids@.len(),
    {
        ids.push(list[ids.len()].1);
        assert(ids@ =~= keyed_ids(list@).take(ids@.len() as int));
    }
    ids
}

/// Samples of a list at even distances, as many as asked for, or all of them.
pub open spec fn evenly(order: Seq<(u64, u64)>, n: usize) -> Seq<u64> {
    if n >= order.len() {
        listed_ids(order)
    } else if n == 0 {
        Seq::empty()
    } else {
        let step = order.len() as int / n as int;
        Seq::new(n as nat, |i: int| order[i * step].1)
    }
}

impl InfluenceRegistry {
    /// Lines up the samples that a rule admits.
    pub(super) fn line_up(&self, rule: &Rule) -> (r: Vec<Ranked>)
        requires
            self.wf(),
            forall|id: u64| #[trigger]
                self@.kept.contains_key(id) ==> rule.fits(self@.place, self@.kept[id]),
        ensures
            lined_up(self@, *rule, r@),
            forall|id: u64| #[trigger]
                admitted(self@, *rule).contains(id) ==> has_room(
                    rule.key(self@.place, id, self@.kept[id]),
                ),
    {
        let ghost v = self@;
        let count: usize = self.samples.len();
        let ghost order = self.samples.order();
        let mut list: Vec<Ranked> = Vec::new();
        let mut i: usize = 0;
        while i < count
            invariant
                i <= count == order.len(),
                order == self.samples.order(),
                order.no_duplicates(),
                self.wf(),
                v == self@,
                forall|id: u64| #[trigger]
                    v.kept.contains_key(id) ==> rule.fits(v.place, v.kept[id]),
                list@.no_duplicates(),
                forall|x: Ranked| #[trigger]
                    list@.contains(x) <==> order.take(i as int).contains(x.1) && admitted(
                        v,
                        *rule,
                    ).contains(x.1) && x.0.value() == rule.key(v.place, x.1, v.kept[x.1]),
                forall|j: int|
                    0 <= j < i && admitted(v, *rule).contains(#[trigger] order[j])
                        ==> has_room(
                        rule.key(v.place, order[j], v.kept[order[j]]),
                    ),
            decreases count - i,
        {
            let id: u64 = self.samples.key_at(i);
            let sample = self.samples.value_at(i);
            let ghost before = list@;
            let ghost a = order.take(i as int);
            let ghost b = order.take(i as int + 1);
            proof {
                assert(v.kept.contains_key(id) && v.kept[id] == sample@);
                assert(b =~= a.push(id));
                assert(!a.contains(id)) by {
                    if a.contains(id) {
                        let j = a.index_of(id);
                        assert(order[j] == order[i as int]);
                    }
                }
                assert forall|x: u64| b.contains(x) == (a.contains(x) || x == id) by {
                    if a.contains(x) {
                        assert(b[a.index_of(x)] == x);
                    }
                    assert(b[i as int] == id);
                }
            }
            if rule.check(sample) {
                let key: Long = rule.compute_key(self.current_position, id, sample);
                list.push((key, id));
                proof {
                    assert forall|x: Ranked| list@.contains(x) == (before.contains(x) || x == (
                        key,
                        id,
                    )) by {
                        if before.contains(x) {
                            assert(list@[before.index_of(x)] == x);
                        }
                        assert(list@[before.len() as int] == (key, id));
                    }
                    assert(!before.contains((key, id)));
                }
            }
            assert forall|x: Ranked| #[trigger] list@.contains(x) <==> b.contains(x.1) && admitted(
                v,
                *rule,
            ).contains(x.1) && x.0.value() == rule.key(v.place, x.1, v.kept[x.1]) by {
                assert(before.contains(x) <==> a.contains(x.1) && admitted(v, *rule).contains(x.1)
                    && x.0.value() == rule.key(v.place, x.1, v.kept[x.1]));
                assert(b.contains(x.1) == (a.contains(x.1) || x.1 == id));
                if x.1 == id && admitted(v, *rule).contains(id) && x.0.value() == rule.key(
                    v.place,
                    id,
                    v.kept[id],
                ) {
                    let last = list@[list@.len() - 1];
                    Long::lemma_unique(x.0, last.0);
                }
            }
            i = i + 1;
        }
        let ghost gathered = list@;
        let list = sort_keyed(list);
        proof {
            assert(order.take(i as int) =~= order);
            lemma_reordered(gathered, list@);
            assert forall|id: u64| #[trigger] admitted(v, *rule).contains(id) implies has_room(
                rule.key(v.place, id, v.kept[id]),
            ) by {
                assert(self.samples@.contains_key(id));
                assert(order.to_set().contains(id));
                let j = choose|j: int| 0 <= j < order.len() && order[j] == id;
                assert(admitted(v, *rule).contains(order[j]));
            }
            assert forall|x: Ranked| #[trigger] list@.contains(x) <==> admitted(v, *rule).contains(
                x.1,
            ) && x.0.value() == rule.key(v.place, x.1, v.kept[x.1]) by {
                assert(gathered.contains(x) == list@.contains(x));
                if admitted(v, *rule).contains(x.1) {
                    assert(self.samples@.contains_key(x.1));
                    assert(order.to_set().contains(x.1));
                    assert(order.contains(x.1));
                }
            }
        }
        list
    }

    /// Chooses samples by a rule.
    pub(super) fn choose_by(&self, rule: &Rule, n: usize) -> (r: Vec<u64>)
        requires
            self.wf(),
            forall|id: u64| #[trigger]
                self@.kept.contains_key(id) ==> rule.fits(self@.place, self@.kept[id]),
        ensures
            chosen_by(self@, *rule, n as int, r@),
    {
        let list = self.line_up(rule);
        proof {
            lemma_first_chosen(self@, *rule, list@, n as int);
        }
        first_ids(&list, n)
    }

    /// The samples that have been kept longest, each with its age.
    pub fn get_longest_surviving_samples(&self, n: usize) -> (r: Vec<(u64, u64)>)
        requires
            self.wf(),
        ensures
            chosen_by(
                self@,
                Rule::LongestSurviving,
                n as int,
                Seq::new(r@.len(), |i: int| r@[i].0),
            ),
            forall|i: int|
                0 <= i < r@.len() ==> (#[trigger] r@[i]).1 == age_of(
                    self@.place,
                    self@.kept[r@[i].0],
                ),
    {
        let ids = self.choose_by(&Rule::LongestSurviving, n);
        let mut list: Vec<(u64, u64)> = Vec::new();
        while list.len() < ids.len()
            invariant
                list@.len() <= ids@.len(),
                forall|i: int|
                    0 <= i < ids@.len() ==> self@.kept.contains_key(#[trigger] ids@[i]),
                forall|i: int| 0 <= i < list@.len() ==> (#[trigger] list@[i]).0 == ids@[i],
                forall|i: int|
                    0 <= i < list@.len() ==> (#[trigger] list@[i]).1 == age_of(
                        self@.place,
                        self@.kept[list@[i].0],
                    ),
            decreases ids@.len() - list@.len(),
        {
            let id: u64 = ids[list.len()];
            assert(self@.kept.contains_key(id));
            let age: u64 = match self.samples.get(id) {
                Some(sample) => self.current_position.saturating_sub(sample.position),
                None => 0,
            };
            list.push((id, age));
        }
        assert(Seq::new(list@.len(), |i: int| list@[i].0) =~= ids@);
        list
    }

    /// The samples with enough recorded influences whose average is high enough.
    pub fn get_core_concept_samples(&self, min_observations: usize, min_avg_influence: i64) -> (r:
        Vec<u64>)
        requires
            self.wf(),
        ensures
            chosen_by(
                self@,
                Rule::CoreConcept { min_observations, min_avg_influence },
                usize::MAX as int,
                r@,
            ),
    {
        self.choose_by(&Rule::CoreConcept { min_observations, min_avg_influence }, usize::MAX)
    }

    /// The samples whose influence gets worse, the worst first, each with its trend.
    pub fn get_declining_influence_samples(&self, min_observations: usize) -> (r: Vec<(
        u64,
        Fraction,
    )>)
        requires
            self.wf(),
        ensures
            chosen_by(
                self@,
                Rule::Declining { min_observations },
                usize::MAX as int,
                Seq::new(r@.len(), |i: int| r@[i].0),
            ),
            forall|i: int|
                0 <= i < r@.len() ==> Some((#[trigger] r@[i]).1) == self@.kept[r@[i].0].trend(),
    {
        let rule = Rule::Declining { min_observations };
        let ids = self.choose_by(&rule, usize::MAX);
        let mut list: Vec<(u64, Fraction)> = Vec::new();
        while list.len() < ids.len()
            invariant
                self.wf(),
                list@.len() <= ids@.len(),
                forall|i: int|
                    0 <= i < ids@.len() ==> self@.kept.contains_key(#[trigger] ids@[i])
                        && self@.kept[ids@[i]].trend() is Some,
                forall|i: int| 0 <= i < list@.len() ==> (#[trigger] list@[i]).0 == ids@[i],
                forall|i: int|
                    0 <= i < list@.len() ==> Some((#[trigger] list@[i]).1)
                        == self@.kept[list@[i].0].trend(),
            decreases ids@.len() - list@.len(),
        {
            let id: u64 = ids[list.len()];
            assert(self@.kept.contains_key(id));
            let trend: Fraction = match self.samples.get(id) {
                Some(sample) => match sample.influence_trend() {
                    Some(t) => t,
                    None => Fraction { num: 0, den: 1 },
                },
                None => Fraction { num: 0, den: 1 },
            };
            list.push((id, trend));
        }
        assert(Seq::new(list@.len(), |i: int| list@[i].0) =~= ids@);
        list
    }

    /// The samples that have often been near their removal, each with how often.
    pub fn get_high_risk_samples(&self, top_n: usize, min_risk_count: usize) -> (r: Vec<(
        u64,
        usize,
    )>)
        requires
            self.wf(),
        ensures
            chosen_by(
                self@,
                Rule::HighRisk { top_n, min_risk_count },
                usize::MAX as int,
                Seq::new(r@.len(), |i: int| r@[i].0),
            ),
            forall|i: int|
                0 <= i < r@.len() ==> (#[trigger] r@[i]).1 == risk_count(
                    self@.kept[r@[i].0].removal_rank_history,
                    top_n,
                    self@.kept[r@[i].0].removal_rank_history.len() as int,
                ),
    {
        let rule = Rule::HighRisk { top_n, min_risk_count };
        let ids = self.choose_by(&rule, usize::MAX);
        let mut list: Vec<(u64, usize)> = Vec::new();
        while list.len() < ids.len()
            invariant
                self.wf(),
                list@.len() <= ids@.len(),
                forall|i: int|
                    0 <= i < ids@.len() ==> self@.kept.contains_key(#[trigger] ids@[i]),
                forall|i: int| 0 <= i < list@.len() ==> (#[trigger] list@[i]).0 == ids@[i],
                forall|i: int|
                    0 <= i < list@.len() ==> (#[trigger] list@[i]).1 == risk_count(
                        self@.kept[list@[i].0].removal_rank_history,
                        top_n,
                        self@.kept[list@[i].0].removal_rank_history.len() as int,
                    ),
            decreases ids@.len() - list@.len(),
        {
            let id: u64 = ids[list.len()];
            assert(self@.kept.contains_key(id));
            let count: usize = match self.samples.get(id) {
                Some(sample) => sample.removal_risk_count(top_n),
                None => 0,
            };
            list.push((id, count));
        }
        assert(Seq::new(list@.len(), |i: int| list@[i].0) =~= ids@);
        list
    }

    /// The samples with enough recorded influences that vary little enough.
    pub fn get_stable_influence_samples(&self, max_variance: i64, min_observations: usize) -> (r:
        Vec<u64>)
        requires
            self.wf(),
        ensures
            chosen_by(
                self@,
                Rule::Stable { max_variance, min_observations },
                usize::MAX as int,
                r@,
            ),
    {
        self.choose_by(&Rule::Stable { max_variance, min_observations }, usize::MAX)
    }

    /// The samples with the lowest influence less what their age costs.
    pub fn get_time_weighted_harmful_samples(&self, n: usize, decay_rate: i64) -> (r: Vec<u64>)
        requires
            self.wf(),
        ensures
            chosen_by(self@, Rule::TimeWeighted { label: None, decay_rate }, n as int, r@),
    {
        self.choose_by(&Rule::TimeWeighted { label: None, decay_rate }, n)
    }

    /// The samples of a class with the lowest influence less what their age costs.
    pub fn get_time_weighted_harmful_samples_by_class(
        &self,
        label: bool,
        n: usize,
        decay_rate: i64,
    ) -> (r: Vec<u64>)
        requires
            self.wf(),
        ensures
            chosen_by(self@, Rule::TimeWeighted { label: Some(label), decay_rate }, n as int, r@),
    {
        self.choose_by(&Rule::TimeWeighted { label: Some(label), decay_rate }, n)
    }

    /// The oldest samples, by age in steps of a size and within a step by influence.
    pub fn get_age_prioritized_samples(&self, n: usize, age_bracket_size: u64) -> (r: Vec<u64>)
        requires
            self.wf(),
        ensures
            chosen_by(self@, Rule::AgeBracket { size: age_bracket_size }, n as int, r@),
    {
        self.choose_by(&Rule::AgeBracket { size: age_bracket_size }, n)
    }

    /// The samples of a class.
    pub fn get_samples_by_class(&self, label: bool) -> (r: Vec<u64>)
        requires
            self.wf(),
        ensures
            chosen_by(self@, Rule::OfClass { label }, usize::MAX as int, r@),
    {
        self.choose_by(&Rule::OfClass { label }, usize::MAX)
    }

    /// The samples of a class that came first.
    pub fn get_oldest_samples_by_class(&self, label: bool, n: usize) -> (r: Vec<u64>)
        requires
            self.wf(),
        ensures
            chosen_by(self@, Rule::Oldest { label: Some(label) }, n as int, r@),
    {
        self.choose_by(&Rule::Oldest { label: Some(label) }, n)
    }

    /// The samples with the lowest influence.
    pub fn get_most_harmful_samples(&self, n: usize) -> (r: Vec<u64>)
        requires
            self.wf(),
        ensures
            chosen_by(self@, Rule::Harmful { label: None, below: None }, n as int, r@),
    {
        self.choose_by(&Rule::Harmful { label: None, below: None }, n)
    }

    /// The samples of a class with the lowest influence.
    pub fn get_most_harmful_samples_by_class(&self, label: bool, n: usize) -> (r: Vec<u64>)
        requires
            self.wf(),
        ensures
            chosen_by(self@, Rule::Harmful { label: Some(label), below: None }, n as int, r@),
    {
        self.choose_by(&Rule::Harmful { label: Some(label), below: None }, n)
    }

    /// The samples of a class with the lowest influence, as far as it is below a bound.
    pub fn get_harmful_samples_above_threshold(
        &self,
        label: bool,
        n: usize,
        min_harm_threshold: i64,
    ) -> (r: Vec<u64>)
        requires
            self.wf(),
        ensures
            chosen_by(
                self@,
                Rule::Harmful { label: Some(label), below: Some(min_harm_threshold) },
                n as int,
                r@,
            ),
    {
        self.choose_by(
            &Rule::Harmful { label: Some(label), below: Some(min_harm_threshold) },
            n,
        )
    }

    /// The samples that helped before and do harm now.
    pub fn get_influence_degraded_samples(&self) -> (r: Vec<u64>)
        requires
            self.wf(),
        ensures
            chosen_by(self@, Rule::Degraded, usize::MAX as int, r@),
    {
        self.choose_by(&Rule::Degraded, usize::MAX)
    }

    /// The samples whose influence has fallen by more than a bound, the steepest fall
    /// first, each with the change.
    pub fn get_rapidly_declining_samples(&self, min_delta: i64) -> (r: Vec<(u64, i128)>)
        requires
            self.wf(),
        ensures
            chosen_by(
                self@,
                Rule::Falling { min_delta },
                usize::MAX as int,
                Seq::new(r@.len(), |i: int| r@[i].0),
            ),
            forall|i: int|
                0 <= i < r@.len() ==> self@.kept[(#[trigger] r@[i]).0].delta() == Some(
                    r@[i].1 as int,
                ),
    {
        let rule = Rule::Falling { min_delta };
        let list = self.line_up(&rule);
        proof {
            lemma_first_chosen(self@, rule, list@, usize::MAX as int);
        }
        let mut result: Vec<(u64, i128)> = Vec::new();
        while result.len() < list.len()
            invariant
                result@.len() <= list@.len(),
                lined_up(self@, rule, list@),
                rule == (Rule::Falling { min_delta }),
                forall|i: int| 0 <= i < result@.len() ==> (#[trigger] result@[i]).0 == list@[i].1,
                forall|i: int|
                    0 <= i < result@.len() ==> self@.kept[(#[trigger] result@[i]).0].delta()
                        == Some(result@[i].1 as int),
            decreases list@.len() - result@.len(),
        {
            let k: usize = result.len();
            assert(list@.contains(list@[k as int]));
            result.push((list[k].1, list[k].0.narrowed()));
        }
        assert(Seq::new(result@.len(), |i: int| result@[i].0) =~= keyed_ids(list@).take(
            list@.len() as int,
        ));
        result
    }

    /// The samples that came first.
    pub fn get_oldest_samples(&self, n: usize) -> (r: Vec<u64>)
        ensures
            r@ == listed_ids(self@.order).take(if n <= self@.order.len() {
                n as int
            } else {
                self@.order.len() as int
            }),
    {
        let count: usize = if n <= self.position_index.len() {
            n
        } else {
            self.position_index.len()
        };
        let mut ids: Vec<u64> = Vec::new();
        while ids.len() < count
            invariant
                ids@.len() <= count <= self@.order.len(),
                ids@ == listed_ids(self@.order).take(ids@.len() as int),
            decreases count - ids@.len(),
        {
            ids.push(self.position_index[ids.len()].1);
            assert(ids@ =~= listed_ids(self@.order).take(ids@.len() as int));
        }
        ids
    }

    /// The samples, in the order in which they came.
    pub fn ids_in_order(&self) -> (r: Vec<u64>)
        ensures
            r@ == listed_ids(self@.order),
    {
        let all = self.get_oldest_samples(self.position_index.len());
        assert(all@ =~= listed_ids(self@.order));
        all
    }

    /// The samples that came last, the last one first.
    pub fn get_newest_samples(&self, n: usize) -> (r: Vec<u64>)
        ensures
            r@ == listed_ids(self@.order).reverse().take(if n <= self@.order.len() {
                n as int
            } else {
                self@.order.len() as int
            }),
    {
        let total: usize = self.position_index.len();
        let count: usize = if n <= total {
            n
        } else {
            total
        };
        let mut ids: Vec<u64> = Vec::new();
        while ids.len() < count
            invariant
                ids@.len() <= count <= total == self@.order.len(),
                ids@ == listed_ids(self@.order).reverse().take(ids@.len() as int),
            decreases count - ids@.len(),
        {
            ids.push(self.position_index[total - 1 - ids.len()].1);
            assert(ids@ =~= listed_ids(self@.order).reverse().take(ids@.len() as int));
        }
        ids
    }

    /// Samples at even distances from the first to the last, as many as asked for, or all
    /// of them if there are not more.
    pub fn get_sample_ids_uniform(&self, n: usize) -> (r: Vec<u64>)
        ensures
            r@ == evenly(self@.order, n),
    {
        let total: usize = self.position_index.len();
        if n >= total {
            return self.ids_in_order();
        }
        if n == 0 {
            return Vec::new();
        }
        let step: usize = total / n;
        proof {
            vstd::arithmetic::div_mod::lemma_fundamental_div_mod(total as int, n as int);
        }
        assert(n * step <= total) by (nonlinear_arith)
            requires
                total == n * step + (total % n),
                total % n >= 0,
        ;
        assert(step >= 1) by (nonlinear_arith)
            requires
                total == n * step + (total % n),
                total % n < n,
                total > n,
        ;
        let mut ids: Vec<u64> = Vec::new();
        let mut i: usize = 0;
        let mut at: usize = 0;
        while i < n
            invariant
                i <= n,
                n * step <= total == self@.order.len(),
                step >= 1,
                step == self@.order.len() as int / n as int,
                at == i * step,
                ids@ == Seq::new(i as nat, |i: int| self@.order[i * step].1),
            decreases n - i,
        {
            assert((i + 1) * step == i * step + step && i * step + step <= n * step)
                by (nonlinear_arith)
                requires
                    i + 1 <= n,
                    step >= 1,
            ;
            ids.push(self.position_index[at].1);
            at = at + step;
            i = i + 1;
            assert(ids@ =~= Seq::new(i as nat, |i: int| self@.order[i * step].1));
        }
        ids
    }
}

} // verus!
