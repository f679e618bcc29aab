//! The pseudo-random draws that the trees are grown from.

use rand::{Rng, SeedableRng};
use rand_xorshift::XorShiftRng;
use vstd::prelude::*;

verus! {

/// `rand_xorshift::XorShiftRng`: the state of a generator, carried but never read.
#[verifier::external_type_specification]
#[verifier::external_body]
pub struct ExXorShiftRng(XorShiftRng);

/// The generator that a seed starts.
pub uninterp spec fn generator(seed: u64) -> XorShiftRng;

/// `rand::SeedableRng::seed_from_u64`: the generator that the seed starts, the same one
/// for the same seed. Nothing is said of the numbers that it will hand out.
#[verifier::external_body]
pub(crate) fn seeded(seed: u64) -> (r: XorShiftRng)
    ensures
        r == generator(seed),
{
    XorShiftRng::seed_from_u64(seed)
}

/// `rand::Rng::gen_range` over `usize`: a number from the half-open range. Which one
/// it is rests on the state of the generator and stays unsaid.
#[verifier::external_body]
fn draw_index(rng: &mut XorShiftRng, low: usize, high: usize) -> (r: usize)
    requires
        low < high,
    ensures
        low <= r < high,
{
    rng.gen_range(low..high)
}

/// `rand::Rng::gen_range` over `i64`: a number from the half-open range. Which one it
/// is rests on the state of the generator and stays unsaid.
#[verifier::external_body]
fn draw_value(rng: &mut XorShiftRng, low: i64, high: i64) -> (r: i64)
    requires
        low < high,
    ensures
        low <= r < high,
{
    rng.gen_range(low..high)
}

/// `rand::Rng::gen_range` over `u64`: a number from the half-open range. Which one it
/// is rests on the state of the generator and stays unsaid.
#[verifier::external_body]
fn draw_bits(rng: &mut XorShiftRng, low: u64, high: u64) -> (r: u64)
    requires
        low < high,
    ensures
        low <= r < high,
{
    rng.gen_range(low..high)
}

/// `rand::Rng::gen` over `u64`: any number at all.
#[verifier::external_body]
pub(crate) fn draw_seed(rng: &mut XorShiftRng) -> u64 {
    rng.gen()
}

/// A question that is put to a generator, for a number of a half-open range, and what it
/// answers.
pub struct Question {
    pub low: int,
    pub high: int,
    pub answer: int,
}

impl Question {
    /// Whether the answer lies in the range.
    pub open spec fn answered(&self) -> bool {
        self.low <= self.answer < self.high
    }
}

/// The questions that have been put to a generator, in order. Nothing but a draw adds to
/// them, so that what is said of them is said of the draws.
pub struct Inquiry {
    asked: Ghost<Seq<Question>>,
}

impl View for Inquiry {
    type V = Seq<Question>;

    closed spec fn view(&self) -> Seq<Question> {
        self.asked@
    }
}

impl Inquiry {
    /// No question has been put yet.
    pub fn new() -> (r: Self)
        ensures
            r@.len() == 0,
    {
        Inquiry { asked: Ghost(Seq::empty()) }
    }
}

/// The questions that have been put since.
pub open spec fn put_since(before: Seq<Question>, after: Seq<Question>) -> Seq<Question> {
    after.skip(before.len() as int)
}

/// Asks for a place from a range.
pub fn ask_index(rng: &mut XorShiftRng, log: &mut Inquiry, low: usize, high: usize) -> (r: usize)
    requires
        low < high,
    ensures
        low <= r < high,
        final(log)@ == old(log)@.push(
            Question { low: low as int, high: high as int, answer: r as int },
        ),
{
    let r: usize = draw_index(rng, low, high);
    log.asked = Ghost(
        log.asked@.push(Question { low: low as int, high: high as int, answer: r as int }),
    );
    r
}

/// Asks for a value from a range.
pub fn ask_value(rng: &mut XorShiftRng, log: &mut Inquiry, low: i64, high: i64) -> (r: i64)
    requires
        low < high,
    ensures
        low <= r < high,
        final(log)@ == old(log)@.push(
            Question { low: low as int, high: high as int, answer: r as int },
        ),
{
    let r: i64 = draw_value(rng, low, high);
    log.asked = Ghost(
        log.asked@.push(Question { low: low as int, high: high as int, answer: r as int }),
    );
    r
}

/// Asks for a set of bits from a range.
pub fn ask_bits(rng: &mut XorShiftRng, log: &mut Inquiry, low: u64, high: u64) -> (r: u64)
    requires
        low < high,
    ensures
        low <= r < high,
        final(log)@ == old(log)@.push(
            Question { low: low as int, high: high as int, answer: r as int },
        ),
{
    let r: u64 = draw_bits(rng, low, high);
    log.asked = Ghost(
        log.asked@.push(Question { low: low as int, high: high as int, answer: r as int }),
    );
    r
}

} // verus!
