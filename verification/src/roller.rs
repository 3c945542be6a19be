//! Rollers: the production roller, which throws dice with the thread-local
//! generator of the `rand` crate, and two fixed rollers for evaluations that
//! must come out the same every time.

use vstd::prelude::*;
use rand::Rng;
use crate::eval::{
    eval_postfix,
    eval_prefix,
    fixed_roller,
    lemma_total_bounds,
    theorem_fixed_roller,
    possible_total,
    possible_totals,
    reaches,
    DiceRoller,
    EvalError,
};
use crate::token::Token;

verus! {

/// `rand::rngs::ThreadRng`, the handle to a thread's generator. It is opaque
/// here: nothing is known of what it holds.
#[verifier::external_type_specification]
#[verifier::external_body]
pub struct ExThreadRng(rand::rngs::ThreadRng);

/// Calls `rand::thread_rng`, which hands out a handle to the calling thread's
/// generator. Nothing is claimed of the handle. On a thread's first call the
/// generator is seeded from the operating system, and `rand` panics if the
/// system can give no seed.
#[verifier::external_body]
fn thread_generator() -> rand::rngs::ThreadRng {
    rand::thread_rng()
}

/// Calls `Rng::gen_range(0, high)` on the thread's generator. `rand` documents
/// the result as lying in the half-open range from `low` to `high`, and the
/// call as panicking when `low >= high`; hence the `requires`. Which value of
/// the range comes back is left open.
#[verifier::external_body]
fn gen_below(rng: &mut rand::rngs::ThreadRng, high: u32) -> (r: u32)
    requires
        high >= 1,
    ensures
        r < high,
{
    rng.gen_range(0u32, high)
}

/// Rolls dice with the thread-local random number generator.
pub struct ThreadRoller {
    rng: rand::rngs::ThreadRng,
}

impl ThreadRoller {
    /// A roller on the calling thread's generator.
    pub fn new() -> (roller: Self) {
        ThreadRoller { rng: thread_generator() }
    }
}

impl DiceRoller for ThreadRoller {
    /// A throw comes out as a number from 1 to `sides`.
    open spec fn may_roll(sides: u32, r: u32) -> bool {
        1 <= r <= sides
    }

    fn roll(&mut self, sides: u32) -> (r: u32) {
        die_face(gen_below(&mut self.rng, sides), sides)
    }
}

/// The face that a die of `sides` faces shows for the number `below` drawn
/// from the `sides` numbers that start at 0: faces count from 1.
pub fn die_face(below: u32, sides: u32) -> (face: u32)
    requires
        below < sides,
    ensures
        face == below + 1,
        ThreadRoller::may_roll(sides, face),
{
    below + 1
}

/// A roller whose every throw shows the highest face.
pub struct MaxRoller;

impl DiceRoller for MaxRoller {
    /// A throw comes out as `sides`.
    open spec fn may_roll(sides: u32, r: u32) -> bool {
        r == sides
    }

    fn roll(&mut self, sides: u32) -> (r: u32) {
        sides
    }
}

/// A roller whose every throw shows a one.
pub struct MinRoller;

impl DiceRoller for MinRoller {
    /// A throw comes out as 1.
    open spec fn may_roll(sides: u32, r: u32) -> bool {
        r == 1
    }

    fn roll(&mut self, sides: u32) -> (r: u32) {
        1
    }
}

/// With the highest face on every throw, `number` dice of `sides` faces sum to
/// `number` times `sides`; with a one on every throw, to `number`. Both
/// rollers are fixed, so an evaluation with either has one possible result.
pub proof fn theorem_fixed_totals(number: u32, sides: u32, total: nat)
    ensures
        possible_total::<MaxRoller>(number, sides, total) ==> total == number * sides,
        possible_total::<MinRoller>(number, sides, total) ==> total == number,
        fixed_roller::<MaxRoller>(),
        fixed_roller::<MinRoller>(),
{
    if possible_total::<MaxRoller>(number, sides, total) {
        theorem_fixed_roller::<MaxRoller>(number, sides, total, sides);
    }
    if possible_total::<MinRoller>(number, sides, total) {
        theorem_fixed_roller::<MinRoller>(number, sides, total, 1);
        assert(number * 1 == number) by (nonlinear_arith);
    }
}

/// What the thread roller throws for `number` dice of `sides` faces sums to
/// between `number` and `number` times `sides`.
pub proof fn theorem_thread_total_range(number: u32, sides: u32, total: nat)
    requires
        possible_total::<ThreadRoller>(number, sides, total),
    ensures
        number <= total <= number * sides,
{
    lemma_total_bounds::<ThreadRoller>(number, sides, total, 1, sides as nat);
    assert(number * 1 == number) by (nonlinear_arith);
}

/// A single dice roll, evaluated with the thread roller, has a value between
/// the number of dice and that number times the number of faces, provided the
/// die has a face and the greatest total fits in a `u32`.
pub proof fn theorem_thread_roll_value(number: u32, sides: u32, totals: Seq<nat>)
    requires
        sides >= 1,
        number * sides <= u32::MAX,
        possible_totals::<ThreadRoller>(seq![Token::Roll { number, sides }], totals),
    ensures
        eval_postfix(seq![Token::Roll { number, sides }], totals) matches Ok(v) && number <= v
            <= number * sides,
{
    let tokens = seq![Token::Roll { number, sides }];
    assert(tokens[0] == Token::Roll { number, sides });
    assert(reaches(tokens, totals, 0));
    theorem_thread_total_range(number, sides, totals[0]);
    assert(eval_prefix(tokens, totals, Seq::empty(), 0) == Ok::<Seq<u32>, EvalError>(
        Seq::empty(),
    ));
    assert(eval_prefix(tokens, totals, Seq::empty(), 1) == Ok::<Seq<u32>, EvalError>(
        Seq::<u32>::empty().push(totals[0] as u32),
    ));
}

} // verus!
