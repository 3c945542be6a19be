//! Postfix evaluation on an explicit value stack, with dice rolled by an
//! injected roller.
//!
//! Arithmetic is on `u32` and never wraps: a sum, product or dice total that
//! exceeds `u32::MAX`, and a difference below zero, are reported as
//! `EvalError::Overflow`. A die with zero sides is reported as
//! `EvalError::ZeroSidedDie` and is never rolled.

use vstd::prelude::*;
use crate::parser::dice_free;
use crate::token::{is_operator, Token};

verus! {

/// Why a postfix sequence has no value.
#[derive(Debug, Clone, Copy, PartialEq, Eq, Structural)]
pub enum EvalError {
    /// An operator found fewer than two values on the stack.
    StackUnderflow,
    /// The right operand of `/` was zero.
    DivideByZero,
    /// A result did not fit in a `u32`, or a difference was negative.
    Overflow,
    /// A dice roll asked for a die with no sides.
    ZeroSidedDie,
    /// A parenthesis, or a `Sym` that is no operator, in postfix position.
    UnexpectedToken,
    /// More than one value was left at the end.
    UnconsumedOperands,
    /// No value was left at the end.
    EmptyResult,
}

/// A source of dice outcomes. `roll(sides)` stands for one throw of a die with
/// `sides` faces. What a throw may return is the roller's own business: each
/// kind of roller says it in `may_roll`, and the evaluator checks no range.
pub trait DiceRoller {
    /// Whether a throw of a die with `sides` faces may come out as `r`. A
    /// roller that does not say otherwise may return anything.
    open spec fn may_roll(sides: u32, r: u32) -> bool {
        true
    }

    /// One throw of a die with `sides` faces.
    fn roll(&mut self, sides: u32) -> (r: u32)
        requires
            sides >= 1,
        ensures
            Self::may_roll(sides, r),
    ;
}

/// Whether `draws` can be what `number` throws of a die with `sides` faces
/// gave with a roller of kind `R`.
pub open spec fn possible_draws<R: DiceRoller>(number: u32, sides: u32, draws: Seq<u32>) -> bool {
    &&& draws.len() == number
    &&& forall|i: int| 0 <= i < draws.len() ==> R::may_roll(sides, #[trigger] draws[i])
}

/// Whether `total` can be the sum of `number` throws of a die with `sides`
/// faces with a roller of kind `R`.
pub open spec fn possible_total<R: DiceRoller>(number: u32, sides: u32, total: nat) -> bool {
    exists|draws: Seq<u32>| #[trigger] possible_draws::<R>(number, sides, draws) && total == sum(draws)
}

/// The sum of a sequence of draws.
pub open spec fn sum(draws: Seq<u32>) -> nat
    decreases draws.len(),
{
    if draws.len() == 0 {
        0
    } else {
        sum(draws.drop_last()) + draws.last() as nat
    }
}

/// `a op b` for the operator character `op`: checked addition, subtraction
/// and multiplication, and division that truncates toward zero.
pub open spec fn apply_operator(op: char, a: u32, b: u32) -> Result<u32, EvalError> {
    if op == '+' {
        if a + b > u32::MAX {
            Err(EvalError::Overflow)
        } else {
            Ok((a + b) as u32)
        }
    } else if op == '-' {
        if a < b {
            Err(EvalError::Overflow)
        } else {
            Ok((a - b) as u32)
        }
    } else if op == '*' {
        if a * b > u32::MAX {
            Err(EvalError::Overflow)
        } else {
            Ok((a * b) as u32)
        }
    } else if op == '/' {
        if b == 0 {
            Err(EvalError::DivideByZero)
        } else {
            Ok(a / b)
        }
    } else {
        Err(EvalError::UnexpectedToken)
    }
}

/// A dice total as a `u32`, or `None` where it does not fit.
pub open spec fn checked_total(total: nat) -> Option<u32> {
    if total > u32::MAX {
        None
    } else {
        Some(total as u32)
    }
}

/// The stack after one postfix token. `rolled` is the checked sum of the
/// draws made for the token; only a dice roll reads it.
pub open spec fn eval_step(stack: Seq<u32>, t: Token, rolled: Option<u32>) -> Result<
    Seq<u32>,
    EvalError,
> {
    match t {
        Token::Num(n) => Ok(stack.push(n)),
        Token::Roll { number, sides } => if sides == 0 {
            Err(EvalError::ZeroSidedDie)
        } else {
            match rolled {
                None => Err(EvalError::Overflow),
                Some(total) => Ok(stack.push(total)),
            }
        },
        Token::Sym(c) => if !is_operator(c) {
            Err(EvalError::UnexpectedToken)
        } else if stack.len() < 2 {
            Err(EvalError::StackUnderflow)
        } else {
            match apply_operator(c, stack[stack.len() - 2], stack[stack.len() - 1]) {
                Ok(v) => Ok(stack.take(stack.len() - 2).push(v)),
                Err(e) => Err(e),
            }
        },
        Token::OpenParen => Err(EvalError::UnexpectedToken),
        Token::CloseParen => Err(EvalError::UnexpectedToken),
    }
}

/// The stack after the first `n` of `tokens`, starting from `init`, where
/// `totals[i]` is the dice total drawn for `tokens[i]`. The first fault ends
/// the evaluation.
pub open spec fn eval_prefix(tokens: Seq<Token>, totals: Seq<nat>, init: Seq<u32>, n: nat) -> Result<
    Seq<u32>,
    EvalError,
>
    decreases n,
{
    if n == 0 {
        Ok(init)
    } else {
        match eval_prefix(tokens, totals, init, (n - 1) as nat) {
            Ok(stack) => eval_step(stack, tokens[n - 1], checked_total(totals[n - 1])),
            Err(e) => Err(e),
        }
    }
}

/// The value that the final stack stands for: its only element.
pub open spec fn finish(stack: Seq<u32>) -> Result<u32, EvalError> {
    if stack.len() == 0 {
        Err(EvalError::EmptyResult)
    } else if stack.len() > 1 {
        Err(EvalError::UnconsumedOperands)
    } else {
        Ok(stack[0])
    }
}

/// The value of a postfix sequence, given the dice total drawn for each
/// token.
pub open spec fn eval_postfix(tokens: Seq<Token>, totals: Seq<nat>) -> Result<u32, EvalError> {
    match eval_prefix(tokens, totals, Seq::empty(), tokens.len()) {
        Ok(stack) => finish(stack),
        Err(e) => Err(e),
    }
}

/// The value of a postfix sequence without dice.
pub open spec fn eval_dice_free(tokens: Seq<Token>) -> Result<u32, EvalError> {
    eval_postfix(tokens, Seq::new(tokens.len(), |i: int| 0nat))
}

/// Whether the evaluation gets as far as the token at index `i` without a
/// fault.
pub open spec fn reaches(tokens: Seq<Token>, totals: Seq<nat>, i: int) -> bool {
    eval_prefix(tokens, totals, Seq::empty(), i as nat) is Ok
}

/// Whether `totals` has one entry per token, and the entry of each dice roll
/// that the evaluation reaches, with a die of one side or more, is a sum that
/// its throws can have with a roller of kind `R`. Nothing is thrown for a
/// token behind a fault.
pub open spec fn possible_totals<R: DiceRoller>(tokens: Seq<Token>, totals: Seq<nat>) -> bool {
    &&& totals.len() == tokens.len()
    &&& forall|i: int|
        0 <= i < tokens.len() ==> (#[trigger] tokens[i] matches Token::Roll { number, sides }
            ==> sides >= 1 ==> reaches(tokens, totals, i) ==> possible_total::<R>(
            number,
            sides,
            totals[i],
        ))
}

/// The sum of `number` throws lies between `number` times the least and
/// `number` times the greatest outcome of one throw.
pub proof fn lemma_total_bounds<R: DiceRoller>(
    number: u32,
    sides: u32,
    total: nat,
    least: nat,
    greatest: nat,
)
    requires
        possible_total::<R>(number, sides, total),
        forall|r: u32| #[trigger] R::may_roll(sides, r) ==> least <= r <= greatest,
    ensures
        number * least <= total <= number * greatest,
{
    let draws = choose|draws: Seq<u32>| #[trigger]
        possible_draws::<R>(number, sides, draws) && total == sum(draws);
    lemma_sum_between(draws, least, greatest);
}

/// With a roller that can give one outcome only, the total of `number` throws
/// is `number` times that outcome: `number` times `sides` where every throw
/// shows the highest face, `number` where every throw shows a one.
pub proof fn theorem_fixed_roller<R: DiceRoller>(number: u32, sides: u32, total: nat, face: u32)
    requires
        possible_total::<R>(number, sides, total),
        forall|r: u32| #[trigger] R::may_roll(sides, r) ==> r == face,
    ensures
        total == number * face,
{
    lemma_total_bounds::<R>(number, sides, total, face as nat, face as nat);
}

/// Whether a roller of kind `R` can give one outcome only for each die.
pub open spec fn fixed_roller<R: DiceRoller>() -> bool {
    forall|sides: u32, r1: u32, r2: u32|
        #![trigger R::may_roll(sides, r1), R::may_roll(sides, r2)]
        R::may_roll(sides, r1) && R::may_roll(sides, r2) ==> r1 == r2
}

/// With a roller that can give one outcome only for each die, evaluation is
/// determined: whatever is rolled, the result is the same.
pub proof fn theorem_fixed_roller_value<R: DiceRoller>(
    tokens: Seq<Token>,
    t1: Seq<nat>,
    t2: Seq<nat>,
)
    requires
        fixed_roller::<R>(),
        possible_totals::<R>(tokens, t1),
        possible_totals::<R>(tokens, t2),
    ensures
        eval_postfix(tokens, t1) == eval_postfix(tokens, t2),
{
    lemma_fixed_roller_prefix::<R>(tokens, t1, t2, tokens.len());
}

/// With a fixed roller, two possible runs agree after every token.
proof fn lemma_fixed_roller_prefix<R: DiceRoller>(
    tokens: Seq<Token>,
    t1: Seq<nat>,
    t2: Seq<nat>,
    n: nat,
)
    requires
        fixed_roller::<R>(),
        possible_totals::<R>(tokens, t1),
        possible_totals::<R>(tokens, t2),
        n <= tokens.len(),
    ensures
        eval_prefix(tokens, t1, Seq::empty(), n) == eval_prefix(tokens, t2, Seq::empty(), n),
    decreases n,
{
    if n > 0 {
        let i = n - 1;
        lemma_fixed_roller_prefix::<R>(tokens, t1, t2, i as nat);
        if let Token::Roll { number, sides } = tokens[i] {
            if sides >= 1 && reaches(tokens, t1, i) {
                assert(reaches(tokens, t2, i));
                let d1 = choose|d: Seq<u32>| #[trigger]
                    possible_draws::<R>(number, sides, d) && t1[i] == sum(d);
                let d2 = choose|d: Seq<u32>| #[trigger]
                    possible_draws::<R>(number, sides, d) && t2[i] == sum(d);
                assert forall|j: int| 0 <= j < d1.len() implies d1[j] == d2[j] by {
                    assert(R::may_roll(sides, d1[j]) && R::may_roll(sides, d2[j]));
                }
                assert(d1 =~= d2);
            }
        }
    }
}

/// A sum lies between the count times a lower and the count times an upper
/// bound of the summands.
pub proof fn lemma_sum_between(draws: Seq<u32>, least: nat, greatest: nat)
    requires
        forall|i: int| 0 <= i < draws.len() ==> least <= #[trigger] draws[i] <= greatest,
    ensures
        draws.len() * least <= sum(draws) <= draws.len() * greatest,
    decreases draws.len(),
{
    if draws.len() > 0 {
        let init = draws.drop_last();
        assert forall|i: int| 0 <= i < init.len() implies least <= #[trigger] init[i]
            <= greatest by {
            assert(init[i] == draws[i]);
        }
        lemma_sum_between(init, least, greatest);
        assert((draws.len() - 1) * least + least == draws.len() * least) by (nonlinear_arith);
        assert((draws.len() - 1) * greatest + greatest == draws.len() * greatest)
            by (nonlinear_arith);
    } else {
        assert(0 * least == 0 && 0 * greatest == 0) by (nonlinear_arith);
    }
}

/// The sum of a prefix is at most the sum of the whole.
pub proof fn lemma_sum_prefix(draws: Seq<u32>, i: int)
    requires
        0 <= i <= draws.len(),
    ensures
        sum(draws.take(i)) <= sum(draws),
    decreases draws.len() - i,
{
    if i < draws.len() {
        lemma_sum_prefix(draws, i + 1);
        assert(draws.take(i + 1).drop_last() =~= draws.take(i));
    } else {
        assert(draws.take(i) =~= draws);
    }
}

/// The stack after `n` tokens depends only on the first `n` totals.
pub proof fn lemma_prefix_totals(
    tokens: Seq<Token>,
    t1: Seq<nat>,
    t2: Seq<nat>,
    init: Seq<u32>,
    n: nat,
)
    requires
        forall|i: int| 0 <= i < n ==> t1[i] == t2[i],
    ensures
        eval_prefix(tokens, t1, init, n) == eval_prefix(tokens, t2, init, n),
    decreases n,
{
    if n > 0 {
        lemma_prefix_totals(tokens, t1, t2, init, (n - 1) as nat);
    }
}

/// Without dice the totals do not matter.
pub proof fn lemma_dice_free_totals(
    tokens: Seq<Token>,
    t1: Seq<nat>,
    t2: Seq<nat>,
    init: Seq<u32>,
    n: nat,
)
    requires
        dice_free(tokens),
        n <= tokens.len(),
    ensures
        eval_prefix(tokens, t1, init, n) == eval_prefix(tokens, t2, init, n),
    decreases n,
{
    if n > 0 {
        lemma_dice_free_totals(tokens, t1, t2, init, (n - 1) as nat);
        assert(!(tokens[n - 1] is Roll));
    }
}

/// A fault, once raised, is the result of every longer prefix.
pub proof fn lemma_fault_stays(
    tokens: Seq<Token>,
    totals: Seq<nat>,
    init: Seq<u32>,
    n: nat,
    m: nat,
)
    requires
        n <= m,
        eval_prefix(tokens, totals, init, n) is Err,
    ensures
        eval_prefix(tokens, totals, init, m) == eval_prefix(tokens, totals, init, n),
    decreases m,
{
    if n < m {
        lemma_fault_stays(tokens, totals, init, n, (m - 1) as nat);
    }
}

/// Throws `number` dice of `sides` faces each and returns the draws in order.
pub fn roll_dice<R: DiceRoller>(number: u32, sides: u32, roller: &mut R) -> (draws: Vec<u32>)
    requires
        sides >= 1,
    ensures
        possible_draws::<R>(number, sides, draws@),
{
    let mut draws: Vec<u32> = Vec::new();
    let mut i: u32 = 0;
    while i < number
        invariant
            i <= number,
            draws@.len() == i,
            sides >= 1,
            forall|j: int| 0 <= j < draws@.len() ==> R::may_roll(sides, #[trigger] draws@[j]),
        decreases number - i,
    {
        let r = roller.roll(sides);
        draws.push(r);
        i = i + 1;
    }
    draws
}

/// Adds up the draws; `None` when the sum exceeds `u32::MAX`.
pub fn sum_rolls(draws: &Vec<u32>) -> (r: Option<u32>)
    ensures
        r == checked_total(sum(draws@)),
{
    let mut acc: u32 = 0;
    let mut i: usize = 0;
    while i < draws.len()
        invariant
            0 <= i <= draws@.len(),
            acc == sum(draws@.take(i as int)),
        decreases draws@.len() - i,
    {
        proof {
            assert(draws@.take(i + 1).drop_last() =~= draws@.take(i as int));
        }
        match acc.checked_add(draws[i]) {
            Some(next) => {
                acc = next;
            },
            None => {
                proof {
                    lemma_sum_prefix(draws@, i + 1);
                }
                return None;
            },
        }
        i = i + 1;
    }
    assert(draws@.take(i as int) =~= draws@);
    Some(acc)
}

/// Computes `a op b` for one of the four operator characters.
pub fn apply_op(op: char, a: u32, b: u32) -> (r: Result<u32, EvalError>)
    ensures
        r == apply_operator(op, a, b),
{
    if op == '+' {
        match a.checked_add(b) {
            Some(v) => Ok(v),
            None => Err(EvalError::Overflow),
        }
    } else if op == '-' {
        match a.checked_sub(b) {
            Some(v) => Ok(v),
            None => Err(EvalError::Overflow),
        }
    } else if op == '*' {
        match a.checked_mul(b) {
            Some(v) => Ok(v),
            None => Err(EvalError::Overflow),
        }
    } else if op == '/' {
        if b == 0 {
            Err(EvalError::DivideByZero)
        } else {
            Ok(a / b)
        }
    } else {
        Err(EvalError::UnexpectedToken)
    }
}

/// Throws `number` dice of `sides` faces each, one after the other, and adds
/// them up as they come. Every die is thrown, also when the sum has outgrown a
/// `u32` already; the result is then `None`.
pub fn roll_total<R: DiceRoller>(number: u32, sides: u32, roller: &mut R) -> (r: Option<u32>)
    requires
        sides >= 1,
    ensures
        exists|total: nat| #[trigger]
            possible_total::<R>(number, sides, total) && r == checked_total(total),
{
    let mut acc: Option<u32> = Some(0);
    let ghost mut draws: Seq<u32> = Seq::empty();
    let mut i: u32 = 0;
    while i < number
        invariant
            i <= number,
            sides >= 1,
            possible_draws::<R>(i, sides, draws),
            acc == checked_total(sum(draws)),
        decreases number - i,
    {
        let d = roller.roll(sides);
        proof {
            assert(draws.push(d).drop_last() =~= draws);
            draws = draws.push(d);
        }
        acc = match acc {
            Some(a) => a.checked_add(d),
            None => None,
        };
        i = i + 1;
    }
    assert(possible_total::<R>(number, sides, sum(draws)));
    acc
}

/// Applies one postfix token to the stack. `rolled` is the checked sum of
/// what was rolled for the token; only a dice roll reads it. On a fault the
/// stack is unchanged.
pub fn apply_token(stack: &mut Vec<u32>, token: Token, rolled: Option<u32>) -> (r: Result<
    (),
    EvalError,
>)
    ensures
        match eval_step(old(stack)@, token, rolled) {
            Ok(next) => r is Ok && final(stack)@ == next,
            Err(e) => r == Err::<(), EvalError>(e) && final(stack)@ == old(stack)@,
        },
{
    match token {
        Token::Num(n) => {
            stack.push(n);
            Ok(())
        },
        Token::Roll { number, sides } => {
            if sides == 0 {
                return Err(EvalError::ZeroSidedDie);
            }
            match rolled {
                Some(total) => {
                    stack.push(total);
                    Ok(())
                },
                None => Err(EvalError::Overflow),
            }
        },
        Token::Sym(c) => {
            if !(c == '+' || c == '-' || c == '*' || c == '/') {
                return Err(EvalError::UnexpectedToken);
            }
            let n = stack.len();
            if n < 2 {
                return Err(EvalError::StackUnderflow);
            }
            let b = stack[n - 1];
            let a = stack[n - 2];
            match apply_op(c, a, b) {
                Ok(v) => {
                    let _ = stack.pop();
                    let _ = stack.pop();
                    stack.push(v);
                    assert(stack@ =~= old(stack)@.take(n - 2).push(v));
                    Ok(())
                },
                Err(e) => Err(e),
            }
        },
        Token::OpenParen => Err(EvalError::UnexpectedToken),
        Token::CloseParen => Err(EvalError::UnexpectedToken),
    }
}

/// The value left on the stack at the end of an evaluation.
pub fn finish_stack(stack: &Vec<u32>) -> (r: Result<u32, EvalError>)
    ensures
        r == finish(stack@),
{
    if stack.len() == 0 {
        Err(EvalError::EmptyResult)
    } else if stack.len() > 1 {
        Err(EvalError::UnconsumedOperands)
    } else {
        Ok(stack[0])
    }
}

/// Evaluates a postfix sequence, rolling each die with `roller` when its token
/// is reached: `number` throws of `sides` faces for each dice roll. The result
/// is the value of the sequence for the totals that were rolled; for a
/// sequence without dice it is fixed.
pub fn eval_tokens<R: DiceRoller>(tokens: Vec<Token>, roller: &mut R) -> (r: Result<u32, EvalError>)
    ensures
        exists|totals: Seq<nat>| #[trigger]
            possible_totals::<R>(tokens@, totals) && r == eval_postfix(tokens@, totals),
        dice_free(tokens@) ==> r == eval_dice_free(tokens@),
{
    let mut stack: Vec<u32> = Vec::new();
    let ghost mut totals: Seq<nat> = Seq::empty();
    let mut i: usize = 0;
    while i < tokens.len()
        invariant
            0 <= i <= tokens@.len(),
            totals.len() == i,
            forall|j: int|
                0 <= j < i ==> (#[trigger] tokens@[j] matches Token::Roll { number, sides } ==> sides
                    >= 1 ==> possible_total::<R>(number, sides, totals[j])),
            eval_prefix(tokens@, totals, Seq::empty(), i as nat) == Ok::<Seq<u32>, EvalError>(
                stack@,
            ),
        decreases tokens@.len() - i,
    {
        let token = tokens[i];
        let ghost mut total: nat = 0;
        let rolled = match token {
            Token::Roll { number, sides } => {
                if sides >= 1 {
                    let rolled = roll_total(number, sides, roller);
                    proof {
                        total = choose|total: nat| #[trigger]
                            possible_total::<R>(number, sides, total) && rolled == checked_total(
                                total,
                            );
                    }
                    rolled
                } else {
                    Some(0)
                }
            },
            _ => Some(0),
        };
        let ghost before = totals;
        proof {
            totals = before.push(total);
            lemma_prefix_totals(tokens@, before, totals, Seq::empty(), i as nat);
        }
        match apply_token(&mut stack, token, rolled) {
            Ok(()) => {},
            Err(e) => {
                proof {
                    let rest = Seq::new((tokens@.len() - i - 1) as nat, |j: int| 0nat);
                    let all = totals + rest;
                    lemma_prefix_totals(tokens@, totals, all, Seq::empty(), (i + 1) as nat);
                    lemma_fault_stays(
                        tokens@,
                        all,
                        Seq::empty(),
                        (i + 1) as nat,
                        tokens@.len(),
                    );
                    assert forall|j: int| i < j < tokens@.len() implies !#[trigger] reaches(
                        tokens@,
                        all,
                        j,
                    ) by {
                        lemma_fault_stays(tokens@, all, Seq::empty(), (i + 1) as nat, j as nat);
                    }
                    assert(possible_totals::<R>(tokens@, all));
                    if dice_free(tokens@) {
                        lemma_dice_free_totals(
                            tokens@,
                            all,
                            Seq::new(tokens@.len(), |j: int| 0nat),
                            Seq::empty(),
                            tokens@.len(),
                        );
                    }
                }
                return Err(e);
            },
        }
        i = i + 1;
    }
    proof {
        assert(possible_totals::<R>(tokens@, totals));
        if dice_free(tokens@) {
            lemma_dice_free_totals(
                tokens@,
                totals,
                Seq::new(tokens@.len(), |j: int| 0nat),
                Seq::empty(),
                tokens@.len(),
            );
        }
    }
    finish_stack(&stack)
}

} // verus!
