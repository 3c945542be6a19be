//! The whole pipeline: text to tokens, tokens to postfix, postfix to a value.

use vstd::prelude::*;
use crate::eval::{
    eval_postfix,
    eval_tokens,
    lemma_dice_free_totals,
    possible_totals,
    DiceRoller,
    EvalError,
};
use crate::parser::{
    closes_match,
    dice_free,
    known_operators,
    lemma_to_postfix_dice_free,
    shunting_yard,
    theorem_unmatched_close,
    to_postfix,
    ParseError,
};
use crate::roller::ThreadRoller;
use crate::token::{is_operator, Token};
use crate::tokenizer::{lemma_operand_consumed, lex, lex_operand, lex_single, tokenize};

verus! {

/// Why an input has no value.
#[derive(Debug, Clone, Copy, PartialEq, Eq, Structural)]
pub enum DiceError {
    /// Some part of the text is no token.
    Lex,
    /// The tokens have no postfix form.
    Parse(ParseError),
    /// The postfix form has no value.
    Evaluation(EvalError),
}

/// The outcome of evaluating the text `s` when `totals[i]` is the dice total
/// drawn for the `i`-th token of its postfix form.
pub open spec fn outcome(s: Seq<char>, totals: Seq<nat>) -> Result<u32, DiceError> {
    match lex(s) {
        None => Err(DiceError::Lex),
        Some(tokens) => match to_postfix(tokens) {
            Err(e) => Err(DiceError::Parse(e)),
            Ok(postfix) => match eval_postfix(postfix, totals) {
                Err(e) => Err(DiceError::Evaluation(e)),
                Ok(v) => Ok(v),
            },
        },
    }
}

/// Whether `totals` can be what a roller of kind `R` rolled while evaluating
/// `s`: one entry for each token of the postfix form, possible for each dice
/// roll that was reached, and no entry where there is no such form.
pub open spec fn rolled_for<R: DiceRoller>(s: Seq<char>, totals: Seq<nat>) -> bool {
    match lex(s) {
        None => totals.len() == 0,
        Some(tokens) => match to_postfix(tokens) {
            Err(_) => totals.len() == 0,
            Ok(postfix) => possible_totals::<R>(postfix, totals),
        },
    }
}

/// Whether `s` lexes to tokens none of which is a dice roll.
pub open spec fn has_no_dice(s: Seq<char>) -> bool {
    lex(s) matches Some(tokens) && dice_free(tokens)
}

/// The value in an outcome, if it has one.
pub open spec fn value_of(r: Result<u32, DiceError>) -> Option<u32> {
    match r {
        Ok(v) => Some(v),
        Err(_) => None,
    }
}

/// Without dice, the outcome is the same whatever the totals.
pub proof fn lemma_outcome_without_dice(s: Seq<char>, t1: Seq<nat>, t2: Seq<nat>)
    requires
        has_no_dice(s),
    ensures
        outcome(s, t1) == outcome(s, t2),
{
    let tokens = lex(s)->0;
    lemma_to_postfix_dice_free(tokens);
    if let Ok(postfix) = to_postfix(tokens) {
        lemma_dice_free_totals(postfix, t1, t2, Seq::empty(), postfix.len());
    }
}

/// Every `Sym` that the lexer makes is one of the four operators.
pub proof fn lemma_lex_known_operators(s: Seq<char>)
    ensures
        lex(s) matches Some(tokens) ==> known_operators(tokens),
    decreases s.len(),
{
    if s.len() > 0 {
        let c = s[0];
        if c == ' ' {
            lemma_lex_known_operators(s.skip(1));
        } else if lex_single(c) is Some {
            lemma_lex_known_operators(s.skip(1));
            if let Some(rest) = lex(s.skip(1)) {
                let first = seq![lex_single(c)->0];
                assert forall|i: int| 0 <= i < (first + rest).len() implies (#[trigger] (first
                    + rest)[i] matches Token::Sym(x) ==> is_operator(x)) by {
                    if i > 0 {
                        assert((first + rest)[i] == rest[i - 1]);
                    }
                }
            }
        } else {
            lemma_operand_consumed(s);
            if let (Some(t), k) = lex_operand(s) {
                lemma_lex_known_operators(s.skip(k as int));
                if let Some(rest) = lex(s.skip(k as int)) {
                    let first = seq![t];
                    assert forall|i: int| 0 <= i < (first + rest).len() implies (#[trigger] (first
                        + rest)[i] matches Token::Sym(x) ==> is_operator(x)) by {
                        if i > 0 {
                            assert((first + rest)[i] == rest[i - 1]);
                        }
                    }
                }
            }
        }
    }
}

/// A text with a `)` that closes nothing has the fault of the unmatched `)`,
/// whatever else it holds; and a text that lexes has a postfix form unless it
/// has such a `)`.
pub proof fn theorem_unmatched_close_in_text(s: Seq<char>, totals: Seq<nat>)
    requires
        lex(s) is Some,
    ensures
        !closes_match(lex(s)->0, 0) ==> outcome(s, totals) == Err::<u32, DiceError>(
            DiceError::Parse(ParseError::UnmatchedCloseParen),
        ),
        closes_match(lex(s)->0, 0) ==> to_postfix(lex(s)->0) is Ok,
{
    lemma_lex_known_operators(s);
    theorem_unmatched_close(lex(s)->0);
}

/// Evaluates the text `s`, rolling dice with `roller`, and says what went
/// wrong where it has no value.
pub fn try_eval_with_roller<R: DiceRoller>(s: &str, roller: &mut R) -> (r: Result<u32, DiceError>)
    ensures
        exists|totals: Seq<nat>| #[trigger] rolled_for::<R>(s@, totals) && r == outcome(s@, totals),
        has_no_dice(s@) ==> r == outcome(s@, Seq::empty()),
{
    let tokens = match tokenize(s) {
        Some(tokens) => tokens,
        None => {
            assert(rolled_for::<R>(s@, Seq::empty()));
            return Err(DiceError::Lex);
        },
    };
    let postfix = match shunting_yard(&tokens) {
        Ok(postfix) => postfix,
        Err(e) => {
            assert(rolled_for::<R>(s@, Seq::empty()));
            return Err(DiceError::Parse(e));
        },
    };
    let ghost p = postfix@;
    let r = eval_tokens(postfix, roller);
    proof {
        let totals = choose|totals: Seq<nat>| #[trigger]
            possible_totals::<R>(p, totals) && r == eval_postfix(p, totals);
        assert(rolled_for::<R>(s@, totals));
        if has_no_dice(s@) {
            lemma_outcome_without_dice(s@, totals, Seq::empty());
        }
    }
    match r {
        Ok(v) => Ok(v),
        Err(e) => Err(DiceError::Evaluation(e)),
    }
}

/// Evaluates the text `s`, rolling dice with `roller`. `None` stands for every
/// kind of invalid input.
pub fn eval_with_roller<R: DiceRoller>(s: &str, roller: &mut R) -> (r: Option<u32>)
    ensures
        exists|totals: Seq<nat>| #[trigger]
            rolled_for::<R>(s@, totals) && r == value_of(outcome(s@, totals)),
        has_no_dice(s@) ==> r == value_of(outcome(s@, Seq::empty())),
{
    match try_eval_with_roller(s, roller) {
        Ok(v) => Some(v),
        Err(_) => None,
    }
}

/// Evaluates the text `s`, rolling dice with the thread-local generator, so
/// that each throw of a die with `sides` faces lies between 1 and `sides`.
pub fn eval(s: &str) -> (r: Option<u32>)
    ensures
        exists|totals: Seq<nat>| #[trigger]
            rolled_for::<ThreadRoller>(s@, totals) && r == value_of(outcome(s@, totals)),
        has_no_dice(s@) ==> r == value_of(outcome(s@, Seq::empty())),
{
    let mut rng = ThreadRoller::new();
    eval_with_roller(s, &mut rng)
}

} // verus!
