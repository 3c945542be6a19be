use dice_expr::dice::{eval, eval_with_roller, try_eval_with_roller, DiceError};
use dice_expr::eval::{
    apply_op, apply_token, eval_tokens, finish_stack, roll_dice, roll_total, sum_rolls,
    DiceRoller, EvalError,
};
use dice_expr::parser::ParseError;
use dice_expr::roller::{die_face, MaxRoller, MinRoller, ThreadRoller};
use dice_expr::token::Token;
use dice_expr::tokenizer::tokenize;

struct MaxDiceRoller;

impl DiceRoller for MaxDiceRoller {
    fn roll(&mut self, sides: u32) -> u32 {
        sides
    }
}

struct MinDiceRoller;

impl DiceRoller for MinDiceRoller {
    fn roll(&mut self, _sides: u32) -> u32 {
        1
    }
}

struct CountingRoller {
    calls: u32,
}

impl DiceRoller for CountingRoller {
    fn roll(&mut self, _sides: u32) -> u32 {
        self.calls += 1;
        self.calls
    }
}

struct Huge {
    calls: u32,
}

impl DiceRoller for Huge {
    fn roll(&mut self, _sides: u32) -> u32 {
        self.calls += 1;
        4294967295
    }
}

#[test]
fn eval_eval_single_die() {
    assert_eq!(eval_with_roller("1d6", &mut MaxDiceRoller), Some(6));
}

#[test]
fn eval_eval_multiple_dice() {
    assert_eq!(eval_with_roller("2d6", &mut MaxDiceRoller), Some(12));
}

#[test]
fn eval_eval_multiple_different_dice() {
    assert_eq!(eval_with_roller("1d4 + 1d6", &mut MaxDiceRoller), Some(10));
}

#[test]
fn eval_addition() {
    assert_eq!(eval_with_roller("1d6 + 2", &mut MaxDiceRoller), Some(8));
}

#[test]
fn eval_subtraction() {
    assert_eq!(eval_with_roller("1d6 - 2", &mut MaxDiceRoller), Some(4));
}

#[test]
fn mod_eval_single_die() {
    assert_eq!(eval_with_roller("1d6", &mut MaxDiceRoller), Some(6));
}

#[test]
fn mod_eval_multiple_dice() {
    assert_eq!(eval_with_roller("2d6", &mut MaxDiceRoller), Some(12));
}

#[test]
fn mod_eval_multiple_different_dice() {
    assert_eq!(eval_with_roller("1d4 + 1d6", &mut MaxDiceRoller), Some(10));
}

#[test]
fn mod_addition() {
    assert_eq!(eval_with_roller("1d6 + 2", &mut MaxDiceRoller), Some(8));
}

#[test]
fn mod_subtraction() {
    assert_eq!(eval_with_roller("1d6 - 2", &mut MaxDiceRoller), Some(4));
}

#[test]
fn addition() {
    let s = "1 + 2";
    let expected = vec![Token::Num(1), Token::Sym('+'), Token::Num(2)];
    assert_eq!(tokenize(s), Some(expected));
}

#[test]
fn subtraction() {
    let s = "1 - 2";
    let expected = vec![Token::Num(1), Token::Sym('-'), Token::Num(2)];
    assert_eq!(tokenize(s), Some(expected));
}

#[test]
fn subtraction_associates_to_the_left() {
    assert_eq!(eval_with_roller("8 - 3 - 2", &mut MaxDiceRoller), Some(3));
    assert_eq!(eval_with_roller("8 - 3 - 2", &mut MinDiceRoller), Some(3));
    assert_eq!(eval("8 - 3 - 2"), Some(3));
}

#[test]
fn division_associates_to_the_left() {
    assert_eq!(eval("64 / 4 / 2"), Some(8));
}

#[test]
fn multiplication_binds_tighter_than_addition() {
    assert_eq!(eval("1 + 2 * 3"), Some(7));
    assert_eq!(eval("(1 + 2) * 3"), Some(9));
    assert_eq!(eval("2 * 3 + 4"), Some(10));
    assert_eq!(eval("10 - 6 / 2"), Some(7));
}

#[test]
fn division_truncates() {
    assert_eq!(eval("7 / 2"), Some(3));
    assert_eq!(eval("1 / 2"), Some(0));
    assert_eq!(eval("9 / 3"), Some(3));
}

#[test]
fn fixed_rollers_of_the_library() {
    assert_eq!(eval_with_roller("1d6", &mut MaxRoller), Some(6));
    assert_eq!(eval_with_roller("2d6", &mut MaxRoller), Some(12));
    assert_eq!(eval_with_roller("1d4 + 1d6", &mut MaxRoller), Some(10));
    assert_eq!(eval_with_roller("1d6 + 2", &mut MaxRoller), Some(8));
    assert_eq!(eval_with_roller("1d6 - 2", &mut MaxRoller), Some(4));
    assert_eq!(eval_with_roller("3d6", &mut MinRoller), Some(3));
    assert_eq!(eval_with_roller("3d6 * 2d8", &mut MinRoller), Some(6));
    assert_eq!(MaxRoller.roll(20), 20);
    assert_eq!(MinRoller.roll(20), 1);
}

#[test]
fn minimum_roller_sums_ones() {
    assert_eq!(eval_with_roller("3d6", &mut MinDiceRoller), Some(3));
}

#[test]
fn no_dice_sum_to_zero() {
    assert_eq!(eval_with_roller("0d6", &mut MaxDiceRoller), Some(0));
    assert_eq!(eval_with_roller("0d6 + 4", &mut MaxDiceRoller), Some(4));
}

#[test]
fn lex_fault_gives_none() {
    assert_eq!(eval("x22"), None);
    assert_eq!(try_eval_with_roller("x22", &mut MaxDiceRoller), Err(DiceError::Lex));
    assert_eq!(try_eval_with_roller("2d", &mut MaxDiceRoller), Err(DiceError::Lex));
}

#[test]
fn unmatched_close_paren_gives_a_parse_fault() {
    assert_eq!(eval("1 + 2)"), None);
    assert_eq!(
        try_eval_with_roller("1 + 2)", &mut MaxDiceRoller),
        Err(DiceError::Parse(ParseError::UnmatchedCloseParen))
    );
}

#[test]
fn unclosed_group_gives_an_evaluation_fault() {
    assert_eq!(eval("(1 + 2"), None);
    assert_eq!(
        try_eval_with_roller("(1 + 2", &mut MaxDiceRoller),
        Err(DiceError::Evaluation(EvalError::UnexpectedToken))
    );
}

#[test]
fn spaces_do_not_change_the_value() {
    assert_eq!(eval("1+2"), eval("1 + 2"));
    assert_eq!(eval("1+2"), Some(3));
    assert_eq!(
        eval_with_roller(" 2d6+( 3 * 2 ) ", &mut MaxDiceRoller),
        eval_with_roller("2d6+(3*2)", &mut MaxDiceRoller)
    );
}

#[test]
fn each_evaluation_fault() {
    let mut r = MaxDiceRoller;
    assert_eq!(
        try_eval_with_roller("1 +", &mut r),
        Err(DiceError::Evaluation(EvalError::StackUnderflow))
    );
    assert_eq!(
        try_eval_with_roller("1 / 0", &mut r),
        Err(DiceError::Evaluation(EvalError::DivideByZero))
    );
    assert_eq!(
        try_eval_with_roller("1 - 2", &mut r),
        Err(DiceError::Evaluation(EvalError::Overflow))
    );
    assert_eq!(
        try_eval_with_roller("4294967295 + 1", &mut r),
        Err(DiceError::Evaluation(EvalError::Overflow))
    );
    assert_eq!(
        try_eval_with_roller("65536 * 65536", &mut r),
        Err(DiceError::Evaluation(EvalError::Overflow))
    );
    assert_eq!(
        try_eval_with_roller("2d4294967295", &mut r),
        Err(DiceError::Evaluation(EvalError::Overflow))
    );
    assert_eq!(
        try_eval_with_roller("2d0", &mut r),
        Err(DiceError::Evaluation(EvalError::ZeroSidedDie))
    );
    assert_eq!(
        try_eval_with_roller("0d0", &mut r),
        Err(DiceError::Evaluation(EvalError::ZeroSidedDie))
    );
    assert_eq!(
        try_eval_with_roller("1 2", &mut r),
        Err(DiceError::Evaluation(EvalError::UnconsumedOperands))
    );
    assert_eq!(
        try_eval_with_roller("", &mut r),
        Err(DiceError::Evaluation(EvalError::EmptyResult))
    );
    assert_eq!(
        try_eval_with_roller("()", &mut r),
        Err(DiceError::Evaluation(EvalError::EmptyResult))
    );
}

#[test]
fn limits_of_the_arithmetic() {
    assert_eq!(eval("4294967294 + 1"), Some(4294967295));
    assert_eq!(eval("65535 * 65537"), Some(4294967295));
    assert_eq!(eval("5 - 5"), Some(0));
    assert_eq!(eval("0 / 7"), Some(0));
}

#[test]
fn first_fault_wins() {
    let mut r = MaxDiceRoller;
    assert_eq!(
        try_eval_with_roller("1 / 0 + (2 - 3)", &mut r),
        Err(DiceError::Evaluation(EvalError::DivideByZero))
    );
    assert_eq!(
        try_eval_with_roller("(2 - 3) + 1 / 0", &mut r),
        Err(DiceError::Evaluation(EvalError::Overflow))
    );
}

#[test]
fn no_die_is_rolled_after_a_fault() {
    let mut r = CountingRoller { calls: 0 };
    assert_eq!(
        try_eval_with_roller("1d6 / 0 + 3d6", &mut r),
        Err(DiceError::Evaluation(EvalError::DivideByZero))
    );
    assert_eq!(r.calls, 1);
}

#[test]
fn dice_are_rolled_in_postfix_order() {
    let mut r = CountingRoller { calls: 0 };
    assert_eq!(eval_with_roller("2d6 * 1d6", &mut r), Some(9));
    assert_eq!(r.calls, 3);
}

#[test]
fn roll_dice_keeps_each_draw() {
    let mut r = CountingRoller { calls: 0 };
    assert_eq!(roll_dice(4, 6, &mut r), vec![1, 2, 3, 4]);
    assert_eq!(roll_dice(0, 6, &mut r), Vec::<u32>::new());
    assert_eq!(roll_dice(3, 8, &mut MaxDiceRoller), vec![8, 8, 8]);
}

#[test]
fn sum_rolls_is_checked() {
    assert_eq!(sum_rolls(&vec![]), Some(0));
    assert_eq!(sum_rolls(&vec![1, 2, 3]), Some(6));
    assert_eq!(sum_rolls(&vec![4294967295, 0]), Some(4294967295));
    assert_eq!(sum_rolls(&vec![4294967295, 1]), None);
    assert_eq!(sum_rolls(&vec![4294967295, 1, 0]), None);
}

#[test]
fn apply_op_on_each_operator() {
    assert_eq!(apply_op('+', 6, 3), Ok(9));
    assert_eq!(apply_op('-', 6, 3), Ok(3));
    assert_eq!(apply_op('*', 6, 3), Ok(18));
    assert_eq!(apply_op('/', 6, 4), Ok(1));
    assert_eq!(apply_op('-', 3, 6), Err(EvalError::Overflow));
    assert_eq!(apply_op('/', 3, 0), Err(EvalError::DivideByZero));
    assert_eq!(apply_op('%', 3, 2), Err(EvalError::UnexpectedToken));
}

#[test]
fn apply_token_takes_right_operand_from_the_top() {
    let mut stack = vec![1, 10, 4];
    assert_eq!(apply_token(&mut stack, Token::Sym('-'), Some(0)), Ok(()));
    assert_eq!(stack, vec![1, 6]);
    assert_eq!(apply_token(&mut stack, Token::Num(5), Some(0)), Ok(()));
    assert_eq!(stack, vec![1, 6, 5]);
    let roll = Token::Roll {
        number: 2,
        sides: 6,
    };
    assert_eq!(apply_token(&mut stack, roll, Some(7)), Ok(()));
    assert_eq!(stack, vec![1, 6, 5, 7]);
}

#[test]
fn apply_token_leaves_the_stack_on_a_fault() {
    let mut stack = vec![7];
    assert_eq!(
        apply_token(&mut stack, Token::Sym('+'), Some(0)),
        Err(EvalError::StackUnderflow)
    );
    assert_eq!(stack, vec![7]);
    let mut stack = vec![7, 0];
    assert_eq!(
        apply_token(&mut stack, Token::Sym('/'), Some(0)),
        Err(EvalError::DivideByZero)
    );
    assert_eq!(stack, vec![7, 0]);
    assert_eq!(
        apply_token(&mut stack, Token::OpenParen, Some(0)),
        Err(EvalError::UnexpectedToken)
    );
    assert_eq!(
        apply_token(&mut stack, Token::CloseParen, Some(0)),
        Err(EvalError::UnexpectedToken)
    );
    assert_eq!(
        apply_token(&mut stack, Token::Sym('^'), Some(0)),
        Err(EvalError::UnexpectedToken)
    );
    assert_eq!(stack, vec![7, 0]);
}

#[test]
fn apply_token_reports_a_total_that_did_not_fit() {
    let mut stack = vec![7];
    let roll = Token::Roll {
        number: 2,
        sides: 4294967295,
    };
    assert_eq!(apply_token(&mut stack, roll, None), Err(EvalError::Overflow));
    assert_eq!(stack, vec![7]);
    let no_sides = Token::Roll {
        number: 2,
        sides: 0,
    };
    assert_eq!(
        apply_token(&mut stack, no_sides, Some(0)),
        Err(EvalError::ZeroSidedDie)
    );
    assert_eq!(stack, vec![7]);
}

#[test]
fn roll_total_adds_every_throw() {
    let mut r = CountingRoller { calls: 0 };
    assert_eq!(roll_total(4, 6, &mut r), Some(10));
    assert_eq!(r.calls, 4);
    assert_eq!(roll_total(0, 6, &mut r), Some(0));
    assert_eq!(r.calls, 4);
    assert_eq!(roll_total(3, 8, &mut MaxDiceRoller), Some(24));
    assert_eq!(roll_total(5, 8, &mut MinDiceRoller), Some(5));
}

#[test]
fn roll_total_throws_on_after_an_overflow() {
    let mut r = Huge { calls: 0 };
    assert_eq!(roll_total(3, 6, &mut r), None);
    assert_eq!(r.calls, 3);
    let mut r = Huge { calls: 0 };
    assert_eq!(roll_total(1, 6, &mut r), Some(4294967295));
}

#[test]
fn finish_stack_wants_exactly_one_value() {
    assert_eq!(finish_stack(&vec![]), Err(EvalError::EmptyResult));
    assert_eq!(finish_stack(&vec![4]), Ok(4));
    assert_eq!(finish_stack(&vec![4, 5]), Err(EvalError::UnconsumedOperands));
}

#[test]
fn eval_tokens_on_postfix() {
    let postfix = vec![
        Token::Num(8),
        Token::Num(3),
        Token::Sym('-'),
        Token::Num(2),
        Token::Sym('-'),
    ];
    assert_eq!(eval_tokens(postfix, &mut MaxDiceRoller), Ok(3));
    let postfix = vec![
        Token::Roll {
            number: 2,
            sides: 6,
        },
        Token::Num(5),
        Token::Sym('*'),
    ];
    assert_eq!(eval_tokens(postfix, &mut MaxDiceRoller), Ok(60));
}

#[test]
fn faces_count_from_one() {
    assert_eq!(die_face(0, 6), 1);
    assert_eq!(die_face(5, 6), 6);
    assert_eq!(die_face(0, 1), 1);
    assert_eq!(die_face(4294967294, 4294967295), 4294967295);
}

#[test]
fn thread_roller_stays_in_range() {
    let mut roller = ThreadRoller::new();
    for _ in 0..200 {
        assert_eq!(roller.roll(1), 1);
        let r = roller.roll(6);
        assert!(1 <= r && r <= 6);
    }
}

#[test]
fn production_die_shows_every_face() {
    let mut seen = [false; 6];
    for _ in 0..2000 {
        let r = eval("1d6").unwrap();
        assert!(1 <= r && r <= 6);
        seen[(r - 1) as usize] = true;
    }
    assert!(seen.iter().all(|s| *s));
}
