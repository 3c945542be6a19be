//! The operator-precedence conversion from infix to postfix order.

use vstd::prelude::*;
use crate::token::{is_operator, precedence, Token};

verus! {

/// Why a token sequence has no postfix form.
#[derive(Debug, Clone, Copy, PartialEq, Eq, Structural)]
pub enum ParseError {
    /// A `)` with no `(` open before it.
    UnmatchedCloseParen,
    /// A `Sym` whose character is none of `+ - * /`.
    UnknownOperator,
}

/// The pending operators (top last) and the output after popping to the
/// output every operator on top that binds at least as tightly as `min`.
pub open spec fn pop_operators(ops: Seq<Token>, out: Seq<Token>, min: nat) -> (
    Seq<Token>,
    Seq<Token>,
)
    decreases ops.len(),
{
    if ops.len() > 0 && binds_at_least(ops.last(), min) {
        pop_operators(ops.drop_last(), out.push(ops.last()), min)
    } else {
        (ops, out)
    }
}

/// Whether `t` is an operator of precedence `min` or more.
pub open spec fn binds_at_least(t: Token, min: nat) -> bool {
    match t {
        Token::Sym(c) => is_operator(c) && precedence(c) >= min,
        _ => false,
    }
}

/// The state after popping everything above the innermost `(` to the output
/// and discarding that `(`; `None` when no `(` is pending.
pub open spec fn pop_to_open(ops: Seq<Token>, out: Seq<Token>) -> Option<(Seq<Token>, Seq<Token>)>
    decreases ops.len(),
{
    if ops.len() == 0 {
        None
    } else if ops.last() == Token::OpenParen {
        Some((ops.drop_last(), out))
    } else {
        pop_to_open(ops.drop_last(), out.push(ops.last()))
    }
}

/// The effect of one input token on the pending operators and the output.
pub open spec fn yard_step(ops: Seq<Token>, out: Seq<Token>, t: Token) -> Result<
    (Seq<Token>, Seq<Token>),
    ParseError,
> {
    match t {
        Token::Num(_) => Ok((ops, out.push(t))),
        Token::Roll { .. } => Ok((ops, out.push(t))),
        Token::Sym(c) => if is_operator(c) {
            let (rest, emitted) = pop_operators(ops, out, precedence(c));
            Ok((rest.push(t), emitted))
        } else {
            Err(ParseError::UnknownOperator)
        },
        Token::OpenParen => Ok((ops.push(t), out)),
        Token::CloseParen => match pop_to_open(ops, out) {
            Some(st) => Ok(st),
            None => Err(ParseError::UnmatchedCloseParen),
        },
    }
}

/// The state after feeding `tokens`, in order, to a converter that starts with
/// `ops` pending and `out` emitted. The first fault ends the run.
pub open spec fn yard_run(tokens: Seq<Token>, ops: Seq<Token>, out: Seq<Token>) -> Result<
    (Seq<Token>, Seq<Token>),
    ParseError,
>
    decreases tokens.len(),
{
    if tokens.len() == 0 {
        Ok((ops, out))
    } else {
        match yard_step(ops, out, tokens[0]) {
            Ok((ops1, out1)) => yard_run(tokens.skip(1), ops1, out1),
            Err(e) => Err(e),
        }
    }
}

/// The output once every pending token has been moved to it, top first.
pub open spec fn flush(ops: Seq<Token>, out: Seq<Token>) -> Seq<Token>
    decreases ops.len(),
{
    if ops.len() == 0 {
        out
    } else {
        flush(ops.drop_last(), out.push(ops.last()))
    }
}

/// The postfix form of an infix token sequence. A `(` that is never closed is
/// flushed to the output like an operator; a `)` that closes nothing is a
/// fault.
pub open spec fn to_postfix(tokens: Seq<Token>) -> Result<Seq<Token>, ParseError> {
    match yard_run(tokens, Seq::empty(), Seq::empty()) {
        Ok((ops, out)) => Ok(flush(ops, out)),
        Err(e) => Err(e),
    }
}

/// What a conversion result denotes.
pub open spec fn postfix_of(r: Result<Vec<Token>, ParseError>) -> Result<Seq<Token>, ParseError> {
    match r {
        Ok(v) => Ok(v@),
        Err(e) => Err(e),
    }
}

/// The precedence of an operator token: 3 for `*` and `/`, 2 for `+` and `-`.
/// No other token has one.
pub fn op_precedence(op: &Token) -> (p: Option<u8>)
    ensures
        p == match *op {
            Token::Sym(c) => if is_operator(c) {
                Some(precedence(c) as u8)
            } else {
                None
            },
            _ => None,
        },
{
    match *op {
        Token::Sym(c) => {
            if c == '*' || c == '/' {
                Some(3)
            } else if c == '+' || c == '-' {
                Some(2)
            } else {
                None
            }
        },
        _ => None,
    }
}

/// Moves to the output every operator on top of the stack that binds at
/// least as tightly as `current`.
fn pop_tighter(op_stack: &mut Vec<Token>, output_queue: &mut Vec<Token>, current: u8)
    ensures
        (final(op_stack)@, final(output_queue)@) == pop_operators(
            old(op_stack)@,
            old(output_queue)@,
            current as nat,
        ),
{
    loop
        invariant
            pop_operators(old(op_stack)@, old(output_queue)@, current as nat) == pop_operators(
                op_stack@,
                output_queue@,
                current as nat,
            ),
        decreases op_stack@.len(),
    {
        if op_stack.len() == 0 {
            return ;
        }
        let top = op_stack[op_stack.len() - 1];
        let pops = match op_precedence(&top) {
            Some(p) => p >= current,
            None => false,
        };
        if !pops {
            return ;
        }
        let _ = op_stack.pop();
        output_queue.push(top);
    }
}

/// Moves everything above the innermost `(` to the output and discards that
/// `(`. Returns whether there was one; if not, the stack ends up empty.
fn pop_group(op_stack: &mut Vec<Token>, output_queue: &mut Vec<Token>) -> (found: bool)
    ensures
        found == pop_to_open(old(op_stack)@, old(output_queue)@).is_some(),
        found ==> Some((final(op_stack)@, final(output_queue)@)) == pop_to_open(
            old(op_stack)@,
            old(output_queue)@,
        ),
{
    loop
        invariant
            pop_to_open(old(op_stack)@, old(output_queue)@) == pop_to_open(
                op_stack@,
                output_queue@,
            ),
        decreases op_stack@.len(),
    {
        let top = match op_stack.pop() {
            Some(t) => t,
            None => {
                return false;
            },
        };
        if top == Token::OpenParen {
            return true;
        }
        output_queue.push(top);
    }
}

/// Moves everything left on the stack to the output, top first.
fn pop_all(op_stack: &mut Vec<Token>, output_queue: &mut Vec<Token>)
    ensures
        final(output_queue)@ == flush(old(op_stack)@, old(output_queue)@),
{
    loop
        invariant
            flush(old(op_stack)@, old(output_queue)@) == flush(op_stack@, output_queue@),
        decreases op_stack@.len(),
    {
        match op_stack.pop() {
            Some(op) => {
                output_queue.push(op);
            },
            None => {
                return ;
            },
        }
    }
}

/// Converts an infix token sequence to postfix order. All four operators
/// associate to the left; `*` and `/` bind tighter than `+` and `-`.
pub fn shunting_yard(tokens: &Vec<Token>) -> (r: Result<Vec<Token>, ParseError>)
    ensures
        postfix_of(r) == to_postfix(tokens@),
{
    let mut output_queue: Vec<Token> = Vec::new();
    let mut op_stack: Vec<Token> = Vec::new();
    let mut i: usize = 0;
    assert(tokens@.skip(0) =~= tokens@);
    while i < tokens.len()
        invariant
            0 <= i <= tokens@.len(),
            yard_run(tokens@, Seq::empty(), Seq::empty()) == yard_run(
                tokens@.skip(i as int),
                op_stack@,
                output_queue@,
            ),
        decreases tokens@.len() - i,
    {
        let token = tokens[i];
        proof {
            assert(tokens@.skip(i as int).skip(1) =~= tokens@.skip(i + 1));
            assert(tokens@.skip(i as int)[0] == token);
        }
        match token {
            Token::Num(_) => {
                output_queue.push(token);
            },
            Token::Roll { .. } => {
                output_queue.push(token);
            },
            Token::Sym(_) => {
                match op_precedence(&token) {
                    Some(current) => {
                        pop_tighter(&mut op_stack, &mut output_queue, current);
                        op_stack.push(token);
                    },
                    None => {
                        return Err(ParseError::UnknownOperator);
                    },
                }
            },
            Token::OpenParen => {
                op_stack.push(token);
            },
            Token::CloseParen => {
                if !pop_group(&mut op_stack, &mut output_queue) {
                    return Err(ParseError::UnmatchedCloseParen);
                }
            },
        }
        i = i + 1;
    }
    pop_all(&mut op_stack, &mut output_queue);
    Ok(output_queue)
}

/// Whether no token is a dice roll.
pub open spec fn dice_free(tokens: Seq<Token>) -> bool {
    forall|i: int| 0 <= i < tokens.len() ==> !(#[trigger] tokens[i] is Roll)
}

/// Popping operators moves tokens and makes none.
pub proof fn lemma_pop_operators_dice_free(ops: Seq<Token>, out: Seq<Token>, min: nat)
    requires
        dice_free(ops),
        dice_free(out),
    ensures
        dice_free(pop_operators(ops, out, min).0),
        dice_free(pop_operators(ops, out, min).1),
    decreases ops.len(),
{
    if ops.len() > 0 && binds_at_least(ops.last(), min) {
        lemma_pop_operators_dice_free(ops.drop_last(), out.push(ops.last()), min);
    }
}

/// Closing a group moves tokens and makes none.
pub proof fn lemma_pop_to_open_dice_free(ops: Seq<Token>, out: Seq<Token>)
    requires
        dice_free(ops),
        dice_free(out),
    ensures
        pop_to_open(ops, out) matches Some((o, u)) ==> dice_free(o) && dice_free(u),
    decreases ops.len(),
{
    if ops.len() > 0 && ops.last() != Token::OpenParen {
        lemma_pop_to_open_dice_free(ops.drop_last(), out.push(ops.last()));
    }
}

/// Flushing moves tokens and makes none.
pub proof fn lemma_flush_dice_free(ops: Seq<Token>, out: Seq<Token>)
    requires
        dice_free(ops),
        dice_free(out),
    ensures
        dice_free(flush(ops, out)),
    decreases ops.len(),
{
    if ops.len() > 0 {
        lemma_flush_dice_free(ops.drop_last(), out.push(ops.last()));
    }
}

/// A run over tokens without dice leaves no dice pending or emitted.
pub proof fn lemma_yard_run_dice_free(tokens: Seq<Token>, ops: Seq<Token>, out: Seq<Token>)
    requires
        dice_free(tokens),
        dice_free(ops),
        dice_free(out),
    ensures
        yard_run(tokens, ops, out) matches Ok((o, u)) ==> dice_free(o) && dice_free(u),
    decreases tokens.len(),
{
    if tokens.len() > 0 {
        let t = tokens[0];
        assert(!(t is Roll));
        match t {
            Token::Sym(c) => {
                lemma_pop_operators_dice_free(ops, out, precedence(c));
            },
            Token::CloseParen => {
                lemma_pop_to_open_dice_free(ops, out);
            },
            _ => {},
        }
        if let Ok((ops1, out1)) = yard_step(ops, out, t) {
            assert forall|i: int| 0 <= i < tokens.skip(1).len() implies !(
            #[trigger] tokens.skip(1)[i] is Roll) by {
                assert(tokens.skip(1)[i] == tokens[i + 1]);
            }
            lemma_yard_run_dice_free(tokens.skip(1), ops1, out1);
        }
    }
}

/// The postfix form of a sequence without dice has no dice in it.
pub proof fn lemma_to_postfix_dice_free(tokens: Seq<Token>)
    requires
        dice_free(tokens),
    ensures
        to_postfix(tokens) matches Ok(p) ==> dice_free(p),
{
    lemma_yard_run_dice_free(tokens, Seq::empty(), Seq::empty());
    if let Ok((ops, out)) = yard_run(tokens, Seq::empty(), Seq::empty()) {
        lemma_flush_dice_free(ops, out);
    }
}

/// The number of `(` among `ops`.
pub open spec fn open_groups(ops: Seq<Token>) -> nat
    decreases ops.len(),
{
    if ops.len() == 0 {
        0
    } else if ops.last() == Token::OpenParen {
        open_groups(ops.drop_last()) + 1
    } else {
        open_groups(ops.drop_last())
    }
}

/// Whether every `)` of `tokens` closes a `(`, where `open` groups are open
/// before the first token.
pub open spec fn closes_match(tokens: Seq<Token>, open: nat) -> bool
    decreases tokens.len(),
{
    if tokens.len() == 0 {
        true
    } else {
        match tokens[0] {
            Token::OpenParen => closes_match(tokens.skip(1), open + 1),
            Token::CloseParen => open > 0 && closes_match(tokens.skip(1), (open - 1) as nat),
            _ => closes_match(tokens.skip(1), open),
        }
    }
}

/// Whether every `Sym` of `tokens` is one of the four operators.
pub open spec fn known_operators(tokens: Seq<Token>) -> bool {
    forall|i: int|
        0 <= i < tokens.len() ==> (#[trigger] tokens[i] matches Token::Sym(c) ==> is_operator(c))
}

/// Popping operators leaves every `(` on the stack.
proof fn lemma_pop_operators_groups(ops: Seq<Token>, out: Seq<Token>, min: nat)
    ensures
        open_groups(pop_operators(ops, out, min).0) == open_groups(ops),
    decreases ops.len(),
{
    if ops.len() > 0 && binds_at_least(ops.last(), min) {
        lemma_pop_operators_groups(ops.drop_last(), out.push(ops.last()), min);
    }
}

/// Closing a group fails exactly when no `(` is on the stack, and else
/// takes one `(` off it.
proof fn lemma_pop_to_open_groups(ops: Seq<Token>, out: Seq<Token>)
    ensures
        pop_to_open(ops, out) is None <==> open_groups(ops) == 0,
        pop_to_open(ops, out) matches Some((rest, _)) ==> open_groups(rest) + 1 == open_groups(
            ops,
        ),
    decreases ops.len(),
{
    if ops.len() > 0 && ops.last() != Token::OpenParen {
        lemma_pop_to_open_groups(ops.drop_last(), out.push(ops.last()));
    }
}

/// A run succeeds exactly when every `)` finds a `(`, counting those that
/// are on the stack at its start.
proof fn lemma_run_closes(tokens: Seq<Token>, ops: Seq<Token>, out: Seq<Token>)
    requires
        known_operators(tokens),
    ensures
        yard_run(tokens, ops, out) is Ok <==> closes_match(tokens, open_groups(ops)),
        yard_run(tokens, ops, out) matches Err(e) ==> e == ParseError::UnmatchedCloseParen,
    decreases tokens.len(),
{
    if tokens.len() > 0 {
        let t = tokens[0];
        let rest = tokens.skip(1);
        assert forall|i: int| 0 <= i < rest.len() implies (#[trigger] rest[i] matches Token::Sym(c)
            ==> is_operator(c)) by {
            assert(rest[i] == tokens[i + 1]);
        }
        match t {
            Token::Sym(c) => {
                lemma_pop_operators_groups(ops, out, precedence(c));
                let (kept, emitted) = pop_operators(ops, out, precedence(c));
                assert(kept.push(t).drop_last() =~= kept);
                lemma_run_closes(rest, kept.push(t), emitted);
            },
            Token::OpenParen => {
                assert(ops.push(t).drop_last() =~= ops);
                lemma_run_closes(rest, ops.push(t), out);
            },
            Token::CloseParen => {
                lemma_pop_to_open_groups(ops, out);
                if let Some((kept, emitted)) = pop_to_open(ops, out) {
                    lemma_run_closes(rest, kept, emitted);
                }
            },
            _ => {
                lemma_run_closes(rest, ops, out.push(t));
            },
        }
    }
}

/// Conversion fails exactly on a `)` that closes nothing: where every `Sym`
/// is an operator, a token sequence has a postfix form if and only if each
/// of its `)` has a `(` open before it, and has the fault of the unmatched
/// `)` otherwise.
pub proof fn theorem_unmatched_close(tokens: Seq<Token>)
    requires
        known_operators(tokens),
    ensures
        to_postfix(tokens) is Ok <==> closes_match(tokens, 0),
        !closes_match(tokens, 0) ==> to_postfix(tokens) == Err::<Seq<Token>, ParseError>(
            ParseError::UnmatchedCloseParen,
        ),
{
    lemma_run_closes(tokens, Seq::empty(), Seq::empty());
}

/// Conversion depends on nothing but the tokens: two sequences that hold
/// the same tokens have the same postfix form, or fail alike.
pub proof fn theorem_conversion_is_a_function(a: Vec<Token>, b: Vec<Token>)
    requires
        a@ == b@,
    ensures
        to_postfix(a@) == to_postfix(b@),
{
}

} // verus!
