//! Expression trees as the reference meaning of infix notation, and the
//! proofs that conversion and evaluation agree with them.
//!
//! A tree fixes how an expression groups. Its infix form writes the tree down
//! with the usual precedence and left associativity; the theorems here say
//! that the converter turns that infix form into the tree's postfix form, and
//! that evaluating the postfix form gives the tree's value.

use vstd::prelude::*;
use crate::dice::{outcome, DiceError};
use crate::eval::{
    apply_operator,
    eval_dice_free,
    eval_prefix,
    lemma_dice_free_totals,
    lemma_fault_stays,
    EvalError,
};
use crate::parser::{
    binds_at_least,
    dice_free,
    flush,
    pop_operators,
    pop_to_open,
    to_postfix,
    yard_run,
    ParseError,
};
use crate::token::{is_operator, precedence, Token};
use crate::tokenizer::lex;

verus! {

/// An arithmetic expression over literals.
pub enum Expr {
    /// A literal.
    Lit(u32),
    /// An expression in parentheses.
    Group(Box<Expr>),
    /// Left operand, operator character, right operand.
    Bin(Box<Expr>, char, Box<Expr>),
}

/// How tightly the outermost construct of `e` binds: the precedence of its
/// operator, and 4 for a literal or a group.
pub open spec fn level(e: Expr) -> nat {
    match e {
        Expr::Lit(_) => 4,
        Expr::Group(_) => 4,
        Expr::Bin(_, op, _) => precedence(op),
    }
}

/// Whether the tree is one that infix notation denotes without further
/// parentheses: every operator is one of the four, its left operand binds at
/// least as tightly as it does (chains lean left), and its right operand
/// binds strictly tighter.
pub open spec fn well_formed(e: Expr) -> bool
    decreases e,
{
    match e {
        Expr::Lit(_) => true,
        Expr::Group(inner) => well_formed(*inner),
        Expr::Bin(l, op, r) => is_operator(op) && well_formed(*l) && well_formed(*r) && level(*l)
            >= precedence(op) && level(*r) > precedence(op),
    }
}

/// The expression in infix notation.
pub open spec fn infix(e: Expr) -> Seq<Token>
    decreases e,
{
    match e {
        Expr::Lit(n) => seq![Token::Num(n)],
        Expr::Group(inner) => seq![Token::OpenParen] + infix(*inner) + seq![Token::CloseParen],
        Expr::Bin(l, op, r) => infix(*l) + seq![Token::Sym(op)] + infix(*r),
    }
}

/// The expression in postfix notation.
pub open spec fn postfix(e: Expr) -> Seq<Token>
    decreases e,
{
    match e {
        Expr::Lit(n) => seq![Token::Num(n)],
        Expr::Group(inner) => postfix(*inner),
        Expr::Bin(l, op, r) => postfix(*l) + postfix(*r) + seq![Token::Sym(op)],
    }
}

/// The value of the expression: operands left before right, checked `u32`
/// arithmetic, division truncating toward zero. The first fault met is the
/// result.
pub open spec fn value(e: Expr) -> Result<u32, EvalError>
    decreases e,
{
    match e {
        Expr::Lit(n) => Ok(n),
        Expr::Group(inner) => value(*inner),
        Expr::Bin(l, op, r) => match value(*l) {
            Err(x) => Err(x),
            Ok(a) => match value(*r) {
                Err(x) => Err(x),
                Ok(b) => apply_operator(op, a, b),
            },
        },
    }
}

/// The operators that are still pending when the converter has read the infix
/// form of `e`, bottom first.
pub open spec fn pending(e: Expr) -> Seq<Token>
    decreases e,
{
    match e {
        Expr::Lit(_) => Seq::empty(),
        Expr::Group(_) => Seq::empty(),
        Expr::Bin(_, op, r) => seq![Token::Sym(op)] + pending(*r),
    }
}

/// What the converter has emitted when it has read the infix form of `e`.
pub open spec fn emitted(e: Expr) -> Seq<Token>
    decreases e,
{
    match e {
        Expr::Lit(n) => seq![Token::Num(n)],
        Expr::Group(inner) => postfix(*inner),
        Expr::Bin(l, _, r) => postfix(*l) + emitted(*r),
    }
}

/// Whether every token of `p` is an operator of precedence `min` or more.
pub open spec fn all_bind(p: Seq<Token>, min: nat) -> bool {
    forall|i: int| 0 <= i < p.len() ==> binds_at_least(#[trigger] p[i], min)
}

/// Flushing a stack flushes what lies on top first.
proof fn lemma_flush_suffix(s: Seq<Token>, p: Seq<Token>, out: Seq<Token>)
    ensures
        flush(s + p, out) == flush(s, flush(p, out)),
    decreases p.len(),
{
    if p.len() == 0 {
        assert(s + p =~= s);
    } else {
        assert((s + p).drop_last() =~= s + p.drop_last());
        lemma_flush_suffix(s, p.drop_last(), out.push(p.last()));
    }
}

/// Popping for an operator first takes everything on top that binds at
/// least as tightly.
proof fn lemma_pop_operators_suffix(s: Seq<Token>, p: Seq<Token>, out: Seq<Token>, min: nat)
    requires
        all_bind(p, min),
    ensures
        pop_operators(s + p, out, min) == pop_operators(s, flush(p, out), min),
    decreases p.len(),
{
    if p.len() == 0 {
        assert(s + p =~= s);
    } else {
        assert((s + p).drop_last() =~= s + p.drop_last());
        assert(binds_at_least(p[p.len() - 1], min));
        lemma_pop_operators_suffix(s, p.drop_last(), out.push(p.last()), min);
    }
}

/// Closing a group first takes every operator on top.
proof fn lemma_pop_to_open_suffix(s: Seq<Token>, p: Seq<Token>, out: Seq<Token>)
    requires
        all_bind(p, 0),
    ensures
        pop_to_open(s + p, out) == pop_to_open(s, flush(p, out)),
    decreases p.len(),
{
    if p.len() == 0 {
        assert(s + p =~= s);
    } else {
        assert((s + p).drop_last() =~= s + p.drop_last());
        assert(binds_at_least(p[p.len() - 1], 0));
        lemma_pop_to_open_suffix(s, p.drop_last(), out.push(p.last()));
    }
}

/// What a tree leaves pending are operators that bind at least as tightly as
/// the tree.
proof fn lemma_pending_binds(e: Expr)
    requires
        well_formed(e),
    ensures
        all_bind(pending(e), level(e)),
        all_bind(pending(e), 0),
    decreases e,
{
    match e {
        Expr::Bin(_, op, r) => {
            lemma_pending_binds(*r);
            assert forall|i: int| 0 <= i < pending(e).len() implies binds_at_least(
                #[trigger] pending(e)[i],
                level(e),
            ) by {
                if i > 0 {
                    assert(pending(e)[i] == pending(*r)[i - 1]);
                }
            }
        },
        _ => {},
    }
}

/// What a tree has emitted, followed by what it left pending, top first, is
/// its postfix form.
proof fn lemma_flush_pending(e: Expr, out: Seq<Token>)
    ensures
        flush(pending(e), out + emitted(e)) == out + postfix(e),
    decreases e,
{
    match e {
        Expr::Bin(l, op, r) => {
            let first = seq![Token::Sym(op)];
            let base = out + postfix(*l);
            lemma_flush_suffix(first, pending(*r), out + emitted(e));
            assert(out + emitted(e) =~= base + emitted(*r));
            lemma_flush_pending(*r, base);
            assert(first.drop_last() =~= Seq::<Token>::empty());
            assert(first.last() == Token::Sym(op));
            assert(flush(
                Seq::<Token>::empty(),
                (base + postfix(*r)).push(Token::Sym(op)),
            ) == (base + postfix(*r)).push(Token::Sym(op)));
            assert(flush(first, base + postfix(*r)) == (base + postfix(*r)).push(Token::Sym(op)));
            assert((base + postfix(*r)).push(Token::Sym(op)) =~= out + postfix(e));
        },
        _ => {},
    }
}

/// The parts of a sequence that starts with one given token.
proof fn lemma_run_first(t: Token, rest: Seq<Token>)
    ensures
        (seq![t] + rest).len() > 0,
        (seq![t] + rest)[0] == t,
        (seq![t] + rest).skip(1) == rest,
{
    assert((seq![t] + rest).skip(1) =~= rest);
}

/// Reading the infix form of a tree leaves the tree's pending operators on
/// the stack and has emitted the rest of its postfix form, provided that the
/// operator on top of the stack before binds less tightly than the tree.
proof fn lemma_run_infix(e: Expr, rest: Seq<Token>, ops: Seq<Token>, out: Seq<Token>)
    requires
        well_formed(e),
        ops.len() == 0 || !binds_at_least(ops.last(), level(e)),
    ensures
        yard_run(infix(e) + rest, ops, out) == yard_run(
            rest,
            ops + pending(e),
            out + emitted(e),
        ),
    decreases e,
{
    match e {
        Expr::Lit(n) => {
            lemma_run_first(Token::Num(n), rest);
            assert(ops + pending(e) =~= ops);
            assert(out + emitted(e) =~= out.push(Token::Num(n)));
        },
        Expr::Group(inner) => {
            let close = seq![Token::CloseParen] + rest;
            let body = infix(*inner) + close;
            assert(infix(e) + rest =~= seq![Token::OpenParen] + body);
            lemma_run_first(Token::OpenParen, body);
            let ops1 = ops.push(Token::OpenParen);
            lemma_run_infix(*inner, close, ops1, out);
            let ops2 = ops1 + pending(*inner);
            let out2 = out + emitted(*inner);
            lemma_run_first(Token::CloseParen, rest);
            lemma_pending_binds(*inner);
            lemma_pop_to_open_suffix(ops1, pending(*inner), out2);
            lemma_flush_pending(*inner, out);
            assert(ops1.drop_last() =~= ops);
            assert(pop_to_open(ops2, out2) == Some((ops, out + postfix(*inner))));
            assert(ops + pending(e) =~= ops);
        },
        Expr::Bin(l, op, r) => {
            let tail = infix(*r) + rest;
            let mid = seq![Token::Sym(op)] + tail;
            assert(infix(e) + rest =~= infix(*l) + mid);
            lemma_run_infix(*l, mid, ops, out);
            let ops1 = ops + pending(*l);
            let out1 = out + emitted(*l);
            lemma_run_first(Token::Sym(op), tail);
            lemma_pending_binds(*l);
            assert(all_bind(pending(*l), precedence(op)));
            lemma_pop_operators_suffix(ops, pending(*l), out1, precedence(op));
            lemma_flush_pending(*l, out);
            let out2 = out + postfix(*l);
            assert(pop_operators(ops, out2, precedence(op)) == (ops, out2));
            let ops2 = ops.push(Token::Sym(op));
            lemma_run_infix(*r, rest, ops2, out2);
            assert(ops2 + pending(*r) =~= ops + pending(e));
            assert(out2 + emitted(*r) =~= out + emitted(e));
        },
    }
}

/// The converter turns the infix form of a well-formed tree into its postfix
/// form.
pub proof fn theorem_conversion(e: Expr)
    requires
        well_formed(e),
    ensures
        to_postfix(infix(e)) == Ok::<Seq<Token>, ParseError>(postfix(e)),
{
    let none = Seq::<Token>::empty();
    lemma_run_infix(e, none, none, none);
    assert(infix(e) + none =~= infix(e));
    assert(none + pending(e) =~= pending(e));
    lemma_flush_pending(e, none);
    assert(none + emitted(e) =~= emitted(e));
    assert(none + postfix(e) =~= postfix(e));
}

/// The postfix form of a tree holds no dice.
pub proof fn lemma_postfix_dice_free(e: Expr)
    ensures
        dice_free(postfix(e)),
    decreases e,
{
    match e {
        Expr::Lit(_) => {},
        Expr::Group(inner) => {
            lemma_postfix_dice_free(*inner);
        },
        Expr::Bin(l, _, r) => {
            lemma_postfix_dice_free(*l);
            lemma_postfix_dice_free(*r);
        },
    }
}

/// Evaluating the postfix form of a tree, wherever it stands in a sequence,
/// pushes the tree's value, or raises the tree's fault.
proof fn lemma_eval_postfix_at(
    e: Expr,
    tokens: Seq<Token>,
    totals: Seq<nat>,
    init: Seq<u32>,
    n: nat,
)
    requires
        n + postfix(e).len() <= tokens.len(),
        tokens.subrange(n as int, n as int + postfix(e).len()) == postfix(e),
    ensures
        eval_prefix(tokens, totals, init, n + postfix(e).len()) == match eval_prefix(
            tokens,
            totals,
            init,
            n,
        ) {
            Err(x) => Err(x),
            Ok(stack) => match value(e) {
                Err(x) => Err(x),
                Ok(v) => Ok(stack.push(v)),
            },
        },
    decreases e,
{
    let here = eval_prefix(tokens, totals, init, n);
    let len = postfix(e).len();
    if here is Err {
        lemma_fault_stays(tokens, totals, init, n, n + len);
    } else {
        let stack = here->Ok_0;
        match e {
            Expr::Lit(v) => {
                assert(tokens[n as int] == postfix(e)[0]);
            },
            Expr::Group(inner) => {
                lemma_eval_postfix_at(*inner, tokens, totals, init, n);
            },
            Expr::Bin(l, op, r) => {
                let pl = postfix(*l);
                let pr = postfix(*r);
                assert(tokens.subrange(n as int, n as int + pl.len()) =~= pl) by {
                    assert forall|i: int| 0 <= i < pl.len() implies tokens[n + i] == pl[i] by {
                        assert(tokens[n + i] == postfix(e)[i]);
                    }
                }
                lemma_eval_postfix_at(*l, tokens, totals, init, n);
                let m = n + pl.len();
                assert(tokens.subrange(m as int, m as int + pr.len()) =~= pr) by {
                    assert forall|i: int| 0 <= i < pr.len() implies tokens[m + i] == pr[i] by {
                        assert(tokens[m + i] == postfix(e)[pl.len() as int + i]);
                    }
                }
                lemma_eval_postfix_at(*r, tokens, totals, init, m);
                let k = m + pr.len();
                assert(tokens[k as int] == postfix(e)[pl.len() as int + pr.len()]);
                assert(k + 1 == n + len);
                match value(*l) {
                    Err(x) => {
                        lemma_fault_stays(tokens, totals, init, m, n + len);
                    },
                    Ok(a) => match value(*r) {
                        Err(x) => {
                            lemma_fault_stays(tokens, totals, init, k, n + len);
                        },
                        Ok(b) => {
                            let full = stack.push(a).push(b);
                            assert(eval_prefix(tokens, totals, init, k) == Ok::<
                                Seq<u32>,
                                EvalError,
                            >(full));
                            assert(full.take(full.len() - 2) =~= stack);
                        },
                    },
                }
            },
        }
    }
}

/// Evaluating the postfix form of a tree gives the tree's value.
pub proof fn theorem_evaluation(e: Expr)
    ensures
        eval_dice_free(postfix(e)) == value(e),
{
    let p = postfix(e);
    let zeros = Seq::new(p.len(), |i: int| 0nat);
    assert(p.subrange(0, p.len() as int) =~= p);
    lemma_eval_postfix_at(e, p, zeros, Seq::empty(), 0);
}

/// An expression without dice evaluates to what ordinary arithmetic gives:
/// where the text `s` lexes to the infix form of a well-formed tree, the
/// outcome of evaluating `s` is the value of that tree, whatever is rolled.
pub proof fn theorem_infix_value(s: Seq<char>, e: Expr, totals: Seq<nat>)
    requires
        well_formed(e),
        lex(s) == Some(infix(e)),
    ensures
        outcome(s, totals) == match value(e) {
            Ok(v) => Ok(v),
            Err(x) => Err(DiceError::Evaluation(x)),
        },
{
    theorem_conversion(e);
    theorem_evaluation(e);
    lemma_postfix_dice_free(e);
    let p = postfix(e);
    lemma_dice_free_totals(p, totals, Seq::new(p.len(), |i: int| 0nat), Seq::empty(), p.len());
}

} // verus!
