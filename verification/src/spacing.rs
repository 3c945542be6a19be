//! How lexing behaves where two pieces of text meet, and why spaces between
//! tokens do not matter.

use vstd::prelude::*;
use crate::dice::outcome;
use crate::token::Token;
use crate::tokenizer::{
    digit_run,
    followed_by,
    is_digit,
    lemma_digit_run_bound,
    lemma_digit_run_unique,
    lemma_operand_consumed,
    lex,
    lex_number,
    lex_operand,
    lex_single,
};

verus! {

/// The characters that can be part of an operand: the digits and `d`.
pub open spec fn in_operand(c: char) -> bool {
    is_digit(c) || c == 'd'
}

/// Whether writing `b` directly behind `a` keeps their tokens apart: not both
/// the last character of `a` and the first of `b` belong to operands.
pub open spec fn separable(a: Seq<char>, b: Seq<char>) -> bool {
    a.len() == 0 || b.len() == 0 || !(in_operand(a.last()) && in_operand(b[0]))
}

/// The tokens of two texts one after the other, when both lex.
pub open spec fn both(x: Option<Seq<Token>>, y: Option<Seq<Token>>) -> Option<Seq<Token>> {
    match x {
        Some(t) => followed_by(t, y),
        None => None,
    }
}

/// What follows a text does not change its digit run, unless the run reaches
/// the end of the text and a digit follows.
proof fn lemma_digit_run_concat(a: Seq<char>, b: Seq<char>)
    requires
        digit_run(a) < a.len() || b.len() == 0 || !is_digit(b[0]),
    ensures
        digit_run(a + b) == digit_run(a),
        lex_number(a + b) == lex_number(a),
{
    lemma_digit_run_bound(a);
    let k = digit_run(a) as int;
    assert forall|i: int| 0 <= i < k implies is_digit(#[trigger] (a + b)[i]) by {
        assert((a + b)[i] == a[i]);
    }
    if k < a.len() {
        assert((a + b)[k] == a[k]);
    } else if b.len() > 0 {
        assert((a + b)[k] == b[0]);
    }
    lemma_digit_run_unique(a + b, k);
    assert((a + b).take(k) =~= a.take(k));
}

/// What follows a text does not change its first operand, where the two are
/// separable.
proof fn lemma_lex_operand_concat(a: Seq<char>, b: Seq<char>)
    requires
        a.len() > 0,
        separable(a, b),
    ensures
        lex_operand(a + b) == lex_operand(a),
{
    lemma_digit_run_bound(a);
    let k = digit_run(a) as int;
    if k == a.len() {
        assert(is_digit(a[k - 1]));
    }
    lemma_digit_run_concat(a, b);
    if lex_number(a) is Some {
        if k < a.len() {
            assert((a + b)[k] == a[k]);
            if a[k] == 'd' {
                let rest = a.skip(k + 1);
                assert((a + b).skip(k + 1) =~= rest + b);
                lemma_digit_run_bound(rest);
                if digit_run(rest) == rest.len() {
                    if rest.len() > 0 {
                        assert(is_digit(rest[rest.len() - 1]));
                        assert(rest[rest.len() - 1] == a.last());
                    } else {
                        assert(a.last() == a[k]);
                    }
                }
                lemma_digit_run_concat(rest, b);
            }
        } else if b.len() > 0 {
            assert((a + b)[k] == b[0]);
        }
    }
}

/// Putting tokens in front commutes with joining two lexing results.
proof fn lemma_followed_by_both(t: Seq<Token>, x: Option<Seq<Token>>, y: Option<Seq<Token>>)
    ensures
        followed_by(t, both(x, y)) == both(followed_by(t, x), y),
{
    if let Some(u) = x {
        if let Some(v) = y {
            assert(t + (u + v) =~= (t + u) + v);
        }
    }
}

/// Where two texts are separable, the tokens of their concatenation are the
/// tokens of the first followed by the tokens of the second.
pub proof fn lemma_lex_concat(a: Seq<char>, b: Seq<char>)
    requires
        separable(a, b),
    ensures
        lex(a + b) == both(lex(a), lex(b)),
    decreases a.len(),
{
    if a.len() == 0 {
        assert(a + b =~= b);
        if let Some(r) = lex(b) {
            assert(Seq::<Token>::empty() + r =~= r);
        }
    } else {
        let c = a[0];
        assert((a + b)[0] == c);
        if c == ' ' || lex_single(c) is Some {
            let rest = a.skip(1);
            assert((a + b).skip(1) =~= rest + b);
            if rest.len() > 0 {
                assert(rest.last() == a.last());
            }
            lemma_lex_concat(rest, b);
            if c != ' ' {
                lemma_followed_by_both(seq![lex_single(c)->0], lex(rest), lex(b));
            }
        } else {
            lemma_lex_operand_concat(a, b);
            lemma_operand_consumed(a);
            if let (Some(t), k) = lex_operand(a) {
                let rest = a.skip(k as int);
                assert((a + b).skip(k as int) =~= rest + b);
                if rest.len() > 0 {
                    assert(rest.last() == a.last());
                }
                lemma_lex_concat(rest, b);
                lemma_followed_by_both(seq![t], lex(rest), lex(b));
            }
        }
    }
}

/// Spaces between tokens do not matter: a space put where two separable
/// texts meet changes neither the tokens nor, whatever is rolled, the
/// outcome.
pub proof fn theorem_space_between(a: Seq<char>, b: Seq<char>, totals: Seq<nat>)
    requires
        separable(a, b),
    ensures
        lex(a + seq![' '] + b) == lex(a + b),
        outcome(a + seq![' '] + b, totals) == outcome(a + b, totals),
{
    let spaced = seq![' '] + b;
    assert(a + seq![' '] + b =~= a + spaced);
    assert(spaced[0] == ' ');
    assert(spaced.skip(1) =~= b);
    assert(lex(spaced) == lex(b));
    assert(!in_operand(' '));
    lemma_lex_concat(a, spaced);
    lemma_lex_concat(a, b);
}

} // verus!
