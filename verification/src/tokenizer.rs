//! The lexer: text to tokens.

use vstd::prelude::*;
use vstd::std_specs::iter::IteratorSpec;
use crate::cursor::{peek_while, Cursor};
use crate::token::Token;

verus! {

/// The ASCII decimal digits.
pub open spec fn is_digit(c: char) -> bool {
    48 <= c as u32 <= 57
}

/// The number a digit stands for.
pub open spec fn digit_value(c: char) -> nat {
    (c as u32 - 48) as nat
}

/// Length of the longest prefix of `s` made of digits.
pub open spec fn digit_run(s: Seq<char>) -> nat
    decreases s.len(),
{
    if s.len() > 0 && is_digit(s[0]) {
        1 + digit_run(s.skip(1))
    } else {
        0
    }
}

/// The number that a string of digits denotes in base ten.
pub open spec fn decimal(s: Seq<char>) -> nat
    decreases s.len(),
{
    if s.len() == 0 {
        0
    } else {
        decimal(s.drop_last()) * 10 + digit_value(s.last())
    }
}

/// Whether every character of `s` is a digit.
pub open spec fn all_digits(s: Seq<char>) -> bool {
    forall|i: int| 0 <= i < s.len() ==> is_digit(#[trigger] s[i])
}

/// The number that `s` denotes in base ten. There is none when `s` is empty,
/// holds anything but digits, or denotes more than a `u32` holds.
pub open spec fn parse_number(s: Seq<char>) -> Option<u32> {
    if s.len() == 0 || !all_digits(s) || decimal(s) > u32::MAX {
        None
    } else {
        Some(decimal(s) as u32)
    }
}

/// The number at the front of `s`: its leading digit run, read in base ten.
pub open spec fn lex_number(s: Seq<char>) -> Option<u32> {
    parse_number(s.take(digit_run(s) as int))
}

/// The operand at the front of `s` and the number of characters that reading
/// it consumes. A digit run directly followed by `d` must be followed by a
/// second digit run, and the three make one dice roll; otherwise the digit run
/// is a literal.
pub open spec fn lex_operand(s: Seq<char>) -> (Option<Token>, nat) {
    let k = digit_run(s);
    match lex_number(s) {
        None => (None, k),
        Some(n1) => if k < s.len() && s[k as int] == 'd' {
            let rest = s.skip(k as int + 1);
            match lex_number(rest) {
                None => (None, k + 1 + digit_run(rest)),
                Some(n2) => (Some(Token::Roll { number: n1, sides: n2 }), k + 1 + digit_run(rest)),
            }
        } else {
            (Some(Token::Num(n1)), k)
        },
    }
}

/// The token that a single character denotes by itself, if any.
pub open spec fn lex_single(c: char) -> Option<Token> {
    if c == '(' {
        Some(Token::OpenParen)
    } else if c == ')' {
        Some(Token::CloseParen)
    } else if c == '+' || c == '-' || c == '*' || c == '/' {
        Some(Token::Sym(c))
    } else {
        None
    }
}

/// `t` followed by the tokens of `rest`, when `rest` lexes.
pub open spec fn followed_by(t: Seq<Token>, rest: Option<Seq<Token>>) -> Option<Seq<Token>> {
    match rest {
        Some(r) => Some(t + r),
        None => None,
    }
}

/// The tokens of `s`, or `None` when some part of `s` is no token. Spaces
/// separate tokens and are otherwise ignored.
pub open spec fn lex(s: Seq<char>) -> Option<Seq<Token>>
    decreases s.len(),
    via lex_decreases
{
    if s.len() == 0 {
        Some(Seq::empty())
    } else if s[0] == ' ' {
        lex(s.skip(1))
    } else if lex_single(s[0]) is Some {
        followed_by(seq![lex_single(s[0])->0], lex(s.skip(1)))
    } else {
        match lex_operand(s) {
            (Some(t), k) => followed_by(seq![t], lex(s.skip(k as int))),
            (None, _) => None,
        }
    }
}

/// Each step of `lex` goes on with a shorter text.
#[via_fn]
proof fn lex_decreases(s: Seq<char>) {
    lemma_operand_consumed(s);
}

/// A digit run is no longer than the text it starts.
pub proof fn lemma_digit_run_bound(s: Seq<char>)
    ensures
        digit_run(s) <= s.len(),
        forall|i: int| 0 <= i < digit_run(s) ==> is_digit(#[trigger] s[i]),
        digit_run(s) < s.len() ==> !is_digit(s[digit_run(s) as int]),
    decreases s.len(),
{
    if s.len() > 0 && is_digit(s[0]) {
        lemma_digit_run_bound(s.skip(1));
        assert forall|i: int| 0 <= i < digit_run(s) implies is_digit(#[trigger] s[i]) by {
            if i > 0 {
                assert(s[i] == s.skip(1)[i - 1]);
            }
        }
    }
}

/// Reading an operand consumes at least one character and stays inside the
/// text.
pub proof fn lemma_operand_consumed(s: Seq<char>)
    ensures
        lex_operand(s).1 <= s.len(),
        lex_operand(s).0 is Some ==> lex_operand(s).1 >= 1,
{
    lemma_digit_run_bound(s);
    let k = digit_run(s);
    if k < s.len() {
        lemma_digit_run_bound(s.skip(k as int + 1));
    }
}

/// Whether `c` is an ASCII decimal digit.
pub fn is_digit_char(c: char) -> (b: bool)
    ensures
        b == is_digit(c),
{
    let n: u32 = c as u32;
    48 <= n && n <= 57
}

/// The characters of `s`, in order.
pub fn chars_of(s: &str) -> (v: Vec<char>)
    ensures
        v@ == s@,
{
    broadcast use vstd::string::group_string_axioms;

    let mut it = s.chars();
    let mut v: Vec<char> = Vec::new();
    loop
        invariant
            v@ + it.remaining() == s@,
            it.decrease() is Some,
        decreases it.decrease()->0,
    {
        match it.next() {
            Some(c) => {
                v.push(c);
            },
            None => {
                assert(v@ + Seq::<char>::empty() =~= v@);
                return v;
            },
        }
    }
}

/// A prefix of a digit string denotes no more than the whole string.
pub proof fn lemma_decimal_prefix(s: Seq<char>, i: int)
    requires
        0 <= i <= s.len(),
    ensures
        decimal(s.take(i)) <= decimal(s),
    decreases s.len() - i,
{
    if i < s.len() {
        lemma_decimal_prefix(s, i + 1);
        assert(s.take(i + 1).drop_last() =~= s.take(i));
    } else {
        assert(s.take(i) =~= s);
    }
}

/// The digit run is the only prefix of digits that ends at a non-digit or at
/// the end of the text.
pub proof fn lemma_digit_run_unique(s: Seq<char>, k: int)
    requires
        0 <= k <= s.len(),
        forall|i: int| 0 <= i < k ==> is_digit(#[trigger] s[i]),
        k == s.len() || !is_digit(s[k]),
    ensures
        digit_run(s) == k,
    decreases s.len(),
{
    if k > 0 {
        let t = s.skip(1);
        assert forall|i: int| 0 <= i < k - 1 implies is_digit(#[trigger] t[i]) by {
            assert(t[i] == s[i + 1]);
        }
        lemma_digit_run_unique(t, k - 1);
    }
}

/// Reads a string of digits in base ten. Gives `None` for the empty string,
/// for a string that holds anything but digits, and for a number that a `u32`
/// cannot hold.
pub fn parse_digits(digits: &Vec<char>) -> (r: Option<u32>)
    ensures
        r == parse_number(digits@),
{
    if digits.len() == 0 {
        return None;
    }
    let mut acc: u64 = 0;
    let mut i: usize = 0;
    while i < digits.len()
        invariant
            0 <= i <= digits@.len(),
            acc == decimal(digits@.take(i as int)),
            acc <= u32::MAX,
            forall|j: int| 0 <= j < i ==> is_digit(#[trigger] digits@[j]),
        decreases digits@.len() - i,
    {
        let c: char = digits[i];
        if !is_digit_char(c) {
            return None;
        }
        let d: u64 = (c as u32 - 48) as u64;
        let next: u64 = acc * 10 + d;
        proof {
            assert(digits@.take(i + 1).drop_last() =~= digits@.take(i as int));
            assert(digits@.take(i + 1).last() == c);
            assert(next == decimal(digits@.take(i + 1)));
        }
        if next > 4294967295 {
            proof {
                lemma_decimal_prefix(digits@, i + 1);
            }
            return None;
        }
        acc = next;
        i = i + 1;
    }
    assert(digits@.take(i as int) =~= digits@);
    Some(acc as u32)
}

/// Consumes the digit run at the front of the cursor and reads it as a number.
pub fn consume_num(iter: &mut Cursor<char>) -> (r: Option<u32>)
    ensures
        r == lex_number(old(iter)@),
        final(iter)@ == old(iter)@.skip(digit_run(old(iter)@) as int),
{
    let ghost before = iter@;
    let accept = |c: &char| -> (b: bool)
        ensures
            b == is_digit(*c),
        { is_digit_char(*c) };
    let digits = peek_while(iter, accept).collect();
    proof {
        assert forall|i: int| 0 <= i < digits@.len() implies is_digit(#[trigger] before[i]) by {
            assert(call_ensures(accept, (&before[i],), true));
        }
        lemma_digit_run_unique(before, digits@.len() as int);
    }
    parse_digits(&digits)
}

/// Consumes the operand at the front of the cursor: a literal, or a dice roll
/// where a `d` and a second number follow the first directly.
pub fn consume_num_or_roll(iter: &mut Cursor<char>) -> (r: Option<Token>)
    ensures
        r == lex_operand(old(iter)@).0,
        final(iter)@ == old(iter)@.skip(lex_operand(old(iter)@).1 as int),
{
    let ghost before = iter@;
    proof {
        lemma_digit_run_bound(before);
    }
    let n1 = match consume_num(iter) {
        Some(n) => n,
        None => {
            return None;
        },
    };
    let ghost k = digit_run(before);
    let is_roll = match iter.peek() {
        Some(c) => c == 'd',
        None => false,
    };
    if is_roll {
        let _ = iter.next();
        let ghost rest = before.skip(k as int + 1);
        proof {
            assert(before.skip(k as int).skip(1) =~= rest);
            lemma_digit_run_bound(rest);
            assert(rest.skip(digit_run(rest) as int) =~= before.skip(k as int + 1 + digit_run(rest)));
        }
        match consume_num(iter) {
            Some(n2) => Some(Token::Roll { number: n1, sides: n2 }),
            None => None,
        }
    } else {
        Some(Token::Num(n1))
    }
}

/// What a lexing result denotes.
pub open spec fn tokens_of(r: Option<Vec<Token>>) -> Option<Seq<Token>> {
    match r {
        Some(v) => Some(v@),
        None => None,
    }
}

/// Splits `s` into tokens. Fails as a whole when any part of `s` is no token:
/// a character outside the language, a number too large for a `u32`, or a `d`
/// without a face count behind it.
pub fn tokenize(s: &str) -> (r: Option<Vec<Token>>)
    ensures
        tokens_of(r) == lex(s@),
{
    let mut iterator = Cursor::new(chars_of(s));
    let mut result: Vec<Token> = Vec::new();
    assert(Seq::<Token>::empty() + lex(s@).unwrap() =~= lex(s@).unwrap());
    loop
        invariant
            lex(s@) == followed_by(result@, lex(iterator@)),
        decreases iterator@.len(),
    {
        let ghost rem = iterator@;
        let ghost done = result@;
        match iterator.peek() {
            None => {
                assert(done + Seq::<Token>::empty() =~= done);
                return Some(result);
            },
            Some(c) => {
                if c == ' ' {
                    let _ = iterator.next();
                } else if c == '(' || c == ')' || c == '+' || c == '-' || c == '*' || c == '/' {
                    let t = if c == '(' {
                        Token::OpenParen
                    } else if c == ')' {
                        Token::CloseParen
                    } else {
                        Token::Sym(c)
                    };
                    result.push(t);
                    let _ = iterator.next();
                    proof {
                        lemma_followed_by_assoc(done, t, lex(rem.skip(1)));
                    }
                } else {
                    proof {
                        lemma_operand_consumed(rem);
                    }
                    match consume_num_or_roll(&mut iterator) {
                        Some(t) => {
                            result.push(t);
                            proof {
                                lemma_followed_by_assoc(
                                    done,
                                    t,
                                    lex(rem.skip(lex_operand(rem).1 as int)),
                                );
                            }
                        },
                        None => {
                            return None;
                        },
                    }
                }
            },
        }
    }
}

/// Appending a token to what was lexed so far, then the rest, is the same as
/// what was lexed so far followed by the token and the rest.
proof fn lemma_followed_by_assoc(done: Seq<Token>, t: Token, rest: Option<Seq<Token>>)
    ensures
        followed_by(done, followed_by(seq![t], rest)) == followed_by(done.push(t), rest),
{
    if let Some(r) = rest {
        assert(done + (seq![t] + r) =~= done.push(t) + r);
    }
}

} // verus!
