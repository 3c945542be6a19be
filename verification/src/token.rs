//! The lexical tokens of the dice-expression language.

use vstd::prelude::*;

verus! {

/// One lexical token. `Sym` carries one of the four operator characters when it
/// comes from the lexer; `Roll` is the dice primitive "`number` d `sides`".
#[derive(Debug, Clone, Copy, PartialEq, Eq, Structural)]
pub enum Token {
    Num(u32),
    Sym(char),
    OpenParen,
    CloseParen,
    Roll { number: u32, sides: u32 },
}

/// The characters that denote a binary operator.
pub open spec fn is_operator(c: char) -> bool {
    c == '+' || c == '-' || c == '*' || c == '/'
}

/// Binding strength of an operator character; 0 for any other character.
pub open spec fn precedence(c: char) -> nat {
    if c == '*' || c == '/' {
        3
    } else if c == '+' || c == '-' {
        2
    } else {
        0
    }
}

} // verus!
