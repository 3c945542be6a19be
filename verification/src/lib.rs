//! Dice-roll arithmetic: lexing, operator-precedence conversion to postfix,
//! and postfix evaluation with an injected source of randomness.

pub mod token;
pub mod cursor;
pub mod tokenizer;
pub mod parser;
pub mod eval;
pub mod roller;
pub mod dice;
pub mod expr;
pub mod spacing;
pub mod state;
pub mod message;
