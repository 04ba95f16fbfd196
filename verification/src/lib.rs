//! A small language for concise mathematical expressions.
//!
//! - Numbers are doubles, given by their bits; a result that is infinite or no
//!   number is a failure.
//! - Variables are single letters of the basic Latin alphabet.
//! - Multiplication is implied where an operator is left out, unless the right
//!   operand is a numeral.
//! - Operations are binary and written between their operands; a minus sign at
//!   the start of an expression or of a group subtracts from zero.
//! - Operations group to the left, exponentiation to the right, unless
//!   parentheses or precedence say otherwise:
//!
//! | Operator | Meaning      | Precedence |
//! | -------- | ------------ | ---------- |
//! | `^`      | Exponentiate | 2          |
//! | `*`      | Multiply     | 1          |
//! | `/`      | Divide       | 1          |
//! | `+`      | Add          | 0          |
//! | `-`      | Subtract     | 0          |
//!
//! Text is split into tokens, the tokens are grouped into a tree, and the tree
//! is evaluated step by step: the library decides every step and asks the
//! caller for the arithmetic of doubles. Every failure carries the span of the
//! text that caused it.

/// The failures of reading and of evaluating.
pub mod error;

/// Characters of texts and of messages.
pub mod text;

/// Numerals: their syntax and the limit of their size.
pub mod numeral;

/// The limit of the size of numerals as a number.
pub mod limit;

/// Text to tokens.
pub mod lexer;

/// Tokens to a tree.
pub mod parser;

/// The parts of a tree and the text that each of them is read from.
pub mod parts;

/// A tree to its value.
pub mod interpreter;
