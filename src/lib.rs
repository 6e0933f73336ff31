//! Solver for the numbers round: combine some of a multiset of numbers with
//! `+ - * /` into an expression whose exact value is a target.
//!
//! - [`rational`]: exact fractions in lowest terms.
//! - [`expr`]: tokens, lexing text into tokens and rendering them back.
//! - [`postfix`]: postfix validity and evaluation by a stack pass.
//! - [`state`]: the search state, its legal moves, apply and undo.
//! - [`solver`], [`search`]: depth-first search for solutions.
//! - [`round`]: random rounds.
//! - [`fix`], [`tree`], [`infix`]: prefix text, expression trees and infix
//!   operand lists.

pub mod expr;
pub mod fix;
pub mod infix;
pub mod postfix;
pub mod rational;
pub mod round;
pub mod search;
pub mod solver;
pub mod state;
pub mod tree;
