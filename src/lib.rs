//! Solver for verbal-arithmetic puzzles such as `SEND+MORE=MONEY`.
//!
//! The text of a puzzle is parsed into an [`Equation`] (its left-hand side in
//! postfix order, its result word, its letters and its leading letters), which
//! is evaluated under a letter-to-digit assignment and searched by
//! backtracking for an assignment under which it holds.
pub mod equation;
pub mod eval;
pub mod parse;
pub mod search;

pub use equation::{Equation, EquationError, Operator, Symbol, Token};
pub use eval::apply_operation;
pub use parse::parse_input;
pub use search::backtrack;
