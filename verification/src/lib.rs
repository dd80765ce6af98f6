//! Computational core of a calculator: a saturating integer arithmetic engine
//! built from bitwise primitives, an infix expression evaluator on top of it,
//! and the token buffer that the buttons of the calculator fill.

pub mod components;
pub mod logic;
pub mod types;
