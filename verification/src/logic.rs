//! The arithmetic engine and the expression evaluator.

pub mod arithmetic;
pub mod expressions;
pub mod identities;
pub mod numeral;
pub mod parsing;
