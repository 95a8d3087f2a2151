pub mod common;
pub mod expression;
pub mod statement;
pub mod item;
pub mod compile_unit;
