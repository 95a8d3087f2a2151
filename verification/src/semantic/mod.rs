pub mod symbol_table;
pub mod check;
