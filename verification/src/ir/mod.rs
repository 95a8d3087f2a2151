pub mod program;
pub mod typemap;
pub mod program_builder;
pub mod inkwell;
pub mod evaluation;
