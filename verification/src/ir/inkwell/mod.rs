pub mod builder;
pub mod typemap;
