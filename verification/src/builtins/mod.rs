pub mod builtin_functions;
