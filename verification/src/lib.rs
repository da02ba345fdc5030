//! purell: a small untyped lambda calculus. The `compiler` modules hold the
//! front end of the native compiler (lexing, parsing, macro expansion and
//! closure conversion); the `interp` modules hold the normal-order
//! interpreter and its interactive session.
pub mod compiler;
pub mod interp;
pub mod includes;
pub mod text;
