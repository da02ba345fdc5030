//! The interpreter: normal-order reduction of pure lambda terms to normal
//! form, with lazily expanded macros.
pub mod lexer;
pub mod term;
pub mod preprocessor;
pub mod repl;
pub mod roundtrip;
