//! The native compiler's front end: surface syntax, lexer and parser, macro
//! expansion, closure conversion, and the driver that runs them.
pub mod ast;
pub mod lexer;
pub mod closure;
pub mod preprocessor;
pub mod driver;
pub mod roundtrip;
