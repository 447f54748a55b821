//! The calculator of the shell

pub mod arithmetic;
pub mod ast;

pub use self::arithmetic::{eval, expression, CalcError, ParseError};

