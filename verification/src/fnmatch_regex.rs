//! Shell-style filename patterns compiled to regular expressions.

pub mod class;
pub mod error;
pub mod glob;
