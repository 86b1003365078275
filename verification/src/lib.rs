//! A regular-expression search engine in the style of the Pike virtual machine.
//!
//! A regular expression is given as a program: a sequence of [`regex::Instruction`]s.
//! [`interpreter::search`] runs every feasible thread of the program in lock step
//! over the input and reports the longest match.

pub mod interpreter;
pub mod regex;
