//! A verified interpreter for a tiny bracket-loop language on a byte tape.
//!
//! The library has two halves: a parser that turns source characters into a
//! sequence of instructions with pre-resolved jump targets, and a machine
//! that executes such a sequence against a fixed tape of 3000 byte cells.
//! All input and output is left to the caller: the machine reports what it
//! needs (a byte of input, a byte to write, a diagnostic dump) as a value.

pub mod interp;
pub mod parser;
