//! A small stack-based virtual machine together with a single-pass
//! assembler for a Forth-like surface syntax.
//!
//! The machine executes a fixed list of instructions over an evaluation
//! stack of signed 32-bit integers and a return-address stack; a
//! dictionary maps user-defined word names to entry addresses.  The
//! assembler turns whitespace-separated source text into an instruction
//! list plus such a dictionary.

pub mod instr;
pub mod vm;
pub mod laws;
pub mod token;
pub mod parser;
