//! An assembler and an emulator for a small sixteen-bit instruction set:
//! sixteen one-byte registers, 256 bytes of memory, and a program counter
//! that counts two-byte instruction slots.
//!
//! - [`isa`] is the opcode table, shared by both tools: instructions, their
//!   two-byte encoding, and the decoder that undoes it.
//! - [`text`] turns source text into tokens and tokens into numbers.
//! - [`assembler`] reads tokens into statements and label definitions, and
//!   resolves and encodes them into a binary program.
//! - [`machine`] loads a binary program and runs the fetch-decode-execute
//!   cycle on it, turn by turn or up to a step limit.

pub mod assembler;
pub mod isa;
pub mod machine;
pub mod text;
