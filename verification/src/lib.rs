//! An ahead-of-time in-memory compiler for Brainfuck.
//!
//! The pipeline has three verified stages: a parser that folds runs of
//! commands and rewrites common loop idioms into fused operations
//! ([`parser`]), a typed intermediate representation ([`instruction`]),
//! and a code generator that lowers the representation to x86-64 machine
//! code through an external assembler ([`compiler`]).  The assembler
//! itself is an outside collaborator; the mnemonic stream handed to it
//! is modelled in [`assembler`].  A straightforward interpreter of the
//! representation, in [`semantics`], states what the peephole rewrites
//! must preserve.

pub mod assembler;
pub mod compiler;
pub mod instruction;
pub mod parser;
pub mod semantics;
