//! A small stack-based virtual machine: an assembler that turns line-oriented
//! source text into a program of bytecode functions, and an interpreter that
//! runs such a program on an explicit call stack.
//!
//! - `instructions`, `assembly`: the instruction set and the program model.
//! - `text`, `syntax`: reading lines, fields and numbers; the grammar of a
//!   line.
//! - `assembler`: what assembling a source text means, and what holds of
//!   every assembled program. `loader`: the assembler itself.
//! - `arith`: arithmetic on machine words.
//! - `machine`: what running a program means, and what holds of every
//!   execution. `interpreter`: the interpreter itself.
//! - `breakpoints`: a program runs as it does without its breakpoints.

pub mod instructions;
pub mod assembly;
pub mod arith;
pub mod machine;
pub mod interpreter;
pub mod text;
pub mod syntax;
pub mod assembler;
pub mod loader;
pub mod breakpoints;
