//! An interpreter for a minimal tape-based language of eight one-character
//! instructions.  Source text is tokenized once, loop brackets are resolved
//! into a jump table, and the resulting instruction sequence runs against a
//! sparse, unbounded byte tape with a movable cursor.
//!
//! The semantics of the machine is stated once, as a mathematical
//! step function in [`machine`], and both the tokenizer and the execution
//! engine are verified against it.

pub mod exec;
pub mod laws;
pub mod machine;
pub mod parse;
pub mod session;
pub mod token;
