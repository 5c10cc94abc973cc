//! A code generator for a register-based bytecode virtual machine.
//!
//! The generator turns parsed expression and statement events into a linear
//! sequence of fixed-width instructions over a small window of virtual
//! registers, while deduplicating constants, resolving lexical scopes and
//! closure upvalues, and patching deferred jump targets.

pub mod instr;
pub mod expr;
pub mod code;
pub mod laws;
