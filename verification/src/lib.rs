//! Breakpoint bookkeeping and instruction-level stepping for a contract debugger.
pub mod debugger;
pub mod error;
pub mod runtime;
pub mod text;
