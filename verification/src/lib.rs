//! Compiler core for a small synchronous dataflow language: programs are
//! sets of signal equations over named inputs, outputs, constructor
//! arguments and delayed registers.  The library classifies every name,
//! extracts scope-aware dependencies, orders the equations topologically,
//! rejects ill-formed programs, and assembles an evaluation plan together
//! with a reference interpreter for the generated runtime semantics.

pub mod ast;
pub mod lrfrp_ir;
pub mod runtime;

pub use ast::Ast;
pub use lrfrp_ir::LrfrpIR;
