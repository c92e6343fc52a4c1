//! Minilux: a small imperative scripting language engine.
//!
//! The crate provides the execution core of the language: the tagged
//! runtime value with its coercion rules, the flat mutable environment
//! (variables and user-defined functions), the evaluator for statement
//! sequences with the function-call shadow/restore protocol, and module
//! resolution with cycle detection. Everything the engine does to the
//! outside world (console, filesystem queries, sockets, shell, clock)
//! goes through the [`host::Host`] boundary, so the engine itself is
//! pure with respect to the host's answers.

pub mod text;
pub mod value;
pub mod ast;
pub mod runtime;
pub mod host;
pub mod pattern;
pub mod interp;
