//! A minimal interpreter for a Lisp-family expression language: a `Reader`
//! that turns source text into a `Value` tree, and an `Evaluator` that walks
//! that tree against a chained `Env`, dispatching special forms and a fixed
//! registry of intrinsic operations.
//!
//! Numbers are IEEE-754 binary64 values, carried everywhere as their bit
//! patterns (`u64`); the `doubles` module holds the arithmetic on them.

pub mod doubles;
pub mod env;
pub mod evaluator;
pub mod reader;
pub mod values;
