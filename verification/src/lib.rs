//! Symbolic expression evaluation for the `symbolic-eval` Typst plugin.
//!
//! The plugin parses symbolic expressions and evaluates them numerically. It
//! offers two capabilities:
//!
//! - [`evaluation`]: sampling one or more expressions over a Cartesian grid
//!   of parameter domains.
//! - [`ode`]: integrating a system of ODEs whose right-hand sides are given
//!   symbolically.
//!
//! The [`wasm`] module holds the entry points called from Typst. The
//! symbolic algebra system and the floating-point work are supplied by the
//! caller (parsers, an evaluator, a solver); this crate decides what is
//! parsed and in which order, which error is reported, how parameter domains
//! are sampled and combined, and how results are laid out.
use vstd::prelude::*;

pub mod error;
pub mod evaluation;
pub mod expressions;
pub mod ode;
pub mod run;
pub mod wasm;

pub use error::SymbolicEvalError;

verus! {

/// A user-defined function as received from Typst, before parsing.
///
/// The string fields are parsed into a
/// [`Function`](crate::expressions::Function) by
/// [`Function::new`](crate::expressions::Function::new).
#[derive(Debug, Clone, PartialEq, Eq)]
pub struct PluginArgsFunction {
    /// The function's name, e.g. `"f"`.
    pub name: String,
    /// The names of the function's formal parameters, e.g. `["x", "y"]`.
    pub args: Vec<String>,
    /// The function body as an expression string, e.g. `"x^2 + y^2"`.
    pub body: String,
}

/// The expression-evaluation payload sent from Typst, before parsing.
///
/// Turned into an [`Expressions`](crate::expressions::Expressions) by
/// [`expressions_from_args`](crate::wasm::expressions_from_args).
#[derive(Debug, Clone, PartialEq)]
pub struct PluginArgsExpressions {
    /// The expression strings to evaluate.
    pub exprs: Vec<String>,
    /// The names of the free parameters, in the order values will be supplied.
    pub params: Vec<String>,
    /// Any user-defined functions referenced by the expressions.
    pub functions: Vec<PluginArgsFunction>,
}

} // verus!
