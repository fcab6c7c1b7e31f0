//! Error types for the crate.
//!
//! [`SymbolicEvalError`] is the crate-wide error returned by every fallible
//! public entry point. Errors that come from parsing or evaluating symbolic
//! input are grouped under the nested [`SymbolicaError`].
use vstd::prelude::*;

verus! {

/// The top-level error type for all fallible operations in this crate.
#[derive(Debug)]
pub enum SymbolicEvalError {
    /// CBOR encoding or decoding failed; carries the codec's message.
    Cbor(String),
    /// An error from parsing or evaluating symbolic input.
    SymbolicaError(SymbolicaError),
    /// The caller supplied invalid arguments (e.g. no expressions to evaluate).
    ArgumentError(String),
    /// Integrating an ODE system failed.
    OdeError(OdeError),
}

/// Errors produced while parsing or evaluating symbolic expressions.
///
/// The parse variants keep both the offending `input` and a human-readable
/// `message` so that the failure can be reported back precisely.
#[derive(Debug)]
pub enum SymbolicaError {
    /// Numerical evaluation, or building an evaluator, failed; carries the
    /// evaluator's message.
    Evaluation(String),
    /// An expression string could not be parsed.
    Parse { input: String, message: String },
    /// A symbol (parameter, constant or function name) could not be parsed.
    Symbol { input: String, message: String },
    /// A user-defined function could not be parsed.
    Function { input: String, message: String },
}

/// Errors produced while integrating an ODE system.
#[derive(Debug)]
pub enum OdeError {
    /// The solver reported a failure; carries its message.
    OdeSolverError(String),
}

/// The message attached to an expression or parameter that fails to parse.
pub open spec fn parse_input_message() -> Seq<char> {
    "Failed to parse input"@
}

/// The message attached to a parameter, argument or constant name that is not a valid symbol.
pub open spec fn parse_symbol_message() -> Seq<char> {
    "Failed to parse symbol"@
}

/// The message attached to a function name that is not a valid symbol.
pub open spec fn function_name_message() -> Seq<char> {
    "Failed to parse function name"@
}

/// The message attached to a function body that fails to parse.
pub open spec fn function_body_message() -> Seq<char> {
    "Failed to parse function body"@
}

/// The message of the error returned when there is nothing to evaluate.
pub open spec fn no_expressions_message() -> Seq<char> {
    "No expressions provided"@
}

impl SymbolicEvalError {
    /// This is a parse error with the given `input` and `message`.
    pub open spec fn is_parse(self, input: Seq<char>, message: Seq<char>) -> bool {
        self matches SymbolicEvalError::SymbolicaError(SymbolicaError::Parse { input: i, message: m })
            && i@ == input && m@ == message
    }

    /// This is a symbol error with the given `input` and `message`.
    pub open spec fn is_symbol(self, input: Seq<char>, message: Seq<char>) -> bool {
        self matches SymbolicEvalError::SymbolicaError(SymbolicaError::Symbol { input: i, message: m })
            && i@ == input && m@ == message
    }

    /// This is an argument error with the given message.
    pub open spec fn is_argument(self, message: Seq<char>) -> bool {
        self matches SymbolicEvalError::ArgumentError(m) && m@ == message
    }

    /// This is an ODE solver error with the given message.
    pub open spec fn is_ode_solver(self, message: Seq<char>) -> bool {
        self matches SymbolicEvalError::OdeError(OdeError::OdeSolverError(m)) && m@ == message
    }
}

/// Builds the error for an expression or parameter that fails to parse,
/// keeping the offending input.
pub fn parse_error(input: String) -> (e: SymbolicEvalError)
    ensures
        e.is_parse(input@, parse_input_message()),
{
    SymbolicEvalError::SymbolicaError(
        SymbolicaError::Parse { input, message: "Failed to parse input".to_owned() },
    )
}

/// Builds the error for a name that is not a valid symbol, keeping the
/// offending name and the given explanation.
pub fn symbol_error(input: String, message: &str) -> (e: SymbolicEvalError)
    ensures
        e.is_symbol(input@, message@),
{
    SymbolicEvalError::SymbolicaError(
        SymbolicaError::Symbol { input, message: message.to_owned() },
    )
}

} // verus!
