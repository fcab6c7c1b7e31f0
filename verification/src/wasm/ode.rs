//! The ODE-integration entry point.
use vstd::prelude::*;

use crate::error::SymbolicEvalError;
use crate::expressions::Expressions;
use crate::ode::{eval_ode, ode_outcome, OdeConfig};
use crate::wasm::{args_outcome, expressions_from_args};
use crate::PluginArgsExpressions;

verus! {

/// Plugin entry point: integrates a symbolic ODE system.
///
/// `args` are the decoded plugin arguments, whose expressions form the
/// right-hand side `f(t, y)`, and `constants` the constants to substitute
/// (the built-in ones); the functions, expressions and parameters are
/// parsed with `parse_symbol` and `parse_expr`. The system is then
/// integrated as `config` says, as [`eval_ode`] does with `compile` and
/// `solve`, giving the rows `[t, y_0, y_1, ...]`.
///
/// Returns an error if the functions, expressions, parameters or constants
/// fail to parse, if compiling fails, or if the solver fails.
pub fn solve_ode<
    S,
    A,
    M,
    T: Copy,
    E,
    PS: Fn(&String) -> Result<S, String>,
    PE: Fn(&String) -> Result<A, String>,
    EQ: Fn(&S, &S) -> bool,
    CO: FnOnce(Expressions<S, A>) -> Result<E, SymbolicEvalError>,
    SV: FnOnce(E, M, (T, T), T, Vec<T>) -> Result<(Vec<T>, Vec<Vec<T>>), String>,
>(
    args: &PluginArgsExpressions,
    constants: Vec<(String, A)>,
    parse_symbol: &PS,
    parse_expr: &PE,
    same: &EQ,
    config: OdeConfig<M, T>,
    compile: CO,
    solve: SV,
) -> (res: Result<Vec<Vec<T>>, SymbolicEvalError>)
    requires
        forall|x: &String| parse_symbol.requires((x,)),
        forall|x: &String| parse_expr.requires((x,)),
        forall|a: &S, b: &S| same.requires((a, b)),
        forall|a: &S, b: &S, r: bool| same.ensures((a, b), r) ==> r == (*a == *b),
        forall|ex: Expressions<S, A>| compile.requires((ex,)),
        forall|ev: E, method: M, t_span: (T, T), dt: T, init: Vec<T>|
            solve.requires((ev, method, t_span, dt, init)),
    ensures
        exists|parsed: Result<Expressions<S, A>, SymbolicEvalError>|
            #[trigger] args_outcome(*parse_symbol, *parse_expr, *args, constants@, parsed)
                && match parsed {
                Err(e) => res == Err::<Vec<Vec<T>>, SymbolicEvalError>(e),
                Ok(ex) => ode_outcome(ex, config, compile, solve, res),
            },
{
    let ghost consts = constants@;
    let parsed = expressions_from_args(args, constants, parse_symbol, parse_expr, same);
    let ghost parsed_view = parsed;
    match parsed {
        Ok(ex) => {
            let res = eval_ode(ex, config, compile, solve);
            assert(args_outcome(*parse_symbol, *parse_expr, *args, consts, parsed_view));
            res
        },
        Err(e) => {
            assert(args_outcome(*parse_symbol, *parse_expr, *args, consts, parsed_view));
            Err(e)
        },
    }
}

} // verus!
