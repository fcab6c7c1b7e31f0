//! The expression-evaluation entry point.
use vstd::prelude::*;

use crate::error::SymbolicEvalError;
use crate::evaluation::{all_domains_real, domains_grid_size, eval_exprs, real_eval_outcome};
use crate::expressions::{Expressions, SymbolDomain};
use crate::wasm::{args_outcome, expressions_from_args};
use crate::PluginArgsExpressions;

verus! {

/// Plugin entry point: evaluates the plugin's expressions over a grid of
/// real parameter domains.
///
/// `args` are the decoded plugin arguments and `constants` the constants to
/// substitute (the built-in ones); the functions, expressions and
/// parameters are parsed with `parse_symbol` and `parse_expr` (`same` tells
/// whether two symbols are the same). The
/// expressions are then evaluated on the grid of `domains` as
/// [`eval_exprs`] does, with the numeric operations given; each row holds
/// one input per domain and one output per expression.
///
/// Returns an error if the functions, expressions, parameters or constants
/// fail to parse, if a domain is complex, if compiling fails, or if an
/// input or output is not real.
pub fn eval_expr<
    S,
    A,
    F: Copy,
    C: Copy,
    R: Copy,
    E,
    PS: Fn(&String) -> Result<S, String>,
    PE: Fn(&String) -> Result<A, String>,
    EQ: Fn(&S, &S) -> bool,
    I: Fn(F, F, usize, usize) -> F,
    K: Fn(F, F) -> C,
    CO: FnOnce(Expressions<S, A>) -> Result<E, SymbolicEvalError>,
    EA: Fn(&E, &Vec<C>) -> Vec<C>,
    PR: Fn(C) -> (R, bool),
>(
    args: &PluginArgsExpressions,
    constants: Vec<(String, A)>,
    domains: &Vec<SymbolDomain<F>>,
    parse_symbol: &PS,
    parse_expr: &PE,
    same: &EQ,
    zero: F,
    interior: &I,
    complex: &K,
    compile: CO,
    eval_at: &EA,
    project: &PR,
) -> (res: Result<Vec<(Vec<R>, Vec<R>)>, SymbolicEvalError>)
    requires
        forall|x: &String| parse_symbol.requires((x,)),
        forall|x: &String| parse_expr.requires((x,)),
        forall|a: &S, b: &S| same.requires((a, b)),
        forall|a: &S, b: &S, r: bool| same.ensures((a, b), r) ==> r == (*a == *b),
        forall|a: F, b: F, n: usize, idx: usize| interior.requires((a, b, n, idx)),
        forall|a: F, b: F| complex.requires((a, b)),
        forall|ex: Expressions<S, A>| compile.requires((ex,)),
        forall|ev: &E, point: &Vec<C>| eval_at.requires((ev, point)),
        forall|c: C| project.requires((c,)),
        forall|ev: &E, point: &Vec<C>, out: Vec<C>|
            #[trigger] eval_at.ensures((ev, point), out) ==> out@.len() == args.exprs@.len(),
        all_domains_real(domains@) ==> domains_grid_size(domains@) <= usize::MAX,
    ensures
        exists|parsed: Result<Expressions<S, A>, SymbolicEvalError>|
            #[trigger] args_outcome(*parse_symbol, *parse_expr, *args, constants@, parsed)
                && match parsed {
                Err(e) => res == Err::<Vec<(Vec<R>, Vec<R>)>, SymbolicEvalError>(e),
                Ok(ex) => real_eval_outcome(
                    ex,
                    domains@,
                    zero,
                    *interior,
                    *complex,
                    compile,
                    *eval_at,
                    *project,
                    res,
                ),
            },
        res matches Ok(rows) ==> rows@.len() == domains_grid_size(domains@),
        res matches Ok(rows) ==> forall|k: int|
            0 <= k < rows@.len() ==> #[trigger] rows@[k].0@.len() == domains@.len()
                && rows@[k].1@.len() == args.exprs@.len(),
{
    let ghost consts = constants@;
    let parsed = expressions_from_args(args, constants, parse_symbol, parse_expr, same);
    let ghost parsed_view = parsed;
    match parsed {
        Ok(ex) => {
            assert(ex.exprs@.len() == args.exprs@.len());
            let res = eval_exprs(ex, domains, zero, interior, complex, compile, eval_at, project);
            assert(args_outcome(*parse_symbol, *parse_expr, *args, consts, parsed_view));
            res
        },
        Err(e) => {
            assert(args_outcome(*parse_symbol, *parse_expr, *args, consts, parsed_view));
            Err(e)
        },
    }
}

} // verus!
