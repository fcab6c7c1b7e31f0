//! The plugin's entry points, as called from Typst.
//!
//! Each entry point receives the plugin arguments (already decoded) and
//! returns the rows of its result (to be encoded). The numeric work is
//! handed in by the caller: the parsers of the symbolic algebra system, and a
//! closure that evaluates or integrates the parsed expressions. What is
//! parsed, in which order, which error wins, and how the result is laid out
//! is decided here.
use vstd::prelude::*;

pub mod evaluation;
pub mod ode;

use crate::error::SymbolicEvalError;
use crate::expressions::{
    expressions_outcome, function_outcome, function_values, functions_succeeded, is_functions_run,
    lemma_expressions_keep_order, lemma_run_values, parse_functions, Expressions, Function,
};
use crate::run::{is_lazy_run, run_succeeded, run_values};
use crate::PluginArgsExpressions;

verus! {

/// What [`expressions_from_args`] returns: the user-defined functions are
/// parsed first (the first failure wins), then the expressions, parameters
/// and constants as [`Expressions::new`] does.
pub open spec fn args_outcome<
    S,
    A,
    PS: Fn(&String) -> Result<S, String>,
    PE: Fn(&String) -> Result<A, String>,
>(
    parse_symbol: PS,
    parse_expr: PE,
    args: PluginArgsExpressions,
    constants: Seq<(String, A)>,
    res: Result<Expressions<S, A>, SymbolicEvalError>,
) -> bool {
    exists|fo: Seq<Result<Function<S, A>, SymbolicEvalError>>|
        #[trigger] is_functions_run(parse_symbol, parse_expr, args.functions@, fo) && if functions_succeeded(
            fo,
            args.functions@.len(),
        ) {
            expressions_outcome(
                parse_symbol,
                parse_expr,
                args.exprs@,
                args.params@,
                function_values(fo),
                constants,
                res,
            )
        } else {
            fo.len() > 0 && res == Err::<Expressions<S, A>, SymbolicEvalError>(fo.last()->Err_0)
        }
}

/// On success, the [`Expressions`] built from the plugin arguments hold one
/// parsed expression per expression string and one parsed parameter per
/// parameter string, and one function per user-defined function, each what
/// the parsers gave for the input at the same position: so output `i` of an
/// evaluation is the value of the `i`-th expression string, and the `i`-th
/// function is the `i`-th one given.
pub proof fn lemma_args_keep_order<
    S,
    A,
    PS: Fn(&String) -> Result<S, String>,
    PE: Fn(&String) -> Result<A, String>,
>(
    parse_symbol: PS,
    parse_expr: PE,
    args: PluginArgsExpressions,
    constants: Seq<(String, A)>,
    res: Result<Expressions<S, A>, SymbolicEvalError>,
)
    requires
        args_outcome(parse_symbol, parse_expr, args, constants, res),
    ensures
        res matches Ok(ex) ==> {
            &&& ex.exprs@.len() == args.exprs@.len()
            &&& forall|i: int|
                0 <= i < args.exprs@.len() ==> #[trigger] parse_expr.ensures(
                    (&args.exprs@[i],),
                    Ok::<A, String>(ex.exprs@[i]),
                )
            &&& ex.params@.len() == args.params@.len()
            &&& forall|i: int|
                0 <= i < args.params@.len() ==> #[trigger] parse_expr.ensures(
                    (&args.params@[i],),
                    Ok::<A, String>(ex.params@[i]),
                )
            &&& ex.functions@.len() == args.functions@.len()
            &&& forall|i: int|
                0 <= i < args.functions@.len() ==> {
                    &&& #[trigger] parse_symbol.ensures(
                        (&args.functions@[i].name,),
                        Ok::<S, String>(ex.functions@[i].name),
                    )
                    &&& parse_expr.ensures(
                        (&args.functions@[i].body,),
                        Ok::<A, String>(ex.functions@[i].body),
                    )
                    &&& ex.functions@[i].args@.len() == args.functions@[i].args@.len()
                    &&& forall|j: int|
                        0 <= j < args.functions@[i].args@.len() ==> #[trigger] parse_symbol.ensures(
                            (&args.functions@[i].args@[j],),
                            Ok::<S, String>(ex.functions@[i].args@[j]),
                        )
                }
        },
{
    if let Ok(ex) = res {
        let fo = choose|fo: Seq<Result<Function<S, A>, SymbolicEvalError>>|
            #[trigger] is_functions_run(parse_symbol, parse_expr, args.functions@, fo) && if functions_succeeded(
                fo,
                args.functions@.len(),
            ) {
                expressions_outcome(
                    parse_symbol,
                    parse_expr,
                    args.exprs@,
                    args.params@,
                    function_values(fo),
                    constants,
                    res,
                )
            } else {
                fo.len() > 0 && res == Err::<Expressions<S, A>, SymbolicEvalError>(fo.last()->Err_0)
            };
        assert(functions_succeeded(fo, args.functions@.len()));
        lemma_expressions_keep_order(
            parse_symbol,
            parse_expr,
            args.exprs@,
            args.params@,
            function_values(fo),
            constants,
            res,
        );
        assert forall|i: int| 0 <= i < args.functions@.len() implies {
            &&& #[trigger] parse_symbol.ensures(
                (&args.functions@[i].name,),
                Ok::<S, String>(ex.functions@[i].name),
            )
            &&& parse_expr.ensures(
                (&args.functions@[i].body,),
                Ok::<A, String>(ex.functions@[i].body),
            )
            &&& ex.functions@[i].args@.len() == args.functions@[i].args@.len()
            &&& forall|j: int|
                0 <= j < args.functions@[i].args@.len() ==> #[trigger] parse_symbol.ensures(
                    (&args.functions@[i].args@[j],),
                    Ok::<S, String>(ex.functions@[i].args@[j]),
                )
        } by {
            let f = args.functions@[i];
            assert(function_outcome(parse_symbol, parse_expr, f.name, f.args@, f.body, fo[i]));
            if i < fo.len() - 1 {
                assert(fo[i] is Ok);
            } else {
                assert(fo[i] == fo.last());
            }
            let g = fo[i]->Ok_0;
            assert(ex.functions@[i] == g);
            let outs = choose|outs: Seq<Result<S, String>>|
                #[trigger] is_lazy_run(parse_symbol, f.args@, outs) && run_succeeded(outs, f.args@.len())
                    && g.args@ == run_values(outs);
            lemma_run_values(parse_symbol, f.args@, outs);
        }
    }
}

/// Turns decoded plugin arguments into [`Expressions`]: parses the
/// user-defined functions, then the expressions and parameters, with the
/// given constants substituted. `same` tells whether two symbols are the
/// same.
pub fn expressions_from_args<
    S,
    A,
    PS: Fn(&String) -> Result<S, String>,
    PE: Fn(&String) -> Result<A, String>,
    EQ: Fn(&S, &S) -> bool,
>(
    args: &PluginArgsExpressions,
    constants: Vec<(String, A)>,
    parse_symbol: &PS,
    parse_expr: &PE,
    same: &EQ,
) -> (res: Result<Expressions<S, A>, SymbolicEvalError>)
    requires
        forall|x: &String| parse_symbol.requires((x,)),
        forall|x: &String| parse_expr.requires((x,)),
        forall|a: &S, b: &S| same.requires((a, b)),
        forall|a: &S, b: &S, r: bool| same.ensures((a, b), r) ==> r == (*a == *b),
    ensures
        args_outcome(*parse_symbol, *parse_expr, *args, constants@, res),
{
    let fres = parse_functions(&args.functions, parse_symbol, parse_expr);
    let ghost fo = choose|outs: Seq<Result<Function<S, A>, SymbolicEvalError>>|
        {
            &&& #[trigger] is_functions_run(*parse_symbol, *parse_expr, args.functions@, outs)
            &&& match fres {
                Ok(v) => functions_succeeded(outs, args.functions@.len()) && v@ == function_values(
                    outs,
                ),
                Err(e) => outs.len() > 0 && outs.last() == Err::<Function<S, A>, SymbolicEvalError>(
                    e,
                ),
            }
        };
    match fres {
        Ok(functions) => {
            let r = Expressions::new(
                &args.exprs,
                &args.params,
                functions,
                constants,
                parse_symbol,
                parse_expr,
                same,
            );
            assert(is_functions_run(*parse_symbol, *parse_expr, args.functions@, fo));
            r
        },
        Err(e) => {
            assert(is_functions_run(*parse_symbol, *parse_expr, args.functions@, fo));
            Err(e)
        },
    }
}

} // verus!
