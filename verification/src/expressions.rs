//! Parsing symbolic input into the pieces an evaluator is compiled from.
//!
//! The symbolic algebra system itself is supplied by the caller as a pair of
//! parsers: `parse_symbol` turns a name into a symbol (`S`) and `parse_expr`
//! turns an expression string into an expression (`A`); both report a failure
//! as a message. This module decides what is parsed, in which order, when to
//! stop, and which error is reported.
use vstd::prelude::*;

use crate::error::{
    SymbolicaError, function_body_message, function_name_message, no_expressions_message, parse_error,
    parse_input_message, parse_symbol_message, symbol_error, SymbolicEvalError,
};
use crate::run::{is_lazy_run, parse_all, run_failed_at, run_succeeded, run_values};
use crate::PluginArgsFunction;

verus! {

/// The outcome of parsing the list `inputs` of expressions (or parameters):
/// their values, or the first parse failure as a
/// [`SymbolicaError::Parse`](crate::error::SymbolicaError::Parse) that keeps
/// the offending input.
pub open spec fn exprs_outcome<A>(
    inputs: Seq<String>,
    outs: Seq<Result<A, String>>,
    res: Result<Vec<A>, SymbolicEvalError>,
) -> bool {
    match res {
        Ok(v) => run_succeeded(outs, inputs.len()) && v@ == run_values(outs),
        Err(e) => outs.len() > 0 && outs.last() is Err && e.is_parse(
            inputs[outs.len() - 1]@,
            parse_input_message(),
        ),
    }
}

/// The outcome of parsing the list `inputs` of symbols: their values, or the
/// first failure as a [`SymbolicaError::Symbol`](crate::error::SymbolicaError::Symbol)
/// that keeps the offending name.
pub open spec fn symbols_outcome<S>(
    inputs: Seq<String>,
    outs: Seq<Result<S, String>>,
    res: Result<Vec<S>, SymbolicEvalError>,
) -> bool {
    match res {
        Ok(v) => run_succeeded(outs, inputs.len()) && v@ == run_values(outs),
        Err(e) => outs.len() > 0 && outs.last() is Err && e.is_symbol(
            inputs[outs.len() - 1]@,
            parse_symbol_message(),
        ),
    }
}

/// Parses each string in `exprs` in turn, stopping at the first failure.
///
/// Returns [`SymbolicaError::Parse`](crate::error::SymbolicaError::Parse) on
/// the first string that fails to parse.
pub fn parse_exprs<A, PE: Fn(&String) -> Result<A, String>>(
    exprs: &Vec<String>,
    parse_expr: &PE,
) -> (res: Result<Vec<A>, SymbolicEvalError>)
    requires
        forall|x: &String| parse_expr.requires((x,)),
    ensures
        exists|outs: Seq<Result<A, String>>|
            #[trigger] is_lazy_run(*parse_expr, exprs@, outs) && exprs_outcome(exprs@, outs, res),
{
    match parse_all(exprs, parse_expr) {
        Ok(v) => Ok(v),
        Err(i) => Err(parse_error(exprs[i].clone())),
    }
}

/// Parses each string in `symbols` into a symbol in turn, stopping at the
/// first failure.
///
/// Returns [`SymbolicaError::Symbol`](crate::error::SymbolicaError::Symbol) on
/// the first string that is not a valid symbol.
pub fn parse_symbols<S, PS: Fn(&String) -> Result<S, String>>(
    symbols: &Vec<String>,
    parse_symbol: &PS,
) -> (res: Result<Vec<S>, SymbolicEvalError>)
    requires
        forall|x: &String| parse_symbol.requires((x,)),
    ensures
        exists|outs: Seq<Result<S, String>>|
            #[trigger] is_lazy_run(*parse_symbol, symbols@, outs) && symbols_outcome(
                symbols@,
                outs,
                res,
            ),
{
    match parse_all(symbols, parse_symbol) {
        Ok(v) => Ok(v),
        Err(i) => Err(symbol_error(symbols[i].clone(), "Failed to parse symbol")),
    }
}

/// A real interval or rectangular complex domain for one expression parameter.
///
/// Complex domains sample the rectangle `[min_re, max_re] x [min_im, max_im]`.
/// `F` is the number type of the bounds.
#[derive(Debug, Clone, PartialEq)]
pub enum SymbolDomain<F> {
    RealDomain {
        /// The lower bound of the interval (inclusive).
        min: F,
        /// The upper bound of the interval (inclusive).
        max: F,
        /// The number of sample points; `1` yields just `min`.
        samples: usize,
    },
    ComplexDomain {
        /// The lower bound of the real part (inclusive).
        min_re: F,
        /// The upper bound of the real part (inclusive).
        max_re: F,
        /// The lower bound of the imaginary part (inclusive).
        min_im: F,
        /// The upper bound of the imaginary part (inclusive).
        max_im: F,
        /// The number of sample points along the real axis; `1` yields just `min_re`.
        samples_re: usize,
        /// The number of sample points along the imaginary axis; `1` yields just `min_im`.
        samples_im: usize,
    },
}

impl<F> SymbolDomain<F> {
    /// Whether this domain is the real-only variant.
    pub fn is_real(&self) -> (b: bool)
        ensures
            b == (*self is RealDomain),
    {
        match self {
            SymbolDomain::RealDomain { .. } => true,
            SymbolDomain::ComplexDomain { .. } => false,
        }
    }
}

/// A user-defined function with its name, formal parameters and parsed body.
///
/// This is the parsed counterpart of
/// [`PluginArgsFunction`](crate::PluginArgsFunction). Its `body` may
/// reference the symbols in `args`, which are substituted at evaluation time.
#[derive(Debug, Clone, PartialEq)]
pub struct Function<S, A> {
    /// The parsed function name.
    pub name: S,
    /// The parsed formal parameters, in declaration order.
    pub args: Vec<S>,
    /// The parsed function body.
    pub body: A,
}

/// What [`Function::new`] returns for the given parsers and inputs: the name,
/// then the parameters, then the body are parsed, and the first failure is
/// reported.
pub open spec fn function_outcome<
    S,
    A,
    PS: Fn(&String) -> Result<S, String>,
    PE: Fn(&String) -> Result<A, String>,
>(
    parse_symbol: PS,
    parse_expr: PE,
    name: String,
    args: Seq<String>,
    body: String,
    res: Result<Function<S, A>, SymbolicEvalError>,
) -> bool {
    match res {
        Ok(f) => {
            &&& parse_symbol.ensures((&name,), Ok::<S, String>(f.name))
            &&& exists|outs: Seq<Result<S, String>>|
                #[trigger] is_lazy_run(parse_symbol, args, outs) && run_succeeded(outs, args.len())
                    && f.args@ == run_values(outs)
            &&& parse_expr.ensures((&body,), Ok::<A, String>(f.body))
        },
        Err(e) => {
            ||| exists|m: String|
                #[trigger] parse_symbol.ensures((&name,), Err::<S, String>(m)) && e.is_symbol(
                    name@,
                    function_name_message(),
                )
            ||| exists|s: S, outs: Seq<Result<S, String>>|
                #![trigger parse_symbol.ensures((&name,), Ok::<S, String>(s)), is_lazy_run(parse_symbol, args, outs)]
                parse_symbol.ensures((&name,), Ok::<S, String>(s)) && is_lazy_run(
                    parse_symbol,
                    args,
                    outs,
                ) && outs.len() > 0 && outs.last() is Err && e.is_symbol(
                    args[outs.len() - 1]@,
                    parse_symbol_message(),
                )
            ||| exists|s: S, outs: Seq<Result<S, String>>, m: String|
                #![trigger parse_symbol.ensures((&name,), Ok::<S, String>(s)), is_lazy_run(parse_symbol, args, outs), parse_expr.ensures((&body,), Err::<A, String>(m))]
                parse_symbol.ensures((&name,), Ok::<S, String>(s)) && is_lazy_run(
                    parse_symbol,
                    args,
                    outs,
                ) && run_succeeded(outs, args.len()) && parse_expr.ensures(
                    (&body,),
                    Err::<A, String>(m),
                ) && e.is_parse(body@, function_body_message())
        },
    }
}

impl<S, A> Function<S, A> {
    /// Parses a function's name, parameter names and body.
    ///
    /// Returns [`SymbolicaError::Symbol`](crate::error::SymbolicaError::Symbol)
    /// if the name or a parameter is not a valid symbol, or
    /// [`SymbolicaError::Parse`](crate::error::SymbolicaError::Parse) if the
    /// body does not parse; nothing after the first failure is parsed.
    pub fn new<PS: Fn(&String) -> Result<S, String>, PE: Fn(&String) -> Result<A, String>>(
        name: &String,
        args: &Vec<String>,
        body: &String,
        parse_symbol: &PS,
        parse_expr: &PE,
    ) -> (res: Result<Self, SymbolicEvalError>)
        requires
            forall|x: &String| parse_symbol.requires((x,)),
            forall|x: &String| parse_expr.requires((x,)),
        ensures
            function_outcome(*parse_symbol, *parse_expr, *name, args@, *body, res),
    {
        let name_res = parse_symbol(name);
        let fname = match name_res {
            Ok(s) => s,
            Err(m) => {
                let e = symbol_error(name.clone(), "Failed to parse function name");
                assert(parse_symbol.ensures((name,), Err::<S, String>(m)));
                return Err(e);
            },
        };
        let args_res = parse_all(args, parse_symbol);
        let ghost outs = choose|outs: Seq<Result<S, String>>|
            #[trigger] is_lazy_run(*parse_symbol, args@, outs) && match args_res {
                Ok(v) => run_succeeded(outs, args@.len()) && v@ == run_values(outs),
                Err(i) => i < args@.len() && run_failed_at(outs, i as int),
            };
        let fargs = match args_res {
            Ok(v) => v,
            Err(i) => {
                let e = symbol_error(args[i].clone(), "Failed to parse symbol");
                assert(parse_symbol.ensures((name,), Ok::<S, String>(fname)) && is_lazy_run(
                    *parse_symbol,
                    args@,
                    outs,
                ));
                return Err(e);
            },
        };
        let body_res = parse_expr(body);
        match body_res {
            Ok(b) => {
                let f = Function { name: fname, args: fargs, body: b };
                assert(is_lazy_run(*parse_symbol, args@, outs));
                Ok(f)
            },
            Err(m) => {
                let e = SymbolicEvalError::SymbolicaError(
                    crate::error::SymbolicaError::Parse {
                        input: body.clone(),
                        message: "Failed to parse function body".to_owned(),
                    },
                );
                assert(parse_symbol.ensures((name,), Ok::<S, String>(fname)) && is_lazy_run(
                    *parse_symbol,
                    args@,
                    outs,
                ) && parse_expr.ensures((body,), Err::<A, String>(m)));
                Err(e)
            },
        }
    }
}


/// A parsed set of expressions ready to be compiled into an evaluator.
///
/// Groups the expressions to evaluate, the free `params` supplied at
/// evaluation time, any user-defined `functions`, and the `replacements` of
/// constants (such as `pi`) substituted before compilation. [`Expressions::new`]
/// and [`Expressions::set_constant`] keep each symbol named once in the
/// replacements (see [`with_replacement`]).
#[derive(Debug, Clone, PartialEq)]
pub struct Expressions<S, A> {
    /// The parsed expressions to evaluate, one output per expression.
    pub exprs: Vec<A>,
    /// The free parameters, as parsed expressions, in the order values are supplied.
    pub params: Vec<A>,
    /// User-defined functions referenced by the expressions.
    pub functions: Vec<Function<S, A>>,
    /// Symbol-to-value substitutions applied before compilation (constants).
    pub replacements: Vec<(S, A)>,
}

/// The names of the given constants.
pub open spec fn constant_names<A>(constants: Seq<(String, A)>) -> Seq<String> {
    constants.map_values(|c: (String, A)| c.0)
}

/// Pairs each parsed symbol with the value of the constant at the same position.
pub open spec fn bind_constants<S, A>(symbols: Seq<S>, constants: Seq<(String, A)>) -> Seq<(S, A)> {
    Seq::new(symbols.len(), |i: int| (symbols[i], constants[i].1))
}

/// The value that `replacements` substitutes for `symbol`: the last one given.
pub open spec fn replacement<S, A>(replacements: Seq<(S, A)>, symbol: S) -> Option<A>
    decreases replacements.len(),
{
    if replacements.len() == 0 {
        None
    } else if replacements.last().0 == symbol {
        Some(replacements.last().1)
    } else {
        replacement(replacements.drop_last(), symbol)
    }
}

/// The position of the last entry of `table` that names `symbol`, or `-1`
/// if none does.
pub open spec fn symbol_index<S, A>(table: Seq<(S, A)>, symbol: S) -> int
    decreases table.len(),
{
    if table.len() == 0 {
        -1
    } else if table.last().0 == symbol {
        table.len() - 1
    } else {
        symbol_index(table.drop_last(), symbol)
    }
}

/// `table` with `symbol` mapped to `value`: the entry that names `symbol` is
/// overwritten in place, or, if there is none, `(symbol, value)` is added at
/// the end.
pub open spec fn with_replacement<S, A>(table: Seq<(S, A)>, symbol: S, value: A) -> Seq<(S, A)> {
    let i = symbol_index(table, symbol);
    if i < 0 {
        table.push((symbol, value))
    } else {
        table.update(i, (symbol, value))
    }
}

/// `table` with each of `pairs` put in turn (see [`with_replacement`]).
pub open spec fn with_replacements<S, A>(table: Seq<(S, A)>, pairs: Seq<(S, A)>) -> Seq<(S, A)>
    decreases pairs.len(),
{
    if pairs.len() == 0 {
        table
    } else {
        with_replacement(with_replacements(table, pairs.drop_last()), pairs.last().0, pairs.last().1)
    }
}

/// [`symbol_index`] is the last position naming the symbol, or `-1` when no
/// entry names it.
proof fn lemma_symbol_index<S, A>(table: Seq<(S, A)>, symbol: S)
    ensures
        -1 <= symbol_index(table, symbol) < table.len(),
        symbol_index(table, symbol) >= 0 ==> table[symbol_index(table, symbol)].0 == symbol,
        forall|j: int|
            symbol_index(table, symbol) < j < table.len() ==> #[trigger] table[j].0 != symbol,
    decreases table.len(),
{
    if table.len() > 0 && table.last().0 != symbol {
        let front = table.drop_last();
        lemma_symbol_index(front, symbol);
        assert forall|j: int| symbol_index(table, symbol) < j < table.len() implies #[trigger] table[j].0
            != symbol by {
            if j < table.len() - 1 {
                assert(front[j] == table[j]);
            }
        }
    }
}

/// The characterization of [`symbol_index`] determines it.
proof fn lemma_symbol_index_at<S, A>(table: Seq<(S, A)>, symbol: S, i: int)
    requires
        -1 <= i < table.len(),
        i >= 0 ==> table[i].0 == symbol,
        forall|j: int| i < j < table.len() ==> #[trigger] table[j].0 != symbol,
    ensures
        symbol_index(table, symbol) == i,
{
    lemma_symbol_index(table, symbol);
    let r = symbol_index(table, symbol);
    if r > i {
        assert(table[r].0 != symbol);
    } else if r < i {
        assert(table[i].0 != symbol);
    }
}

/// Putting `(symbol, value)` makes `value` the one substituted for `symbol`
/// and leaves every other symbol's value unchanged.
proof fn lemma_replacement_with<S, A>(table: Seq<(S, A)>, symbol: S, value: A, other: S)
    ensures
        replacement(with_replacement(table, symbol, value), other) == if other == symbol {
            Some(value)
        } else {
            replacement(table, other)
        },
    decreases table.len(),
{
    let i = symbol_index(table, symbol);
    lemma_symbol_index(table, symbol);
    let t2 = with_replacement(table, symbol, value);
    if i < 0 {
        lemma_replacement_push(table, symbol, value);
    } else if i == table.len() - 1 {
        assert(t2.drop_last() =~= table.drop_last());
        assert(t2.last() == (symbol, value));
    } else {
        let front = table.drop_last();
        lemma_symbol_index_at(front, symbol, i);
        assert(t2.drop_last() =~= with_replacement(front, symbol, value));
        assert(t2.last() == table.last());
        lemma_replacement_with(front, symbol, value, other);
    }
}

/// Putting a replacement keeps each symbol named at most once.
proof fn lemma_with_replacement_once<S, A>(table: Seq<(S, A)>, symbol: S, value: A)
    requires
        names_each_once(table),
    ensures
        names_each_once(with_replacement(table, symbol, value)),
{
    lemma_symbol_index(table, symbol);
    let t2 = with_replacement(table, symbol, value);
    assert forall|i: int, j: int| 0 <= i < j < t2.len() implies #[trigger] t2[i].0
        != #[trigger] t2[j].0 by {
        if symbol_index(table, symbol) < 0 {
            if j == table.len() {
                assert(t2[i] == table[i]);
            } else {
                assert(t2[i] == table[i] && t2[j] == table[j]);
            }
        } else {
            assert(t2[i].0 == table[i].0 && t2[j].0 == table[j].0);
        }
    }
}

/// Putting pairs one by one into an empty table names each symbol once, with
/// the value last given for it.
pub proof fn lemma_with_replacements<S, A>(pairs: Seq<(S, A)>)
    ensures
        resolves(pairs, with_replacements(Seq::empty(), pairs)),
    decreases pairs.len(),
{
    if pairs.len() > 0 {
        let front = pairs.drop_last();
        lemma_with_replacements(front);
        let w = with_replacements(Seq::<(S, A)>::empty(), front);
        lemma_with_replacement_once(w, pairs.last().0, pairs.last().1);
        assert forall|x: S| #[trigger] replacement(with_replacements(Seq::empty(), pairs), x)
            == replacement(pairs, x) by {
            lemma_replacement_with(w, pairs.last().0, pairs.last().1, x);
        }
    }
}

/// What [`Expressions::new`] returns for the given parsers and inputs: an
/// error if there is no expression; otherwise the expressions, then the
/// parameters, then the constant names are parsed, and the first failure is
/// reported. The constants are put in order into the replacements (see
/// [`with_replacement`]), so that each symbol is named once, with the value
/// last given for it.
pub open spec fn expressions_outcome<
    S,
    A,
    PS: Fn(&String) -> Result<S, String>,
    PE: Fn(&String) -> Result<A, String>,
>(
    parse_symbol: PS,
    parse_expr: PE,
    exprs: Seq<String>,
    params: Seq<String>,
    functions: Seq<Function<S, A>>,
    constants: Seq<(String, A)>,
    res: Result<Expressions<S, A>, SymbolicEvalError>,
) -> bool {
    match res {
        Ok(ex) => {
            &&& exprs.len() > 0
            &&& exists|
                eo: Seq<Result<A, String>>,
                po: Seq<Result<A, String>>,
                co: Seq<Result<S, String>>,
            |
                #![trigger is_lazy_run(parse_expr, exprs, eo), is_lazy_run(parse_expr, params, po), is_lazy_run(parse_symbol, constant_names(constants), co)]
                {
                    &&& is_lazy_run(parse_expr, exprs, eo) && run_succeeded(eo, exprs.len())
                    &&& is_lazy_run(parse_expr, params, po) && run_succeeded(po, params.len())
                    &&& is_lazy_run(parse_symbol, constant_names(constants), co) && run_succeeded(
                        co,
                        constants.len(),
                    )
                    &&& ex.exprs@ == run_values(eo)
                    &&& ex.params@ == run_values(po)
                    &&& ex.functions@ == functions
                    &&& ex.replacements@ == with_replacements(
                        Seq::empty(),
                        bind_constants(run_values(co), constants),
                    )
                }
        },
        Err(e) => {
            ||| exprs.len() == 0 && e.is_argument(no_expressions_message())
            ||| exprs.len() > 0 && exists|eo: Seq<Result<A, String>>|
                #[trigger] is_lazy_run(parse_expr, exprs, eo) && eo.len() > 0 && eo.last() is Err
                    && e.is_parse(exprs[eo.len() - 1]@, parse_input_message())
            ||| exprs.len() > 0 && exists|eo: Seq<Result<A, String>>, po: Seq<Result<A, String>>|
                #![trigger is_lazy_run(parse_expr, exprs, eo), is_lazy_run(parse_expr, params, po)]
                is_lazy_run(parse_expr, exprs, eo) && run_succeeded(eo, exprs.len()) && is_lazy_run(
                    parse_expr,
                    params,
                    po,
                ) && po.len() > 0 && po.last() is Err && e.is_parse(
                    params[po.len() - 1]@,
                    parse_input_message(),
                )
            ||| exprs.len() > 0 && exists|
                eo: Seq<Result<A, String>>,
                po: Seq<Result<A, String>>,
                co: Seq<Result<S, String>>,
            |
                #![trigger is_lazy_run(parse_expr, exprs, eo), is_lazy_run(parse_expr, params, po), is_lazy_run(parse_symbol, constant_names(constants), co)]
                is_lazy_run(parse_expr, exprs, eo) && run_succeeded(eo, exprs.len()) && is_lazy_run(
                    parse_expr,
                    params,
                    po,
                ) && run_succeeded(po, params.len()) && is_lazy_run(
                    parse_symbol,
                    constant_names(constants),
                    co,
                ) && co.len() > 0 && co.last() is Err && e.is_symbol(
                    constants[co.len() - 1].0@,
                    parse_symbol_message(),
                )
        },
    }
}

/// A run that went over every input without a failure gives, for each input
/// in order, the value the parser gave for it.
pub proof fn lemma_run_values<X, A, F: Fn(&X) -> Result<A, String>>(
    f: F,
    inputs: Seq<X>,
    outs: Seq<Result<A, String>>,
)
    requires
        is_lazy_run(f, inputs, outs),
        run_succeeded(outs, inputs.len()),
    ensures
        run_values(outs).len() == inputs.len(),
        forall|i: int|
            0 <= i < inputs.len() ==> #[trigger] f.ensures(
                (&inputs[i],),
                Ok::<A, String>(run_values(outs)[i]),
            ),
{
    assert forall|i: int| 0 <= i < inputs.len() implies #[trigger] f.ensures(
        (&inputs[i],),
        Ok::<A, String>(run_values(outs)[i]),
    ) by {
        assert(f.ensures((&inputs[i],), outs[i]));
        if i < outs.len() - 1 {
            assert(outs[i] is Ok);
        } else {
            assert(outs[i] == outs.last());
        }
    }
}

/// On success, [`Expressions::new`] keeps the given functions as they are,
/// and holds one parsed expression per expression string and one parsed
/// parameter per parameter string, each what the parser gave for the string
/// at the same position.
pub proof fn lemma_expressions_keep_order<
    S,
    A,
    PS: Fn(&String) -> Result<S, String>,
    PE: Fn(&String) -> Result<A, String>,
>(
    parse_symbol: PS,
    parse_expr: PE,
    exprs: Seq<String>,
    params: Seq<String>,
    functions: Seq<Function<S, A>>,
    constants: Seq<(String, A)>,
    res: Result<Expressions<S, A>, SymbolicEvalError>,
)
    requires
        expressions_outcome(parse_symbol, parse_expr, exprs, params, functions, constants, res),
    ensures
        res matches Ok(ex) ==> {
            &&& ex.functions@ == functions
            &&& ex.exprs@.len() == exprs.len()
            &&& forall|i: int|
                0 <= i < exprs.len() ==> #[trigger] parse_expr.ensures(
                    (&exprs[i],),
                    Ok::<A, String>(ex.exprs@[i]),
                )
            &&& ex.params@.len() == params.len()
            &&& forall|i: int|
                0 <= i < params.len() ==> #[trigger] parse_expr.ensures(
                    (&params[i],),
                    Ok::<A, String>(ex.params@[i]),
                )
        },
{
    if let Ok(ex) = res {
        let (eo, po, co) = choose|
            eo: Seq<Result<A, String>>,
            po: Seq<Result<A, String>>,
            co: Seq<Result<S, String>>,
        |
            #![trigger is_lazy_run(parse_expr, exprs, eo), is_lazy_run(parse_expr, params, po), is_lazy_run(parse_symbol, constant_names(constants), co)]
            {
                &&& is_lazy_run(parse_expr, exprs, eo) && run_succeeded(eo, exprs.len())
                &&& is_lazy_run(parse_expr, params, po) && run_succeeded(po, params.len())
                &&& is_lazy_run(parse_symbol, constant_names(constants), co) && run_succeeded(
                    co,
                    constants.len(),
                )
                &&& ex.exprs@ == run_values(eo)
                &&& ex.params@ == run_values(po)
                &&& ex.functions@ == functions
                &&& ex.replacements@ == with_replacements(
                    Seq::empty(),
                    bind_constants(run_values(co), constants),
                )
            };
        lemma_run_values(parse_expr, exprs, eo);
        lemma_run_values(parse_expr, params, po);
    }
}

/// What `replacements` substitutes for `symbol` is the value of its last
/// entry naming it, if any.
proof fn lemma_replacement_index<S, A>(replacements: Seq<(S, A)>, symbol: S)
    ensures
        replacement(replacements, symbol) == if symbol_index(replacements, symbol) < 0 {
            None::<A>
        } else {
            Some(replacements[symbol_index(replacements, symbol)].1)
        },
    decreases replacements.len(),
{
    if replacements.len() > 0 && replacements.last().0 != symbol {
        let front = replacements.drop_last();
        lemma_replacement_index(front, symbol);
        lemma_symbol_index(front, symbol);
        if symbol_index(front, symbol) >= 0 {
            assert(front[symbol_index(front, symbol)] == replacements[symbol_index(front, symbol)]);
        }
    }
}

/// On success, [`Expressions::new`] holds one replacement for each distinct
/// constant name (as the parser reads it), with the value of the last
/// constant of that name: each entry is a parsed constant name with its
/// value, and no later constant has the same name; every constant's name has
/// an entry; and no name has two.
pub proof fn lemma_expressions_constants<
    S,
    A,
    PS: Fn(&String) -> Result<S, String>,
    PE: Fn(&String) -> Result<A, String>,
>(
    parse_symbol: PS,
    parse_expr: PE,
    exprs: Seq<String>,
    params: Seq<String>,
    functions: Seq<Function<S, A>>,
    constants: Seq<(String, A)>,
    res: Result<Expressions<S, A>, SymbolicEvalError>,
)
    requires
        expressions_outcome(parse_symbol, parse_expr, exprs, params, functions, constants, res),
    ensures
        res matches Ok(ex) ==> exists|syms: Seq<S>|
            {
                &&& syms.len() == constants.len()
                &&& forall|j: int|
                    0 <= j < constants.len() ==> #[trigger] parse_symbol.ensures(
                        (&constants[j].0,),
                        Ok::<S, String>(syms[j]),
                    )
                &&& forall|i: int, k: int|
                    0 <= i < k < ex.replacements@.len() ==> #[trigger] ex.replacements@[i].0
                        != #[trigger] ex.replacements@[k].0
                &&& forall|i: int|
                    0 <= i < ex.replacements@.len() ==> exists|j: int|
                        0 <= j < constants.len() && #[trigger] ex.replacements@[i] == (
                            syms[j],
                            constants[j].1,
                        ) && forall|l: int| j < l < constants.len() ==> #[trigger] syms[l] != syms[j]
                &&& forall|j: int|
                    0 <= j < constants.len() ==> exists|i: int|
                        0 <= i < ex.replacements@.len() && #[trigger] ex.replacements@[i].0
                            == #[trigger] syms[j]
            },
{
    if let Ok(ex) = res {
        let (eo, po, co) = choose|
            eo: Seq<Result<A, String>>,
            po: Seq<Result<A, String>>,
            co: Seq<Result<S, String>>,
        |
            #![trigger is_lazy_run(parse_expr, exprs, eo), is_lazy_run(parse_expr, params, po), is_lazy_run(parse_symbol, constant_names(constants), co)]
            {
                &&& is_lazy_run(parse_expr, exprs, eo) && run_succeeded(eo, exprs.len())
                &&& is_lazy_run(parse_expr, params, po) && run_succeeded(po, params.len())
                &&& is_lazy_run(parse_symbol, constant_names(constants), co) && run_succeeded(
                    co,
                    constants.len(),
                )
                &&& ex.exprs@ == run_values(eo)
                &&& ex.params@ == run_values(po)
                &&& ex.functions@ == functions
                &&& ex.replacements@ == with_replacements(
                    Seq::empty(),
                    bind_constants(run_values(co), constants),
                )
            };
        let names = constant_names(constants);
        let syms = run_values(co);
        lemma_run_values(parse_symbol, names, co);
        assert forall|j: int| 0 <= j < constants.len() implies #[trigger] parse_symbol.ensures(
            (&constants[j].0,),
            Ok::<S, String>(syms[j]),
        ) by {
            assert(names[j] == constants[j].0);
        }
        let bound = bind_constants(syms, constants);
        let table = ex.replacements@;
        lemma_with_replacements(bound);
        assert forall|i: int|
            0 <= i < table.len() implies exists|j: int|
            0 <= j < constants.len() && #[trigger] table[i] == (syms[j], constants[j].1) && forall|l: int|
                j < l < constants.len() ==> #[trigger] syms[l] != syms[j] by {
            let s = table[i].0;
            assert forall|k: int| i < k < table.len() implies #[trigger] table[k].0 != s by {
                assert(table[i].0 != table[k].0);
            }
            lemma_symbol_index_at(table, s, i);
            lemma_replacement_index(table, s);
            lemma_replacement_index(bound, s);
            lemma_symbol_index(bound, s);
            let j = symbol_index(bound, s);
            assert(bound[j] == (syms[j], constants[j].1));
            assert forall|l: int| j < l < constants.len() implies #[trigger] syms[l] != syms[j] by {
                assert(bound[l].0 == syms[l]);
            }
        }
        assert forall|j: int| 0 <= j < constants.len() implies exists|i: int|
            0 <= i < table.len() && #[trigger] table[i].0 == #[trigger] syms[j] by {
            let s = syms[j];
            assert(bound[j].0 == s);
            lemma_replacement_absent(bound, s);
            lemma_replacement_absent(table, s);
        }
    }
}

/// Puts `(symbol, value)` into `table`: overwrites in place the entry that
/// names `symbol`, or adds the pair at the end if there is none. `same`
/// tells whether two symbols are the same.
fn put_replacement<S, A, EQ: Fn(&S, &S) -> bool>(
    table: &mut Vec<(S, A)>,
    symbol: S,
    value: A,
    same: &EQ,
)
    requires
        forall|a: &S, b: &S| same.requires((a, b)),
        forall|a: &S, b: &S, r: bool| same.ensures((a, b), r) ==> r == (*a == *b),
    ensures
        final(table)@ == with_replacement(old(table)@, symbol, value),
{
    let ghost t0 = table@;
    let mut k: usize = table.len();
    let mut found = false;
    while k > 0 && !found
        invariant
            forall|a: &S, b: &S| same.requires((a, b)),
            forall|a: &S, b: &S, r: bool| same.ensures((a, b), r) ==> r == (*a == *b),
            table@ == t0,
            k <= t0.len(),
            found ==> k > 0 && t0[k - 1].0 == symbol,
            forall|j: int| k <= j < t0.len() ==> #[trigger] t0[j].0 != symbol,
        decreases k + (if found { 0int } else { 1int }),
    {
        if same(&table[k - 1].0, &symbol) {
            found = true;
        } else {
            k = k - 1;
        }
    }
    if found {
        proof {
            lemma_symbol_index_at(t0, symbol, k - 1);
        }
        table.set(k - 1, (symbol, value));
    } else {
        proof {
            lemma_symbol_index_at(t0, symbol, -1);
        }
        table.push((symbol, value));
    }
}

/// Puts each symbol with the value of the constant at the same position into
/// an empty table, in order (see [`put_replacement`]), consuming both.
fn bind_constant_values<S, A, EQ: Fn(&S, &S) -> bool>(
    symbols: Vec<S>,
    constants: Vec<(String, A)>,
    same: &EQ,
) -> (r: Vec<(S, A)>)
    requires
        symbols@.len() == constants@.len(),
        forall|a: &S, b: &S| same.requires((a, b)),
        forall|a: &S, b: &S, r: bool| same.ensures((a, b), r) ==> r == (*a == *b),
    ensures
        r@ == with_replacements(Seq::empty(), bind_constants(symbols@, constants@)),
{
    let ghost pairs = bind_constants(symbols@, constants@);
    let ghost syms0 = symbols@;
    let ghost consts0 = constants@;
    let mut symbols = symbols;
    let mut constants = constants;
    let mut out: Vec<(S, A)> = Vec::new();
    let ghost mut done: int = 0;
    assert(pairs.take(0) =~= Seq::<(S, A)>::empty());
    while symbols.len() > 0
        invariant
            forall|a: &S, b: &S| same.requires((a, b)),
            forall|a: &S, b: &S, r: bool| same.ensures((a, b), r) ==> r == (*a == *b),
            pairs == bind_constants(syms0, consts0),
            syms0.len() == consts0.len(),
            symbols@.len() == constants@.len(),
            0 <= done <= syms0.len(),
            done + symbols@.len() == syms0.len(),
            symbols@ == syms0.subrange(done, syms0.len() as int),
            constants@ == consts0.subrange(done, consts0.len() as int),
            out@ == with_replacements(Seq::empty(), pairs.take(done)),
        decreases symbols@.len(),
    {
        let s = symbols.remove(0);
        let (_, v) = constants.remove(0);
        assert(pairs.take(done + 1).drop_last() =~= pairs.take(done));
        assert(pairs.take(done + 1).last() == (s, v));
        put_replacement(&mut out, s, v, same);
        proof {
            done = done + 1;
        }
    }
    assert(pairs.take(done) =~= pairs);
    out
}

impl<S, A> Expressions<S, A> {
    /// Parses raw string input into an [`Expressions`].
    ///
    /// `constants` is a list of `(name, value)` pairs substituted for the named
    /// symbols before compilation; the replacements name each symbol once,
    /// and of a repeated name the last pair wins. `same` tells whether two
    /// symbols are the same.
    ///
    /// Returns [`SymbolicEvalError::ArgumentError`] if `exprs` is empty (before
    /// anything is parsed), or a parse error if any expression, parameter or
    /// constant name is invalid.
    pub fn new<
        PS: Fn(&String) -> Result<S, String>,
        PE: Fn(&String) -> Result<A, String>,
        EQ: Fn(&S, &S) -> bool,
    >(
        exprs: &Vec<String>,
        params: &Vec<String>,
        functions: Vec<Function<S, A>>,
        constants: Vec<(String, A)>,
        parse_symbol: &PS,
        parse_expr: &PE,
        same: &EQ,
    ) -> (res: Result<Self, SymbolicEvalError>)
        requires
            forall|x: &String| parse_symbol.requires((x,)),
            forall|x: &String| parse_expr.requires((x,)),
            forall|a: &S, b: &S| same.requires((a, b)),
            forall|a: &S, b: &S, r: bool| same.ensures((a, b), r) ==> r == (*a == *b),
        ensures
            expressions_outcome(
                *parse_symbol,
                *parse_expr,
                exprs@,
                params@,
                functions@,
                constants@,
                res,
            ),
            res matches Ok(ex) ==> names_each_once(ex.replacements@),
            res matches Ok(ex) ==> ex.functions@ == functions@,
    {
        if exprs.len() == 0 {
            return Err(SymbolicEvalError::ArgumentError("No expressions provided".to_owned()));
        }
        let exprs_res = parse_exprs(exprs, parse_expr);
        let ghost eo = choose|outs: Seq<Result<A, String>>|
            #[trigger] is_lazy_run(*parse_expr, exprs@, outs) && exprs_outcome(
                exprs@,
                outs,
                exprs_res,
            );
        let parsed_exprs = match exprs_res {
            Ok(v) => v,
            Err(e) => {
                return Err(e);
            },
        };
        let params_res = parse_exprs(params, parse_expr);
        let ghost po = choose|outs: Seq<Result<A, String>>|
            #[trigger] is_lazy_run(*parse_expr, params@, outs) && exprs_outcome(
                params@,
                outs,
                params_res,
            );
        let parsed_params = match params_res {
            Ok(v) => v,
            Err(e) => {
                assert(is_lazy_run(*parse_expr, exprs@, eo) && is_lazy_run(*parse_expr, params@, po));
                return Err(e);
            },
        };
        let mut names: Vec<String> = Vec::new();
        let mut i: usize = 0;
        while i < constants.len()
            invariant
                i <= constants@.len(),
                names@.len() == i,
                forall|k: int| 0 <= k < i ==> #[trigger] names@[k] == constants@[k].0,
            decreases constants@.len() - i,
        {
            names.push(constants[i].0.clone());
            i = i + 1;
        }
        assert(names@ =~= constant_names(constants@));
        let symbols_res = parse_symbols(&names, parse_symbol);
        let ghost co = choose|outs: Seq<Result<S, String>>|
            #[trigger] is_lazy_run(*parse_symbol, names@, outs) && symbols_outcome(
                names@,
                outs,
                symbols_res,
            );
        let symbols = match symbols_res {
            Ok(v) => v,
            Err(e) => {
                assert(is_lazy_run(*parse_expr, exprs@, eo) && is_lazy_run(*parse_expr, params@, po)
                    && is_lazy_run(*parse_symbol, constant_names(constants@), co));
                return Err(e);
            },
        };
        let ghost consts = constants@;
        let ghost bound = bind_constants(symbols@, constants@);
        let replacements = bind_constant_values(symbols, constants, same);
        proof {
            lemma_with_replacements(bound);
        }
        let ghost fns = functions@;
        let ex = Expressions {
            exprs: parsed_exprs,
            params: parsed_params,
            functions,
            replacements,
        };
        assert(is_lazy_run(*parse_expr, exprs@, eo) && is_lazy_run(*parse_expr, params@, po)
            && is_lazy_run(*parse_symbol, constant_names(consts), co));
        Ok(ex)
    }

    /// Adds or overrides a constant substitution.
    ///
    /// The given `symbol` will be replaced by `value` in every expression (and
    /// function body) the next time an evaluator is built. An existing entry
    /// for the symbol is overwritten in place; otherwise the pair is added at
    /// the end. `same` tells whether two symbols are the same.
    ///
    /// Returns [`SymbolicaError::Symbol`](crate::error::SymbolicaError::Symbol)
    /// if `symbol` is not a valid symbol, and then changes nothing.
    pub fn set_constant<PS: Fn(&String) -> Result<S, String>, EQ: Fn(&S, &S) -> bool>(
        &mut self,
        symbol: &String,
        value: A,
        parse_symbol: &PS,
        same: &EQ,
    ) -> (res: Result<(), SymbolicEvalError>)
        requires
            forall|x: &String| parse_symbol.requires((x,)),
            forall|a: &S, b: &S| same.requires((a, b)),
            forall|a: &S, b: &S, r: bool| same.ensures((a, b), r) ==> r == (*a == *b),
        ensures
            match res {
                Ok(()) => exists|s: S|
                    #[trigger] parse_symbol.ensures((symbol,), Ok::<S, String>(s))
                        && final(self).replacements@ == with_replacement(
                        old(self).replacements@,
                        s,
                        value,
                    ) && final(self).exprs == old(self).exprs && final(self).params == old(
                        self,
                    ).params && final(self).functions == old(self).functions,
                Err(e) => exists|m: String|
                    #[trigger] parse_symbol.ensures((symbol,), Err::<S, String>(m)) && e.is_symbol(
                        symbol@,
                        parse_symbol_message(),
                    ) && *final(self) == *old(self),
            },
            names_each_once(old(self).replacements@) ==> names_each_once(
                final(self).replacements@,
            ),
    {
        match parse_symbol(symbol) {
            Ok(s) => {
                let ghost t0 = self.replacements@;
                let ghost s0 = s;
                put_replacement(&mut self.replacements, s, value, same);
                proof {
                    if names_each_once(t0) {
                        lemma_with_replacement_once(t0, s0, value);
                    }
                }
                Ok(())
            },
            Err(m) => {
                let e = symbol_error(symbol.clone(), "Failed to parse symbol");
                assert(parse_symbol.ensures((symbol,), Err::<S, String>(m)));
                Err(e)
            },
        }
    }
}

/// Adding a replacement at the end makes its value the one substituted for
/// its symbol and leaves every other symbol's value unchanged.
proof fn lemma_replacement_push<S, A>(replacements: Seq<(S, A)>, symbol: S, value: A)
    ensures
        replacement(replacements.push((symbol, value)), symbol) == Some(value),
        forall|other: S|
            other != symbol ==> #[trigger] replacement(replacements.push((symbol, value)), other)
                == replacement(replacements, other),
{
    assert(replacements.push((symbol, value)).drop_last() =~= replacements);
}

/// A value that `replacements` substitutes for `symbol` is given for it by
/// one of its entries.
proof fn lemma_replacement_found<S, A>(replacements: Seq<(S, A)>, symbol: S)
    requires
        replacement(replacements, symbol) is Some,
    ensures
        exists|i: int|
            0 <= i < replacements.len() && #[trigger] replacements[i] == (
                symbol,
                replacement(replacements, symbol)->Some_0,
            ),
    decreases replacements.len(),
{
    let front = replacements.drop_last();
    if replacements.last().0 == symbol {
        assert(replacements[replacements.len() - 1] == replacements.last());
    } else {
        lemma_replacement_found(front, symbol);
        let i = choose|i: int|
            0 <= i < front.len() && #[trigger] front[i] == (
                symbol,
                replacement(front, symbol)->Some_0,
            );
        assert(replacements[i] == front[i]);
    }
}

/// Setting a constant (which puts `(symbol, value)` into the replacements,
/// see [`Expressions::set_constant`]) makes the evaluator substitute `value`
/// for `symbol`, whatever was given for it before, and leaves the
/// substitution of every other symbol unchanged (see
/// [`Expressions::symbolic_evaluator`]).
pub proof fn lemma_set_constant_overrides<S, A>(
    replacements: Seq<(S, A)>,
    symbol: S,
    value: A,
    table: Seq<(S, A)>,
)
    requires
        resolves(with_replacement(replacements, symbol, value), table),
    ensures
        exists|i: int| 0 <= i < table.len() && #[trigger] table[i] == (symbol, value),
        forall|i: int| 0 <= i < table.len() && #[trigger] table[i].0 == symbol ==> table[i].1 == value,
        forall|other: S|
            other != symbol ==> #[trigger] replacement(table, other) == replacement(
                replacements,
                other,
            ),
{
    lemma_replacement_with(replacements, symbol, value, symbol);
    assert(replacement(table, symbol) == Some(value));
    lemma_replacement_found(table, symbol);
    assert forall|i: int| 0 <= i < table.len() && #[trigger] table[i].0 == symbol implies table[i].1
        == value by {
        let j = choose|j: int| 0 <= j < table.len() && #[trigger] table[j] == (symbol, value);
        if i != j {
            assert(table[i].0 != table[j].0);
        }
    }
    assert forall|other: S| other != symbol implies #[trigger] replacement(table, other)
        == replacement(replacements, other) by {
        lemma_replacement_with(replacements, symbol, value, other);
        assert(replacement(table, other) == replacement(
            with_replacement(replacements, symbol, value),
            other,
        ));
    }
}

/// No symbol is named twice in `table`.
pub open spec fn names_each_once<S, A>(table: Seq<(S, A)>) -> bool {
    forall|i: int, j: int| 0 <= i < j < table.len() ==> #[trigger] table[i].0 != #[trigger] table[j].0
}

/// `table` names each symbol of `replacements` once, with the value last
/// given for it: it is the substitution that `replacements` stands for.
pub open spec fn resolves<S, A>(replacements: Seq<(S, A)>, table: Seq<(S, A)>) -> bool {
    &&& names_each_once(table)
    &&& forall|s: S| #[trigger] replacement(table, s) == replacement(replacements, s)
}

/// What `front` followed by `back` substitutes for `symbol`: the value from
/// `back` if it gives one, else the value from `front`.
proof fn lemma_replacement_concat<S, A>(front: Seq<(S, A)>, back: Seq<(S, A)>, symbol: S)
    ensures
        replacement(front + back, symbol) == match replacement(back, symbol) {
            Some(v) => Some(v),
            None => replacement(front, symbol),
        },
    decreases back.len(),
{
    if back.len() == 0 {
        assert(front + back =~= front);
    } else {
        assert((front + back).drop_last() =~= front + back.drop_last());
        lemma_replacement_concat(front, back.drop_last(), symbol);
    }
}

/// A single replacement substitutes its value for its own symbol only.
proof fn lemma_replacement_single<S, A>(symbol: S, value: A, other: S)
    ensures
        replacement(seq![(symbol, value)], other) == if other == symbol {
            Some(value)
        } else {
            None::<A>
        },
{
    let single = seq![(symbol, value)];
    assert(single.last() == (symbol, value));
    assert(single.drop_last() =~= Seq::<(S, A)>::empty());
    assert(replacement(Seq::<(S, A)>::empty(), other) is None);
}

/// `replacements` substitutes nothing for `symbol` exactly when no entry
/// names it.
proof fn lemma_replacement_absent<S, A>(replacements: Seq<(S, A)>, symbol: S)
    ensures
        replacement(replacements, symbol) is None <==> forall|i: int|
            0 <= i < replacements.len() ==> #[trigger] replacements[i].0 != symbol,
    decreases replacements.len(),
{
    if replacements.len() > 0 {
        let front = replacements.drop_last();
        lemma_replacement_absent(front, symbol);
        if replacement(replacements, symbol) is None {
            assert forall|i: int| 0 <= i < replacements.len() implies #[trigger] replacements[i].0
                != symbol by {
                if i < replacements.len() - 1 {
                    assert(front[i] == replacements[i]);
                }
            }
        }
        if forall|i: int| 0 <= i < replacements.len() ==> #[trigger] replacements[i].0 != symbol {
            assert forall|i: int| 0 <= i < front.len() implies #[trigger] front[i].0 != symbol by {
                assert(front[i] == replacements[i]);
            }
        }
    }
}

/// Resolves the replacements into the substitution they stand for: each
/// symbol once, with the value last given for it. `same` tells whether two
/// symbols are the same.
fn resolve_replacements<S, A, EQ: Fn(&S, &S) -> bool>(replacements: Vec<(S, A)>, same: &EQ) -> (table:
    Vec<(S, A)>)
    requires
        forall|a: &S, b: &S| same.requires((a, b)),
        forall|a: &S, b: &S, r: bool| same.ensures((a, b), r) ==> r == (*a == *b),
    ensures
        resolves(replacements@, table@),
{
    let ghost all = replacements@;
    let mut rest = replacements;
    let mut table: Vec<(S, A)> = Vec::new();
    assert(all.subrange(all.len() as int, all.len() as int) =~= Seq::<(S, A)>::empty());
    while rest.len() > 0
        invariant
            forall|a: &S, b: &S| same.requires((a, b)),
            forall|a: &S, b: &S, r: bool| same.ensures((a, b), r) ==> r == (*a == *b),
            rest@.len() <= all.len(),
            rest@ == all.subrange(0, rest@.len() as int),
            names_each_once(table@),
            forall|s: S|
                #[trigger] replacement(table@, s) == replacement(
                    all.subrange(rest@.len() as int, all.len() as int),
                    s,
                ),
        decreases rest@.len(),
    {
        let ghost n = rest@.len();
        let ghost later = all.subrange(n as int, all.len() as int);
        let (s, v) = rest.pop().unwrap();
        assert(all[n - 1] == (s, v));
        let mut found = false;
        let mut k: usize = 0;
        while k < table.len()
            invariant
                forall|a: &S, b: &S| same.requires((a, b)),
                forall|a: &S, b: &S, r: bool| same.ensures((a, b), r) ==> r == (*a == *b),
                k <= table@.len(),
                found <==> exists|i: int| 0 <= i < k && #[trigger] table@[i].0 == s,
            decreases table@.len() - k,
        {
            if same(&table[k].0, &s) {
                found = true;
            }
            k = k + 1;
        }
        let ghost now = all.subrange(n - 1, all.len() as int);
        assert(now =~= seq![(s, v)] + later);
        proof {
            lemma_replacement_absent(table@, s);
        }
        if found {
            assert forall|x: S| #[trigger] replacement(table@, x) == replacement(now, x) by {
                lemma_replacement_concat(seq![(s, v)], later, x);
                lemma_replacement_single(s, v, x);
                assert(replacement(table@, x) == replacement(later, x));
                if x == s {
                    assert(replacement(table@, s) is Some);
                }
            }
        } else {
            let ghost old_table = table@;
            table.push((s, v));
            proof {
                lemma_replacement_push(old_table, s, v);
            }
            assert forall|x: S| #[trigger] replacement(table@, x) == replacement(now, x) by {
                lemma_replacement_concat(seq![(s, v)], later, x);
                lemma_replacement_single(s, v, x);
                assert(replacement(old_table, x) == replacement(later, x));
            }
            assert forall|i: int, j: int| 0 <= i < j < table@.len() implies #[trigger] table@[i].0
                != #[trigger] table@[j].0 by {
                if j == table@.len() - 1 {
                    assert(old_table[i] == table@[i]);
                } else {
                    assert(old_table[i] == table@[i] && old_table[j] == table@[j]);
                }
            }
        }
    }
    assert(all.subrange(0, all.len() as int) =~= all);
    table
}

/// `outs` is what parsing the user-defined functions `fs` one by one (see
/// [`Function::new`]) can produce, stopping right after the first failure.
pub open spec fn is_functions_run<
    S,
    A,
    PS: Fn(&String) -> Result<S, String>,
    PE: Fn(&String) -> Result<A, String>,
>(
    parse_symbol: PS,
    parse_expr: PE,
    fs: Seq<PluginArgsFunction>,
    outs: Seq<Result<Function<S, A>, SymbolicEvalError>>,
) -> bool {
    &&& outs.len() <= fs.len()
    &&& forall|i: int|
        0 <= i < outs.len() ==> function_outcome(
            parse_symbol,
            parse_expr,
            fs[i].name,
            fs[i].args@,
            fs[i].body,
            #[trigger] outs[i],
        )
    &&& forall|i: int| 0 <= i < outs.len() - 1 ==> #[trigger] outs[i] is Ok
    &&& outs.len() < fs.len() ==> (outs.len() > 0 && outs.last() is Err)
}

/// Parsing the functions went through all of them without a failure.
pub open spec fn functions_succeeded<S, A>(
    outs: Seq<Result<Function<S, A>, SymbolicEvalError>>,
    n: nat,
) -> bool {
    outs.len() == n && (outs.len() == 0 || outs.last() is Ok)
}

/// The functions that a run parsed.
pub open spec fn function_values<S, A>(outs: Seq<Result<Function<S, A>, SymbolicEvalError>>) -> Seq<
    Function<S, A>,
> {
    outs.map_values(|r: Result<Function<S, A>, SymbolicEvalError>| r->Ok_0)
}

/// Parses each user-defined function in turn (see [`Function::new`]),
/// stopping at the first failure, whose error is returned.
pub fn parse_functions<
    S,
    A,
    PS: Fn(&String) -> Result<S, String>,
    PE: Fn(&String) -> Result<A, String>,
>(fs: &Vec<PluginArgsFunction>, parse_symbol: &PS, parse_expr: &PE) -> (res: Result<
    Vec<Function<S, A>>,
    SymbolicEvalError,
>)
    requires
        forall|x: &String| parse_symbol.requires((x,)),
        forall|x: &String| parse_expr.requires((x,)),
    ensures
        exists|outs: Seq<Result<Function<S, A>, SymbolicEvalError>>|
            {
                &&& #[trigger] is_functions_run(*parse_symbol, *parse_expr, fs@, outs)
                &&& match res {
                    Ok(v) => functions_succeeded(outs, fs@.len()) && v@ == function_values(outs),
                    Err(e) => outs.len() > 0 && outs.last() == Err::<
                        Function<S, A>,
                        SymbolicEvalError,
                    >(e),
                }
            },
{
    let mut values: Vec<Function<S, A>> = Vec::new();
    let ghost mut outs: Seq<Result<Function<S, A>, SymbolicEvalError>> = Seq::empty();
    let mut i: usize = 0;
    while i < fs.len()
        invariant
            forall|x: &String| parse_symbol.requires((x,)),
            forall|x: &String| parse_expr.requires((x,)),
            i <= fs@.len(),
            outs.len() == i,
            values@.len() == i,
            forall|k: int|
                0 <= k < i ==> function_outcome(
                    *parse_symbol,
                    *parse_expr,
                    fs@[k].name,
                    fs@[k].args@,
                    fs@[k].body,
                    #[trigger] outs[k],
                ),
            forall|k: int|
                0 <= k < i ==> #[trigger] outs[k] == Ok::<Function<S, A>, SymbolicEvalError>(
                    values@[k],
                ),
        decreases fs@.len() - i,
    {
        let f = &fs[i];
        let r = Function::new(&f.name, &f.args, &f.body, parse_symbol, parse_expr);
        proof {
            outs = outs.push(r);
        }
        match r {
            Ok(v) => {
                values.push(v);
            },
            Err(e) => {
                assert(is_functions_run(*parse_symbol, *parse_expr, fs@, outs));
                return Err(e);
            },
        }
        i = i + 1;
    }
    assert(values@ =~= function_values(outs));
    assert(is_functions_run(*parse_symbol, *parse_expr, fs@, outs));
    Ok(values)
}

/// The builder in hand after the first `n` registrations of a run that
/// started from `b0`.
pub open spec fn builder_after<B>(b0: B, outs: Seq<Result<B, String>>, n: int) -> B {
    if n == 0 {
        b0
    } else {
        outs[n - 1]->Ok_0
    }
}

/// `outs` is what registering the functions `fs` one by one can produce,
/// starting from the evaluator builder `b0`: each registration takes the
/// builder the previous one gave, the function's name and parameters, and
/// its body with the constants substituted (`bodies`, one per registration
/// made); it stops right after the first failure.
pub open spec fn is_registration_run<S, A, B, AD: Fn(B, &S, &Vec<S>, A) -> Result<B, String>>(
    register: AD,
    b0: B,
    fs: Seq<Function<S, A>>,
    bodies: Seq<A>,
    outs: Seq<Result<B, String>>,
) -> bool {
    &&& bodies.len() == outs.len()
    &&& outs.len() <= fs.len()
    &&& forall|i: int|
        0 <= i < outs.len() ==> register.ensures(
            (
                builder_after(b0, outs, i),
                &fs[i].name,
                &fs[i].args,
                bodies[i],
            ),
            #[trigger] outs[i],
        )
    &&& forall|i: int| 0 <= i < outs.len() - 1 ==> #[trigger] outs[i] is Ok
    &&& outs.len() < fs.len() ==> (outs.len() > 0 && outs.last() is Err)
}

/// Each of `subs` is what `substitute` gave for the expression at the same
/// position, with the constants `replacements`.
pub open spec fn is_substitution<S, A, SU: Fn(&A, &Vec<(S, A)>) -> A>(
    substitute: SU,
    exprs: Seq<A>,
    replacements: Vec<(S, A)>,
    subs: Seq<A>,
) -> bool {
    &&& subs.len() == exprs.len()
    &&& forall|i: int|
        0 <= i < exprs.len() ==> substitute.ensures((&exprs[i], &replacements), #[trigger] subs[i])
}

/// What [`Expressions::symbolic_evaluator`] returns: the replacements are
/// resolved into the substitution they stand for (`table`), which is applied
/// to every expression; a builder is started from the substituted
/// expressions and the parameters, every function is registered in order
/// with the substitution applied to its body, and the builder is built; the
/// first failure is reported as a
/// [`SymbolicaError::Evaluation`](crate::error::SymbolicaError::Evaluation).
pub open spec fn evaluator_outcome<
    S,
    A,
    B,
    E,
    SU: Fn(&A, &Vec<(S, A)>) -> A,
    ST: FnOnce(Vec<A>, &Vec<A>) -> B,
    AD: Fn(B, &S, &Vec<S>, A) -> Result<B, String>,
    BU: FnOnce(B) -> Result<E, String>,
>(
    ex: Expressions<S, A>,
    substitute: SU,
    start: ST,
    register: AD,
    build: BU,
    res: Result<E, SymbolicaError>,
) -> bool {
    exists|
        table: Vec<(S, A)>,
        subs: Vec<A>,
        b0: B,
        bodies: Seq<A>,
        outs: Seq<Result<B, String>>,
    |
        #![trigger resolves(ex.replacements@, table@), start.ensures((subs, &ex.params), b0), is_registration_run(register, b0, ex.functions@, bodies, outs)]
        {
            &&& resolves(ex.replacements@, table@)
            &&& is_substitution(substitute, ex.exprs@, table, subs@)
            &&& forall|i: int|
                0 <= i < bodies.len() ==> substitute.ensures(
                    (&ex.functions@[i].body, &table),
                    #[trigger] bodies[i],
                )
            &&& start.ensures((subs, &ex.params), b0)
            &&& is_registration_run(register, b0, ex.functions@, bodies, outs)
            &&& registered_outcome(build, b0, outs, res)
        }
}

/// What is returned once the registrations `outs`, started from the builder
/// `b0`, are over: the first registration failure, or else what building
/// the last builder gives.
pub open spec fn registered_outcome<B, E, BU: FnOnce(B) -> Result<E, String>>(
    build: BU,
    b0: B,
    outs: Seq<Result<B, String>>,
    res: Result<E, SymbolicaError>,
) -> bool {
    if outs.len() > 0 && outs.last() is Err {
        res matches Err(SymbolicaError::Evaluation(m)) && m == outs.last()->Err_0
    } else {
        exists|br: Result<E, String>|
            #[trigger] build.ensures((builder_after(b0, outs, outs.len() as int),), br) && match br {
                Ok(ev) => res == Ok::<E, SymbolicaError>(ev),
                Err(m) => res matches Err(SymbolicaError::Evaluation(m2)) && m2 == m,
            }
    }
}

/// The pieces of one compilation make up its outcome.
proof fn lemma_evaluator_outcome<
    S,
    A,
    B,
    E,
    SU: Fn(&A, &Vec<(S, A)>) -> A,
    ST: FnOnce(Vec<A>, &Vec<A>) -> B,
    AD: Fn(B, &S, &Vec<S>, A) -> Result<B, String>,
    BU: FnOnce(B) -> Result<E, String>,
>(
    ex: Expressions<S, A>,
    substitute: SU,
    start: ST,
    register: AD,
    build: BU,
    table: Vec<(S, A)>,
    subs: Vec<A>,
    b0: B,
    bodies: Seq<A>,
    outs: Seq<Result<B, String>>,
    res: Result<E, SymbolicaError>,
)
    requires
        resolves(ex.replacements@, table@),
        is_substitution(substitute, ex.exprs@, table, subs@),
        forall|i: int|
            0 <= i < bodies.len() ==> substitute.ensures(
                (&ex.functions@[i].body, &table),
                #[trigger] bodies[i],
            ),
        start.ensures((subs, &ex.params), b0),
        is_registration_run(register, b0, ex.functions@, bodies, outs),
        registered_outcome(build, b0, outs, res),
    ensures
        evaluator_outcome(ex, substitute, start, register, build, res),
{
}

impl<S, A> Expressions<S, A> {
    /// Compiles the expressions into an evaluator.
    ///
    /// The constants in [`replacements`](Self::replacements) are substituted
    /// into every expression and function body first (`substitute`), each
    /// symbol by the value last given for it (`same` tells whether two
    /// symbols are the same); an evaluator builder is started from the
    /// substituted expressions and the parameters (`start`), each
    /// user-defined function is registered in turn (`register`), and the
    /// builder is built (`build`).
    ///
    /// Returns [`SymbolicaError::Evaluation`](crate::error::SymbolicaError::Evaluation)
    /// if a function fails to register or the evaluator cannot be built.
    pub fn symbolic_evaluator<
        B,
        E,
        SU: Fn(&A, &Vec<(S, A)>) -> A,
        ST: FnOnce(Vec<A>, &Vec<A>) -> B,
        AD: Fn(B, &S, &Vec<S>, A) -> Result<B, String>,
        BU: FnOnce(B) -> Result<E, String>,
        EQ: Fn(&S, &S) -> bool,
    >(self, same: &EQ, substitute: &SU, start: ST, register: &AD, build: BU) -> (res: Result<
        E,
        SymbolicaError,
    >)
        requires
            forall|a: &S, b: &S| same.requires((a, b)),
            forall|a: &S, b: &S, r: bool| same.ensures((a, b), r) ==> r == (*a == *b),
            forall|a: &A, r: &Vec<(S, A)>| substitute.requires((a, r)),
            forall|v: Vec<A>, p: &Vec<A>| start.requires((v, p)),
            forall|b: B, n: &S, xs: &Vec<S>, body: A| register.requires((b, n, xs, body)),
            forall|b: B| build.requires((b,)),
        ensures
            evaluator_outcome(self, *substitute, start, *register, build, res),
    {
        let ghost ex = self;
        let Expressions { exprs, params, functions, replacements } = self;
        let table = resolve_replacements(replacements, same);
        let mut subs: Vec<A> = Vec::new();
        let mut i: usize = 0;
        while i < exprs.len()
            invariant
                forall|a: &A, r: &Vec<(S, A)>| substitute.requires((a, r)),
                ex.exprs == exprs && ex.params == params && ex.functions == functions,
                resolves(ex.replacements@, table@),
                i <= exprs@.len(),
                subs@.len() == i,
                forall|k: int|
                    0 <= k < i ==> substitute.ensures(
                        (&exprs@[k], &table),
                        #[trigger] subs@[k],
                    ),
            decreases exprs@.len() - i,
        {
            subs.push(substitute(&exprs[i], &table));
            i = i + 1;
        }
        let ghost subs_view = subs;
        let b0 = start(subs, &params);
        let ghost b0_view = b0;
        let mut b = b0;
        let ghost mut bodies: Seq<A> = Seq::empty();
        let ghost mut outs: Seq<Result<B, String>> = Seq::empty();
        let mut j: usize = 0;
        while j < functions.len()
            invariant
                forall|a: &A, r: &Vec<(S, A)>| substitute.requires((a, r)),
                forall|b: B, n: &S, xs: &Vec<S>, body: A| register.requires((b, n, xs, body)),
                ex == self,
                ex.exprs == exprs && ex.params == params && ex.functions == functions,
                resolves(ex.replacements@, table@),
                start.ensures((subs_view, &ex.params), b0_view),
                is_substitution(*substitute, ex.exprs@, table, subs_view@),
                j <= functions@.len(),
                bodies.len() == j,
                outs.len() == j,
                forall|k: int|
                    0 <= k < j ==> substitute.ensures(
                        (&functions@[k].body, &table),
                        #[trigger] bodies[k],
                    ),
                forall|k: int|
                    0 <= k < j ==> register.ensures(
                        (
                            builder_after(b0_view, outs, k),
                            &functions@[k].name,
                            &functions@[k].args,
                            bodies[k],
                        ),
                        #[trigger] outs[k],
                    ),
                forall|k: int| 0 <= k < j ==> #[trigger] outs[k] is Ok,
                b == builder_after(b0_view, outs, j as int),
            decreases functions@.len() - j,
        {
            let f = &functions[j];
            let body = substitute(&f.body, &table);
            let r = register(b, &f.name, &f.args, body);
            proof {
                bodies = bodies.push(body);
                outs = outs.push(r);
            }
            match r {
                Ok(next) => {
                    b = next;
                },
                Err(m) => {
                    let res = Err(SymbolicaError::Evaluation(m));
                    proof {
                        lemma_evaluator_outcome(
                            ex,
                            *substitute,
                            start,
                            *register,
                            build,
                            table,
                            subs_view,
                            b0_view,
                            bodies,
                            outs,
                            res,
                        );
                    }
                    return res;
                },
            }
            j = j + 1;
        }
        let ghost b_last = b;
        let br = build(b);
        let ghost br_view = br;
        let res = match br {
            Ok(ev) => Ok(ev),
            Err(m) => Err(SymbolicaError::Evaluation(m)),
        };
        assert(build.ensures((b_last,), br_view));
        proof {
            lemma_evaluator_outcome(
                ex,
                *substitute,
                start,
                *register,
                build,
                table,
                subs_view,
                b0_view,
                bodies,
                outs,
                res,
            );
        }
        res
    }
}

} // verus!
