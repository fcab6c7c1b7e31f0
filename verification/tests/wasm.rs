use symbolic_eval::error::{SymbolicEvalError, SymbolicaError};
use symbolic_eval::expressions::{Expressions, SymbolDomain};
use symbolic_eval::wasm::evaluation::eval_expr;
use symbolic_eval::wasm::expressions_from_args;
use symbolic_eval::ode::OdeConfig;
use symbolic_eval::wasm::ode::solve_ode;
use symbolic_eval::{PluginArgsExpressions, PluginArgsFunction};

fn parse_symbol(s: &String) -> Result<String, String> {
    if !s.is_empty() && s.chars().all(|c| c.is_alphanumeric()) {
        Ok(s.clone())
    } else {
        Err(format!("bad symbol {s}"))
    }
}

fn same(a: &String, b: &String) -> bool {
    a == b
}

fn parse_expr(s: &String) -> Result<String, String> {
    if s.trim().ends_with('+') {
        Err(format!("bad expression {s}"))
    } else {
        Ok(s.trim().to_string())
    }
}

fn interior(min: f64, max: f64, samples: usize, idx: usize) -> f64 {
    min + (max - min) / (samples - 1) as f64 * idx as f64
}

fn complex(re: f64, im: f64) -> (f64, f64) {
    (re, im)
}

fn project(c: (f64, f64)) -> (f64, bool) {
    (c.0, c.1 == 0.0)
}

fn defaults() -> Vec<(String, String)> {
    vec![("pi".to_string(), "3.14".to_string()), ("e".to_string(), "2.72".to_string())]
}

fn square_args() -> PluginArgsExpressions {
    PluginArgsExpressions {
        exprs: vec!["f(x)".to_string()],
        params: vec!["x".to_string()],
        functions: vec![PluginArgsFunction {
            name: "f".to_string(),
            args: vec!["z".to_string()],
            body: "z^2".to_string(),
        }],
    }
}

#[test]
fn arguments_become_expressions() {
    let ex = expressions_from_args::<String, String, _, _, _>(&square_args(), defaults(), &parse_symbol, &parse_expr, &same)
        .ok()
        .unwrap();
    assert_eq!(ex.exprs, vec!["f(x)".to_string()]);
    assert_eq!(ex.params, vec!["x".to_string()]);
    assert_eq!(ex.functions.len(), 1);
    assert_eq!(ex.functions[0].args, vec!["z".to_string()]);
    assert_eq!(ex.replacements.len(), 2);
}

#[test]
fn function_errors_come_before_expression_errors() {
    let mut args = square_args();
    args.exprs = vec!["x +".to_string()];
    args.functions[0].args = vec!["z w".to_string()];
    let e = expressions_from_args::<String, String, _, _, _>(&args, defaults(), &parse_symbol, &parse_expr, &same)
        .err()
        .unwrap();
    match e {
        SymbolicEvalError::SymbolicaError(SymbolicaError::Symbol { input, message }) => {
            assert_eq!(input, "z w");
            assert_eq!(message, "Failed to parse symbol");
        }
        _ => panic!("expected a symbol error"),
    }
}

#[test]
fn eval_expr_samples_and_evaluates_the_grid() {
    // The squaring function f(x) = x^2 over x in 0..=3 with four samples.
    let domains = vec![SymbolDomain::RealDomain { min: 0.0, max: 3.0, samples: 4 }];
    let compile = |ex: Expressions<String, String>| -> Result<usize, SymbolicEvalError> { Ok(ex.exprs.len()) };
    let eval_at = |n: &usize, p: &Vec<(f64, f64)>| vec![(p[0].0 * p[0].0, 0.0); *n];
    let rows = eval_expr(
        &square_args(),
        defaults(),
        &domains,
        &parse_symbol,
        &parse_expr,
        &same,
        0.0,
        &interior,
        &complex,
        compile,
        &eval_at,
        &project,
    )
    .unwrap();
    let ys: Vec<f64> = rows.iter().map(|(_, out)| out[0]).collect();
    assert_eq!(ys, [0.0, 1.0, 4.0, 9.0]);
    let xs: Vec<f64> = rows.iter().map(|(inputs, _)| inputs[0]).collect();
    assert_eq!(xs, [0.0, 1.0, 2.0, 3.0]);
}

#[test]
fn eval_expr_reports_parse_errors_first() {
    let mut args = square_args();
    args.exprs = vec!["x +".to_string()];
    let domains = vec![SymbolDomain::ComplexDomain {
        min_re: 0.0,
        max_re: 1.0,
        min_im: 0.0,
        max_im: 1.0,
        samples_re: 2,
        samples_im: 2,
    }];
    let compile = |_ex: Expressions<String, String>| -> Result<(), SymbolicEvalError> { panic!("not compiled") };
    let eval_at = |_ev: &(), _p: &Vec<(f64, f64)>| -> Vec<(f64, f64)> { panic!("not evaluated") };
    let e = eval_expr(
        &args,
        defaults(),
        &domains,
        &parse_symbol,
        &parse_expr,
        &same,
        0.0,
        &interior,
        &complex,
        compile,
        &eval_at,
        &project,
    )
    .unwrap_err();
    assert!(matches!(e, SymbolicEvalError::SymbolicaError(SymbolicaError::Parse { .. })));
}

#[test]
fn solve_ode_gives_time_then_state_rows() {
    let args = PluginArgsExpressions {
        exprs: vec!["1".to_string(), "1".to_string()],
        params: vec!["t".to_string(), "y0".to_string(), "y1".to_string()],
        functions: vec![],
    };
    let compile = |ex: Expressions<String, String>| -> Result<usize, SymbolicEvalError> { Ok(ex.exprs.len()) };
    // One step of dt from the initial state, for each of the n equations.
    let solve = |n: usize, _m: (), t_span: (f64, f64), dt: f64, init: Vec<f64>| -> Result<(Vec<f64>, Vec<Vec<f64>>), String> {
        assert_eq!(init.len(), n);
        Ok((vec![t_span.0, t_span.0 + dt], vec![init.clone(), init.iter().map(|y| y + dt).collect()]))
    };
    let config = OdeConfig { method: (), t_span: (0.0, 0.1), dt: 0.1, initial_conditions: vec![0.0, 0.0] };
    let rows = solve_ode(&args, defaults(), &parse_symbol, &parse_expr, &same, config, compile, solve).unwrap();
    assert_eq!(rows, vec![vec![0.0, 0.0, 0.0], vec![0.1, 0.1, 0.1]]);
}

#[test]
fn solve_ode_rejects_empty_expressions() {
    let args = PluginArgsExpressions { exprs: vec![], params: vec!["t".to_string()], functions: vec![] };
    let compile = |_ex: Expressions<String, String>| -> Result<(), SymbolicEvalError> { panic!("not compiled") };
    let solve = |_ev: (), _m: (), _span: (f64, f64), _dt: f64, _init: Vec<f64>| -> Result<(Vec<f64>, Vec<Vec<f64>>), String> {
        panic!("not solved")
    };
    let config = OdeConfig { method: (), t_span: (0.0, 1.0), dt: 0.1, initial_conditions: vec![] };
    match solve_ode(&args, defaults(), &parse_symbol, &parse_expr, &same, config, compile, solve).unwrap_err() {
        SymbolicEvalError::ArgumentError(m) => assert_eq!(m, "No expressions provided"),
        _ => panic!("expected an argument error"),
    }
}
