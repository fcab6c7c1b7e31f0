use std::cell::Cell;

use symbolic_eval::error::{SymbolicEvalError, SymbolicaError};
use symbolic_eval::expressions::{
    parse_exprs, parse_functions, parse_symbols, Expressions, Function,
};
use symbolic_eval::PluginArgsFunction;

/// A symbol is a non-empty run of letters, digits and underscores.
fn parse_symbol(s: &String) -> Result<String, String> {
    if !s.is_empty() && s.chars().all(|c| c.is_alphanumeric() || c == '_') {
        Ok(s.clone())
    } else {
        Err(format!("bad symbol {s}"))
    }
}

/// An expression parses unless it is empty or ends with an operator.
fn parse_expr(s: &String) -> Result<String, String> {
    let t = s.trim();
    if t.is_empty() || t.ends_with('+') || t.ends_with('*') {
        Err(format!("bad expression {s}"))
    } else {
        Ok(t.to_string())
    }
}

fn strings(xs: &[&str]) -> Vec<String> {
    xs.iter().map(|s| s.to_string()).collect()
}

fn symbol_error(e: SymbolicEvalError) -> (String, String) {
    match e {
        SymbolicEvalError::SymbolicaError(SymbolicaError::Symbol { input, message }) => (input, message),
        _ => panic!("expected a symbol error"),
    }
}

fn parse_error(e: SymbolicEvalError) -> (String, String) {
    match e {
        SymbolicEvalError::SymbolicaError(SymbolicaError::Parse { input, message }) => (input, message),
        _ => panic!("expected a parse error"),
    }
}

fn no_constants() -> Vec<(String, String)> {
    vec![]
}

#[test]
fn new_rejects_empty_expressions() {
    // The emptiness check happens before any parsing.
    let err = Expressions::<String, String>::new(
        &Vec::<String>::new(),
        &strings(&["x"]),
        vec![],
        no_constants(),
        &parse_symbol,
        &parse_expr,
        &same,
    )
    .err()
    .unwrap();

    assert!(matches!(err, SymbolicEvalError::ArgumentError(_)));
}

#[test]
fn empty_expressions_are_refused_before_any_parsing() {
    let calls = Cell::new(0usize);
    let counting_symbol = |s: &String| {
        calls.set(calls.get() + 1);
        parse_symbol(s)
    };
    let counting_expr = |s: &String| {
        calls.set(calls.get() + 1);
        parse_expr(s)
    };
    let err = Expressions::<String, String>::new(
        &vec![],
        &strings(&["x", "y"]),
        vec![],
        vec![("k".to_string(), "1".to_string())],
        &counting_symbol,
        &counting_expr,
        &same,
    )
    .err()
    .unwrap();
    match err {
        SymbolicEvalError::ArgumentError(m) => assert_eq!(m, "No expressions provided"),
        _ => panic!("expected an argument error"),
    }
    assert_eq!(calls.get(), 0);
}

#[test]
fn expressions_parse_in_order() {
    let ex = Expressions::<String, String>::new(
        &strings(&["x + y", "k * x"]),
        &strings(&["x", "y"]),
        vec![],
        vec![("k".to_string(), "4".to_string())],
        &parse_symbol,
        &parse_expr,
        &same,
    )
    .ok()
    .unwrap();
    assert_eq!(ex.exprs, strings(&["x + y", "k * x"]));
    assert_eq!(ex.params, strings(&["x", "y"]));
    assert_eq!(ex.replacements, vec![("k".to_string(), "4".to_string())]);
    assert!(ex.functions.is_empty());
}

#[test]
fn the_first_bad_expression_is_reported() {
    let seen = Cell::new(0usize);
    let counting_expr = |s: &String| {
        seen.set(seen.get() + 1);
        parse_expr(s)
    };
    let err = Expressions::<String, String>::new(
        &strings(&["x", "x +", "y *"]),
        &strings(&["x"]),
        vec![],
        no_constants(),
        &parse_symbol,
        &counting_expr,
        &same,
    )
    .err()
    .unwrap();
    assert_eq!(
        parse_error(err),
        ("x +".to_string(), "Failed to parse input".to_string())
    );
    assert_eq!(seen.get(), 2);
}

#[test]
fn a_bad_parameter_is_a_parse_error() {
    let err = Expressions::<String, String>::new(
        &strings(&["x"]),
        &strings(&["x", "+"]),
        vec![],
        no_constants(),
        &parse_symbol,
        &parse_expr,
        &same,
    )
    .err()
    .unwrap();
    assert_eq!(parse_error(err), ("+".to_string(), "Failed to parse input".to_string()));
}

#[test]
fn a_bad_constant_name_is_a_symbol_error() {
    let err = Expressions::<String, String>::new(
        &strings(&["x"]),
        &strings(&["x"]),
        vec![],
        vec![("pi".to_string(), "3".to_string()), ("2k".to_string(), "1".to_string()), ("!".to_string(), "0".to_string())],
        &|s: &String| if s.starts_with(char::is_numeric) { Err(format!("digit {s}")) } else { parse_symbol(s) },
        &parse_expr,
        &same,
    )
    .err()
    .unwrap();
    assert_eq!(symbol_error(err), ("2k".to_string(), "Failed to parse symbol".to_string()));
}

#[test]
fn function_new_parses_name_args_and_body() {
    let f = Function::<String, String>::new(
        &"f".to_string(),
        &strings(&["x", "y"]),
        &"x^2 + y^2".to_string(),
        &parse_symbol,
        &parse_expr,
    )
    .ok()
    .unwrap();
    assert_eq!(f.name, "f");
    assert_eq!(f.args, strings(&["x", "y"]));
    assert_eq!(f.body, "x^2 + y^2");
}

#[test]
fn function_new_reports_a_bad_name() {
    let err = Function::<String, String>::new(&"f g".to_string(), &strings(&["x"]), &"x +".to_string(), &parse_symbol, &parse_expr)
        .err()
        .unwrap();
    assert_eq!(
        symbol_error(err),
        ("f g".to_string(), "Failed to parse function name".to_string())
    );
}

#[test]
fn function_new_reports_a_bad_argument() {
    let err = Function::<String, String>::new(&"f".to_string(), &strings(&["x", "y z"]), &"x +".to_string(), &parse_symbol, &parse_expr)
        .err()
        .unwrap();
    assert_eq!(symbol_error(err), ("y z".to_string(), "Failed to parse symbol".to_string()));
}

#[test]
fn function_new_reports_a_bad_body() {
    let err = Function::<String, String>::new(&"f".to_string(), &strings(&["x"]), &"x +".to_string(), &parse_symbol, &parse_expr)
        .err()
        .unwrap();
    assert_eq!(
        parse_error(err),
        ("x +".to_string(), "Failed to parse function body".to_string())
    );
}

#[test]
fn functions_parse_until_the_first_failure() {
    let fs = vec![
        PluginArgsFunction { name: "f".to_string(), args: strings(&["x"]), body: "x".to_string() },
        PluginArgsFunction { name: "g".to_string(), args: strings(&["x"]), body: "x *".to_string() },
        PluginArgsFunction { name: "h h".to_string(), args: vec![], body: "1".to_string() },
    ];
    let err = parse_functions::<String, String, _, _>(&fs, &parse_symbol, &parse_expr).err().unwrap();
    assert_eq!(parse_error(err).1, "Failed to parse function body");
    let ok = parse_functions::<String, String, _, _>(&fs[..1].to_vec(), &parse_symbol, &parse_expr)
        .ok()
        .unwrap();
    assert_eq!(ok.len(), 1);
    assert_eq!(ok[0].name, "f");
}

#[test]
fn parse_exprs_and_symbols_map_errors() {
    assert_eq!(parse_exprs(&strings(&["a", "b"]), &parse_expr).ok().unwrap(), strings(&["a", "b"]));
    let e = parse_exprs::<String, _>(&strings(&["a", "", "c +"]), &parse_expr).err().unwrap();
    assert_eq!(parse_error(e), ("".to_string(), "Failed to parse input".to_string()));
    let e = parse_symbols::<String, _>(&strings(&["a", "b c"]), &parse_symbol).err().unwrap();
    assert_eq!(symbol_error(e), ("b c".to_string(), "Failed to parse symbol".to_string()));
}

#[test]
fn set_constant_overrides_a_symbol() {
    let mut ex = Expressions::<String, String>::new(
        &strings(&["k * x"]),
        &strings(&["x"]),
        vec![],
        vec![("k".to_string(), "1".to_string())],
        &parse_symbol,
        &parse_expr,
        &same,
    )
    .ok()
    .unwrap();
    ex.set_constant(&"k".to_string(), "4".to_string(), &parse_symbol, &same).ok().unwrap();
    // The entry for `k` is overwritten in place.
    assert_eq!(ex.replacements, vec![("k".to_string(), "4".to_string())]);
    // A new symbol is added at the end.
    ex.set_constant(&"c".to_string(), "2".to_string(), &parse_symbol, &same).ok().unwrap();
    assert_eq!(ex.replacements, vec![("k".to_string(), "4".to_string()), ("c".to_string(), "2".to_string())]);
    let err = ex.set_constant(&"k k".to_string(), "5".to_string(), &parse_symbol, &same).err().unwrap();
    assert_eq!(symbol_error(err), ("k k".to_string(), "Failed to parse symbol".to_string()));
    assert_eq!(ex.replacements.len(), 2);
}

#[test]
fn repeated_constant_names_keep_the_last_value_once() {
    let ex = Expressions::<String, String>::new(
        &strings(&["k"]),
        &strings(&[]),
        vec![],
        vec![
            ("k".to_string(), "1".to_string()),
            ("c".to_string(), "2".to_string()),
            ("k".to_string(), "3".to_string()),
        ],
        &parse_symbol,
        &parse_expr,
        &same,
    )
    .ok()
    .unwrap();
    assert_eq!(ex.replacements, vec![("k".to_string(), "3".to_string()), ("c".to_string(), "2".to_string())]);
}

/// What the toy evaluator builder records: the substituted expressions, the
/// parameters and one line per registered function.
type Recorded = (Vec<String>, Vec<String>, Vec<String>);

/// Writes the substitution table after the expression, as `expr[s=v,...]`.
fn substitute(expr: &String, table: &Vec<(String, String)>) -> String {
    let entries: Vec<String> = table.iter().map(|(s, v)| format!("{s}={v}")).collect();
    format!("{expr}[{}]", entries.join(","))
}

fn same(a: &String, b: &String) -> bool {
    a == b
}

fn start(exprs: Vec<String>, params: &Vec<String>) -> Recorded {
    (exprs, params.clone(), vec![])
}

/// Registers a function unless it is named `bad`.
fn register(b: Recorded, name: &String, args: &Vec<String>, body: String) -> Result<Recorded, String> {
    if name == "bad" {
        return Err(format!("cannot register {name}"));
    }
    let (exprs, params, mut fns) = b;
    fns.push(format!("{name}({})={body}", args.join(",")));
    Ok((exprs, params, fns))
}

fn function(name: &str, args: &[&str], body: &str) -> Function<String, String> {
    Function { name: name.to_string(), args: strings(args), body: body.to_string() }
}

fn evaluation_message(e: SymbolicaError) -> String {
    match e {
        SymbolicaError::Evaluation(m) => m,
        _ => panic!("expected an evaluation error"),
    }
}

#[test]
fn evaluator_substitutes_the_last_value_of_each_constant() {
    let ex = Expressions {
        exprs: strings(&["k*x", "c"]),
        params: strings(&["x"]),
        functions: vec![function("f", &["y"], "k*y")],
        replacements: vec![
            ("k".to_string(), "1".to_string()),
            ("c".to_string(), "2".to_string()),
            ("k".to_string(), "4".to_string()),
        ],
    };
    let built = ex.symbolic_evaluator(&same, &substitute, start, &register, |b: Recorded| Ok::<Recorded, String>(b));
    let (exprs, params, fns) = built.ok().unwrap();
    assert_eq!(exprs, strings(&["k*x[k=4,c=2]", "c[k=4,c=2]"]));
    assert_eq!(params, strings(&["x"]));
    assert_eq!(fns, strings(&["f(y)=k*y[k=4,c=2]"]));
}

#[test]
fn set_constant_changes_what_the_evaluator_substitutes() {
    let mut ex = Expressions::<String, String>::new(
        &strings(&["k"]),
        &strings(&[]),
        vec![],
        vec![("k".to_string(), "1".to_string()), ("c".to_string(), "2".to_string())],
        &parse_symbol,
        &parse_expr,
        &same,
    )
    .ok()
    .unwrap();
    ex.set_constant(&"k".to_string(), "4".to_string(), &parse_symbol, &same).ok().unwrap();
    let (exprs, _, _) = ex
        .symbolic_evaluator(&same, &substitute, start, &register, |b: Recorded| Ok::<Recorded, String>(b))
        .ok()
        .unwrap();
    assert_eq!(exprs, strings(&["k[c=2,k=4]"]));
}

#[test]
fn functions_are_registered_in_order() {
    let ex = Expressions {
        exprs: strings(&["f(g(x))"]),
        params: strings(&["x"]),
        functions: vec![function("f", &["a"], "a+1"), function("g", &["a", "b"], "a*b")],
        replacements: vec![],
    };
    let (_, _, fns) = ex
        .symbolic_evaluator(&same, &substitute, start, &register, |b: Recorded| Ok::<Recorded, String>(b))
        .ok()
        .unwrap();
    assert_eq!(fns, strings(&["f(a)=a+1[]", "g(a,b)=a*b[]"]));
}

#[test]
fn a_failed_registration_stops_the_compilation() {
    let built = Cell::new(false);
    let ex = Expressions {
        exprs: strings(&["x"]),
        params: strings(&["x"]),
        functions: vec![function("bad", &["a"], "a"), function("f", &["a"], "a")],
        replacements: vec![],
    };
    let e = ex
        .symbolic_evaluator(&same, &substitute, start, &register, |b: Recorded| {
            built.set(true);
            Ok::<Recorded, String>(b)
        })
        .err()
        .unwrap();
    assert_eq!(evaluation_message(e), "cannot register bad");
    assert!(!built.get());
}

#[test]
fn a_failed_build_is_an_evaluation_error() {
    let ex = Expressions {
        exprs: strings(&["x"]),
        params: strings(&["x"]),
        functions: vec![],
        replacements: vec![],
    };
    let e = ex
        .symbolic_evaluator(&same, &substitute, start, &register, |_: Recorded| {
            Err::<Recorded, String>("no evaluator".to_string())
        })
        .err()
        .unwrap();
    assert_eq!(evaluation_message(e), "no evaluator");
}
