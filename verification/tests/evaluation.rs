use symbolic_eval::error::SymbolicEvalError;
use symbolic_eval::evaluation::{
    cartesian_product, check_real_domains, complex_result_to_real, eval_complex_exprs, eval_exprs,
    multi_cartesian_product, sample_domain, sample_domains, sample_interval,
};
use symbolic_eval::expressions::{Expressions, SymbolDomain};

/// The evenly spaced interior point, as the plugin computes it.
fn interior(min: f64, max: f64, samples: usize, idx: usize) -> f64 {
    let step = (max - min) / (samples - 1) as f64;
    min + step * idx as f64
}

/// A complex value as `(re, im)`.
fn complex(re: f64, im: f64) -> (f64, f64) {
    (re, im)
}

fn project(c: (f64, f64)) -> (f64, bool) {
    (c.0, c.1 == 0.0)
}

fn real_domain(min: f64, max: f64, samples: usize) -> SymbolDomain<f64> {
    SymbolDomain::RealDomain { min, max, samples }
}

fn no_exprs() -> Expressions<String, String> {
    Expressions { exprs: vec!["e".to_string()], params: vec![], functions: vec![], replacements: vec![] }
}

fn argument_message(e: SymbolicEvalError) -> String {
    match e {
        SymbolicEvalError::ArgumentError(m) => m,
        _ => panic!("expected an argument error"),
    }
}

#[test]
fn interval_endpoints_are_exact() {
    let xs = sample_interval(0.1, 0.7, 4, &interior);
    assert_eq!(xs.len(), 4);
    assert_eq!(xs[0], 0.1);
    assert_eq!(xs[3], 0.7);
    assert_eq!(xs[1], interior(0.1, 0.7, 4, 1));
    assert_eq!(xs[2], interior(0.1, 0.7, 4, 2));
}

#[test]
fn interval_with_three_samples_is_min_mid_max() {
    assert_eq!(sample_interval(0.0, 2.0, 3, &interior), vec![0.0, 1.0, 2.0]);
}

#[test]
fn single_sample_yields_min() {
    assert_eq!(sample_interval(-3.0, 5.0, 1, &interior), vec![-3.0]);
}

#[test]
fn zero_samples_yield_nothing() {
    assert!(sample_interval(-3.0, 5.0, 0, &interior).is_empty());
}

#[test]
fn interior_is_not_asked_for_endpoints() {
    let calls = std::cell::Cell::new(0usize);
    let counting = |a: f64, b: f64, n: usize, i: usize| {
        calls.set(calls.get() + 1);
        interior(a, b, n, i)
    };
    let xs = sample_interval(0.0, 1.0, 5, &counting);
    assert_eq!(xs, vec![0.0, 0.25, 0.5, 0.75, 1.0]);
    assert_eq!(calls.get(), 3);
}

#[test]
fn cartesian_product_is_row_major() {
    let p = cartesian_product(&vec![1u8, 2], &vec!['a', 'b', 'c']);
    assert_eq!(p, vec![(1, 'a'), (1, 'b'), (1, 'c'), (2, 'a'), (2, 'b'), (2, 'c')]);
}

#[test]
fn cartesian_product_with_an_empty_side_is_empty() {
    assert!(cartesian_product(&Vec::<u8>::new(), &vec![1u8]).is_empty());
    assert!(cartesian_product(&vec![1u8], &Vec::<u8>::new()).is_empty());
}

#[test]
fn multi_product_last_list_varies_fastest() {
    let grid = multi_cartesian_product(&vec![vec![0.0, 1.0], vec![0.0, 5.0, 10.0]]);
    assert_eq!(grid.len(), 6);
    assert_eq!(grid[0], vec![0.0, 0.0]);
    assert_eq!(grid[1], vec![0.0, 5.0]);
    assert_eq!(grid[2], vec![0.0, 10.0]);
    assert_eq!(grid[3], vec![1.0, 0.0]);
    assert_eq!(grid[5], vec![1.0, 10.0]);
}

#[test]
fn multi_product_size_is_product_of_lengths() {
    let grid = multi_cartesian_product(&vec![vec![1u8, 2], vec![3, 4, 5], vec![6, 7]]);
    assert_eq!(grid.len(), 12);
    assert!(grid.iter().all(|row| row.len() == 3));
}

#[test]
fn nullary_product_has_one_empty_point() {
    assert_eq!(multi_cartesian_product::<u8>(&vec![]), vec![Vec::<u8>::new()]);
}

#[test]
fn product_with_an_empty_list_is_empty() {
    assert!(multi_cartesian_product(&vec![vec![1u8, 2], vec![], vec![3]]).is_empty());
}

#[test]
fn real_domain_samples_have_zero_imaginary_part() {
    let vals = sample_domain(&real_domain(0.0, 2.0, 3), 0.0, &interior, &complex);
    assert_eq!(vals, vec![(0.0, 0.0), (1.0, 0.0), (2.0, 0.0)]);
}

#[test]
fn complex_domain_real_part_varies_fastest() {
    let d = SymbolDomain::ComplexDomain {
        min_re: 0.0,
        max_re: 1.0,
        min_im: 10.0,
        max_im: 20.0,
        samples_re: 2,
        samples_im: 3,
    };
    let vals = sample_domain(&d, 0.0, &interior, &complex);
    assert_eq!(
        vals,
        vec![(0.0, 10.0), (1.0, 10.0), (0.0, 15.0), (1.0, 15.0), (0.0, 20.0), (1.0, 20.0)]
    );
}

#[test]
fn domains_are_sampled_in_order() {
    let lists = sample_domains(&vec![real_domain(0.0, 1.0, 2), real_domain(5.0, 5.0, 1)], 0.0, &interior, &complex);
    assert_eq!(lists, vec![vec![(0.0, 0.0), (1.0, 0.0)], vec![(5.0, 0.0)]]);
}

#[test]
fn real_domain_is_real() {
    assert!(real_domain(0.0, 1.0, 2).is_real());
    let d: SymbolDomain<f64> = SymbolDomain::ComplexDomain {
        min_re: 0.0,
        max_re: 1.0,
        min_im: 0.0,
        max_im: 1.0,
        samples_re: 1,
        samples_im: 1,
    };
    assert!(!d.is_real());
}

#[test]
fn complex_domains_are_refused_for_real_evaluation() {
    let d = SymbolDomain::ComplexDomain {
        min_re: 0.0,
        max_re: 1.0,
        min_im: 0.0,
        max_im: 1.0,
        samples_re: 1,
        samples_im: 1,
    };
    assert!(check_real_domains(&vec![real_domain(0.0, 1.0, 2)]).is_ok());
    let e = check_real_domains(&vec![real_domain(0.0, 1.0, 2), d]).unwrap_err();
    assert_eq!(
        argument_message(e),
        "eval_exprs only supports real domains; use eval_complex_exprs for complex domains"
    );
}

#[test]
fn real_rows_keep_real_parts() {
    let rows = vec![(vec![(1.0, true), (2.0, true)], vec![(3.0, true)])];
    assert_eq!(complex_result_to_real(rows).unwrap(), vec![(vec![1.0, 2.0], vec![3.0])]);
}

#[test]
fn complex_input_is_reported() {
    let rows = vec![
        (vec![(1.0, true)], vec![(3.0, true)]),
        (vec![(1.0, false)], vec![(3.0, false)]),
    ];
    assert_eq!(
        argument_message(complex_result_to_real(rows).unwrap_err()),
        "cannot convert complex input to real result"
    );
}

#[test]
fn complex_output_is_reported() {
    let rows = vec![(vec![(1.0, true)], vec![(3.0, false)]), (vec![(1.0, false)], vec![])];
    assert_eq!(
        argument_message(complex_result_to_real(rows).unwrap_err()),
        "cannot convert complex output to real result"
    );
}

#[test]
fn domains_form_a_cartesian_product_of_sums() {
    // x + y over x in {0, 1} and y in {0, 5, 10}.
    let domains = vec![real_domain(0.0, 1.0, 2), real_domain(0.0, 10.0, 3)];
    let compile = |_ex: Expressions<String, String>| -> Result<(), SymbolicEvalError> { Ok(()) };
    let eval_at = |_ev: &(), p: &Vec<(f64, f64)>| vec![(p[0].0 + p[1].0, p[0].1 + p[1].1)];
    let grid = eval_exprs(no_exprs(), &domains, 0.0, &interior, &complex, compile, &eval_at, &project)
        .unwrap();
    assert_eq!(grid.len(), 6);
    assert_eq!(grid[0], (vec![0.0, 0.0], vec![0.0]));
    assert_eq!(grid[1], (vec![0.0, 5.0], vec![5.0]));
    assert_eq!(grid[5], (vec![1.0, 10.0], vec![11.0]));
}

#[test]
fn complex_evaluation_pairs_points_with_outputs() {
    let d = SymbolDomain::ComplexDomain {
        min_re: 0.0,
        max_re: 1.0,
        min_im: -1.0,
        max_im: 1.0,
        samples_re: 2,
        samples_im: 2,
    };
    let compile = |_ex: Expressions<String, String>| -> Result<u8, SymbolicEvalError> { Ok(7) };
    let eval_at = |ev: &u8, p: &Vec<(f64, f64)>| vec![(p[0].0 * *ev as f64, p[0].1)];
    let rows = eval_complex_exprs(no_exprs(), &vec![d], 0.0, &interior, &complex, compile, &eval_at)
        .unwrap();
    assert_eq!(rows.len(), 4);
    assert_eq!(rows[0], (vec![(0.0, -1.0)], vec![(0.0, -1.0)]));
    assert_eq!(rows[1], (vec![(1.0, -1.0)], vec![(7.0, -1.0)]));
    assert_eq!(rows[3], (vec![(1.0, 1.0)], vec![(7.0, 1.0)]));
}

#[test]
fn compile_errors_are_returned_before_evaluation() {
    let compile = |_ex: Expressions<String, String>| -> Result<u8, SymbolicEvalError> {
        Err(SymbolicEvalError::ArgumentError("no evaluator".to_string()))
    };
    let eval_at = |_ev: &u8, _p: &Vec<(f64, f64)>| -> Vec<(f64, f64)> { panic!("not evaluated") };
    let e = eval_exprs(no_exprs(), &vec![real_domain(0.0, 1.0, 2)], 0.0, &interior, &complex, compile, &eval_at, &project)
        .unwrap_err();
    assert_eq!(argument_message(e), "no evaluator");
}

#[test]
fn real_evaluation_refuses_complex_domain_before_compiling() {
    let d = SymbolDomain::ComplexDomain {
        min_re: 0.0,
        max_re: 1.0,
        min_im: 0.0,
        max_im: 1.0,
        samples_re: 1,
        samples_im: 1,
    };
    let compile = |_ex: Expressions<String, String>| -> Result<u8, SymbolicEvalError> { panic!("not compiled") };
    let eval_at = |_ev: &u8, _p: &Vec<(f64, f64)>| -> Vec<(f64, f64)> { panic!("not evaluated") };
    let e = eval_exprs(no_exprs(), &vec![d], 0.0, &interior, &complex, compile, &eval_at, &project).unwrap_err();
    assert!(argument_message(e).starts_with("eval_exprs only supports real domains"));
}

#[test]
fn complex_output_fails_real_evaluation() {
    let compile = |_ex: Expressions<String, String>| -> Result<(), SymbolicEvalError> { Ok(()) };
    let eval_at = |_ev: &(), p: &Vec<(f64, f64)>| vec![(p[0].0, 1.0)];
    let e = eval_exprs(no_exprs(), &vec![real_domain(0.0, 1.0, 2)], 0.0, &interior, &complex, compile, &eval_at, &project)
        .unwrap_err();
    assert_eq!(argument_message(e), "cannot convert complex output to real result");
}
