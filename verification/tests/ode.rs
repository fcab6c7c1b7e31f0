use symbolic_eval::error::{OdeError, SymbolicEvalError};
use symbolic_eval::expressions::Expressions;
use symbolic_eval::ode::{eval_ode, trajectory_rows, OdeConfig};

fn exprs() -> Expressions<String, String> {
    Expressions { exprs: vec!["1".to_string()], params: vec!["t".to_string(), "y".to_string()], functions: vec![], replacements: vec![] }
}

fn config(t_span: (f64, f64), dt: f64, initial_conditions: Vec<f64>) -> OdeConfig<&'static str, f64> {
    OdeConfig { method: "euler", t_span, dt, initial_conditions }
}

type Trajectory = Result<(Vec<f64>, Vec<Vec<f64>>), String>;

/// Euler steps of `dy/dt = rate` for every state variable, from `t_span.0`
/// until `t_span.1` is reached.
fn euler(rate: f64, method: &'static str, t_span: (f64, f64), dt: f64, init: Vec<f64>) -> Trajectory {
    assert_eq!(method, "euler");
    let mut t = t_span.0;
    let mut y = init;
    let mut ts = vec![t];
    let mut ys = vec![y.clone()];
    while t < t_span.1 {
        y = y.iter().map(|v| v + rate * dt).collect();
        t += dt;
        ts.push(t);
        ys.push(y.clone());
    }
    Ok((ts, ys))
}

#[test]
fn rows_are_t_then_state() {
    let rows = trajectory_rows(&vec![0.0, 0.1], &vec![vec![1.0, 2.0], vec![3.0, 4.0]]);
    assert_eq!(rows, vec![vec![0.0, 1.0, 2.0], vec![0.1, 3.0, 4.0]]);
    assert!(rows.iter().all(|row| row.len() == 3));
}

#[test]
fn unmatched_time_points_are_dropped() {
    let rows = trajectory_rows(&vec![0.0, 0.1, 0.2], &vec![vec![1.0]]);
    assert_eq!(rows, vec![vec![0.0, 1.0]]);
    assert!(trajectory_rows::<f64>(&vec![], &vec![vec![1.0]]).is_empty());
}

#[test]
fn solved_trajectory_becomes_rows() {
    let compile = |_ex: Expressions<String, String>| -> Result<f64, SymbolicEvalError> { Ok(1.0) };
    // dy/dt = 1, y(0) = 0, Euler steps of 0.5 up to t = 1: y tracks t.
    let rows = eval_ode(exprs(), config((0.0, 1.0), 0.5, vec![0.0]), compile, euler).unwrap();
    assert_eq!(rows, vec![vec![0.0, 0.0], vec![0.5, 0.5], vec![1.0, 1.0]]);
    assert!(rows.iter().all(|row| (row[1] - row[0]).abs() < 1e-12));
}

#[test]
fn the_configured_span_step_and_state_are_used() {
    let compile = |_ex: Expressions<String, String>| -> Result<f64, SymbolicEvalError> { Ok(1.0) };
    let rows = eval_ode(exprs(), config((0.0, 2.0), 0.5, vec![1.0]), compile, euler).unwrap();
    assert_eq!(
        rows,
        vec![vec![0.0, 1.0], vec![0.5, 1.5], vec![1.0, 2.0], vec![1.5, 2.5], vec![2.0, 3.0]]
    );
    let t_final = rows.last().unwrap()[0];
    assert!((2.0..3.0).contains(&t_final));
}

#[test]
fn solver_failure_is_an_ode_error() {
    let compile = |_ex: Expressions<String, String>| -> Result<u8, SymbolicEvalError> { Ok(0) };
    let solve = |_ev: u8, _m: &'static str, _span: (f64, f64), _dt: f64, _init: Vec<f64>| -> Trajectory {
        Err("step size too small".to_string())
    };
    match eval_ode(exprs(), config((0.0, 1.0), 0.1, vec![0.0]), compile, solve).unwrap_err() {
        SymbolicEvalError::OdeError(OdeError::OdeSolverError(m)) => {
            assert_eq!(m, "ODE solver error: step size too small")
        }
        _ => panic!("expected an ODE error"),
    }
}

#[test]
fn compile_failure_comes_before_solving() {
    let compile = |_ex: Expressions<String, String>| -> Result<u8, SymbolicEvalError> {
        Err(SymbolicEvalError::Cbor("unused".to_string()))
    };
    let solve = |_ev: u8, _m: &'static str, _span: (f64, f64), _dt: f64, _init: Vec<f64>| -> Trajectory {
        panic!("not solved")
    };
    let err = eval_ode(exprs(), config((0.0, 1.0), 0.1, vec![0.0]), compile, solve).unwrap_err();
    assert!(matches!(err, SymbolicEvalError::Cbor(_)));
}
