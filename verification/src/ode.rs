//! Laying out the trajectory of an integrated ODE system.
//!
//! The integration itself is numeric and done by the caller's solver; this
//! module turns the solver's time points and states into result rows.
use vstd::prelude::*;

use crate::error::{OdeError, SymbolicEvalError};
use crate::evaluation::rows_view;
use crate::expressions::Expressions;

verus! {

/// The rows of a trajectory: for each time point that has a state, the time
/// followed by the state, i.e. `[t, y_0, y_1, ...]`.
pub open spec fn trajectory<T>(ts: Seq<T>, ys: Seq<Seq<T>>) -> Seq<Seq<T>> {
    Seq::new(
        if ts.len() <= ys.len() {
            ts.len()
        } else {
            ys.len()
        },
        |k: int| seq![ts[k]] + ys[k],
    )
}

/// Each trajectory row is its time point followed by its state, so it is
/// one longer than the state.
pub proof fn lemma_trajectory_rows_shape<T>(ts: Seq<T>, ys: Seq<Seq<T>>, k: int)
    requires
        0 <= k < trajectory(ts, ys).len(),
    ensures
        trajectory(ts, ys)[k].len() == ys[k].len() + 1,
        trajectory(ts, ys)[k][0] == ts[k],
        trajectory(ts, ys)[k].drop_first() == ys[k],
{
    assert(trajectory(ts, ys)[k].drop_first() =~= ys[k]);
}

/// Pairs each time point with its state, in order, into rows
/// `[t, y_0, y_1, ...]`; extra time points or states are dropped.
pub fn trajectory_rows<T: Copy>(ts: &Vec<T>, ys: &Vec<Vec<T>>) -> (rows: Vec<Vec<T>>)
    ensures
        rows_view(rows@) == trajectory(ts@, rows_view(ys@)),
{
    let n = if ts.len() <= ys.len() {
        ts.len()
    } else {
        ys.len()
    };
    let ghost expected = trajectory(ts@, rows_view(ys@));
    let mut rows: Vec<Vec<T>> = Vec::new();
    let mut k: usize = 0;
    while k < n
        invariant
            n <= ts@.len(),
            n <= ys@.len(),
            n == expected.len(),
            expected == trajectory(ts@, rows_view(ys@)),
            k <= n,
            rows_view(rows@) == expected.take(k as int),
        decreases n - k,
    {
        let y = &ys[k];
        let mut row: Vec<T> = Vec::new();
        row.push(ts[k]);
        let mut i: usize = 0;
        while i < y.len()
            invariant
                k < n,
                n <= ts@.len(),
                n <= ys@.len(),
                *y == ys@[k as int],
                i <= y@.len(),
                row@ == seq![ts@[k as int]] + y@.take(i as int),
            decreases y@.len() - i,
        {
            row.push(y[i]);
            i = i + 1;
            assert(row@ =~= seq![ts@[k as int]] + y@.take(i as int));
        }
        assert(y@.take(i as int) =~= y@);
        let ghost before = rows@;
        rows.push(row);
        assert(rows_view(rows@) =~= rows_view(before).push(row@));
        assert(expected.take(k + 1) =~= expected.take(k as int).push(expected[k as int]));
        k = k + 1;
    }
    assert(expected.take(k as int) =~= expected);
    rows
}

/// The message of the error returned when the solver fails.
pub open spec fn solver_error_message(err: Seq<char>) -> Seq<char> {
    "ODE solver error: "@ + err
}

/// How to integrate an ODE system: the integration method, the time span,
/// the (initial) step size and the initial state. `M` is the method and `T`
/// the number type.
#[derive(Debug)]
pub struct OdeConfig<M, T> {
    /// The integration method and its settings.
    pub method: M,
    /// The time span `(t_0, t_end)` to integrate over.
    pub t_span: (T, T),
    /// The step size (the initial one, for adaptive methods).
    pub dt: T,
    /// The state at `t_0`, one value per state variable.
    pub initial_conditions: Vec<T>,
}

/// What [`eval_ode`] returns: the compiler's error; or, with the compiled
/// right-hand side handed to the solver together with the configured
/// method, time span, step and initial state, the solver's failure as an
/// [`OdeError`](crate::error::OdeError), or the rows `[t, y_0, ...]` of the
/// trajectory it computed.
pub open spec fn ode_outcome<
    S,
    A,
    M,
    T,
    E,
    CO: FnOnce(Expressions<S, A>) -> Result<E, SymbolicEvalError>,
    SV: FnOnce(E, M, (T, T), T, Vec<T>) -> Result<(Vec<T>, Vec<Vec<T>>), String>,
>(
    exprs: Expressions<S, A>,
    config: OdeConfig<M, T>,
    compile: CO,
    solve: SV,
    res: Result<Vec<Vec<T>>, SymbolicEvalError>,
) -> bool {
    exists|cr: Result<E, SymbolicEvalError>|
        #[trigger] compile.ensures((exprs,), cr) && match cr {
            Err(e) => res == Err::<Vec<Vec<T>>, SymbolicEvalError>(e),
            Ok(ev) => exists|sr: Result<(Vec<T>, Vec<Vec<T>>), String>|
                #[trigger] solve.ensures(
                    (ev, config.method, config.t_span, config.dt, config.initial_conditions),
                    sr,
                ) && match sr {
                    Err(m) => res matches Err(e) && e.is_ode_solver(solver_error_message(m@)),
                    Ok(tys) => res matches Ok(rows) && rows_view(rows@) == trajectory(
                        tys.0@,
                        rows_view(tys.1@),
                    ),
                },
        }
}

/// The solver is handed the compiled right-hand side together with the
/// configured method, time span, step and initial state, unchanged. A
/// trajectory comes back as rows: row `k` is the `k`-th time point the solver
/// reached, followed by the state it gave there, one row per time point that
/// has a state. A solver failure is reported as an ODE error.
pub proof fn lemma_ode_uses_config<
    S,
    A,
    M,
    T,
    E,
    CO: FnOnce(Expressions<S, A>) -> Result<E, SymbolicEvalError>,
    SV: FnOnce(E, M, (T, T), T, Vec<T>) -> Result<(Vec<T>, Vec<Vec<T>>), String>,
>(
    exprs: Expressions<S, A>,
    config: OdeConfig<M, T>,
    compile: CO,
    solve: SV,
    res: Result<Vec<Vec<T>>, SymbolicEvalError>,
)
    requires
        ode_outcome(exprs, config, compile, solve, res),
    ensures
        res matches Ok(rows) ==> exists|ev: E, ts: Vec<T>, ys: Vec<Vec<T>>|
            {
                &&& #[trigger] compile.ensures((exprs,), Ok::<E, SymbolicEvalError>(ev))
                &&& #[trigger] solve.ensures(
                    (ev, config.method, config.t_span, config.dt, config.initial_conditions),
                    Ok::<(Vec<T>, Vec<Vec<T>>), String>((ts, ys)),
                )
                &&& rows@.len() == if ts@.len() <= ys@.len() {
                    ts@.len()
                } else {
                    ys@.len()
                }
                &&& forall|k: int|
                    0 <= k < rows@.len() ==> #[trigger] rows@[k]@.len() == ys@[k]@.len() + 1
                        && rows@[k]@[0] == ts@[k] && rows@[k]@.subrange(
                        1,
                        rows@[k]@.len() as int,
                    ) == ys@[k]@
            },
        res matches Err(e) ==> (exists|ev: E, m: String|
            #[trigger] compile.ensures((exprs,), Ok::<E, SymbolicEvalError>(ev))
                && #[trigger] solve.ensures(
                (ev, config.method, config.t_span, config.dt, config.initial_conditions),
                Err::<(Vec<T>, Vec<Vec<T>>), String>(m),
            ) && e.is_ode_solver("ODE solver error: "@ + m@)) || compile.ensures(
            (exprs,),
            Err::<E, SymbolicEvalError>(e),
        ),
{
    let cr = choose|cr: Result<E, SymbolicEvalError>|
        #[trigger] compile.ensures((exprs,), cr) && match cr {
            Err(e) => res == Err::<Vec<Vec<T>>, SymbolicEvalError>(e),
            Ok(ev) => exists|sr: Result<(Vec<T>, Vec<Vec<T>>), String>|
                #[trigger] solve.ensures(
                    (ev, config.method, config.t_span, config.dt, config.initial_conditions),
                    sr,
                ) && match sr {
                    Err(m) => res matches Err(e) && e.is_ode_solver(solver_error_message(m@)),
                    Ok(tys) => res matches Ok(rows) && rows_view(rows@) == trajectory(
                        tys.0@,
                        rows_view(tys.1@),
                    ),
                },
        };
    if let Ok(ev) = cr {
        let sr = choose|sr: Result<(Vec<T>, Vec<Vec<T>>), String>|
            #[trigger] solve.ensures(
                (ev, config.method, config.t_span, config.dt, config.initial_conditions),
                sr,
            ) && match sr {
                Err(m) => res matches Err(e) && e.is_ode_solver(solver_error_message(m@)),
                Ok(tys) => res matches Ok(rows) && rows_view(rows@) == trajectory(
                    tys.0@,
                    rows_view(tys.1@),
                ),
            };
        match sr {
            Ok((ts, ys)) => {
                let rows = res->Ok_0;
                assert(rows@.len() == rows_view(rows@).len());
                assert(ys@.len() == rows_view(ys@).len());
                assert(rows@.len() == if ts@.len() <= ys@.len() {
                    ts@.len()
                } else {
                    ys@.len()
                });
                assert forall|k: int| 0 <= k < rows@.len() implies #[trigger] rows@[k]@.len()
                    == ys@[k]@.len() + 1 && rows@[k]@[0] == ts@[k] && rows@[k]@.subrange(
                    1,
                    rows@[k]@.len() as int,
                ) == ys@[k]@ by {
                    assert(rows_view(rows@)[k] == rows@[k]@);
                    assert(rows_view(ys@)[k] == ys@[k]@);
                    lemma_trajectory_rows_shape(ts@, rows_view(ys@), k);
                    assert(rows@[k]@.subrange(1, rows@[k]@.len() as int) =~= rows@[k]@.drop_first());
                }
                assert(compile.ensures((exprs,), Ok::<E, SymbolicEvalError>(ev)));
                assert(solve.ensures(
                    (ev, config.method, config.t_span, config.dt, config.initial_conditions),
                    Ok::<(Vec<T>, Vec<Vec<T>>), String>((ts, ys)),
                ));
            },
            Err(m) => {
                assert(compile.ensures((exprs,), Ok::<E, SymbolicEvalError>(ev)));
                assert(solve.ensures(
                    (ev, config.method, config.t_span, config.dt, config.initial_conditions),
                    Err::<(Vec<T>, Vec<Vec<T>>), String>(m),
                ));
            },
        }
    }
}

/// Integrates a system of ODEs whose right-hand sides are the expressions.
///
/// `compile` builds the right-hand side `f(t, y)` from the expressions, whose
/// parameters are `t` followed by the state variables; `solve` integrates it
/// with the configured method, over the configured time span, with the
/// configured step and from the configured initial state, and gives the time
/// points and states it reached. The result is the rows `[t, y_0, y_1, ...]`.
///
/// Returns the compiler's error, or an [`OdeError`](crate::error::OdeError)
/// if the solver fails.
pub fn eval_ode<
    S,
    A,
    M,
    T: Copy,
    E,
    CO: FnOnce(Expressions<S, A>) -> Result<E, SymbolicEvalError>,
    SV: FnOnce(E, M, (T, T), T, Vec<T>) -> Result<(Vec<T>, Vec<Vec<T>>), String>,
>(exprs: Expressions<S, A>, config: OdeConfig<M, T>, compile: CO, solve: SV) -> (res: Result<
    Vec<Vec<T>>,
    SymbolicEvalError,
>)
    requires
        forall|ex: Expressions<S, A>| compile.requires((ex,)),
        forall|ev: E, method: M, t_span: (T, T), dt: T, init: Vec<T>|
            solve.requires((ev, method, t_span, dt, init)),
    ensures
        ode_outcome(exprs, config, compile, solve, res),
{
    let ghost exprs_view = exprs;
    let cr = compile(exprs);
    let ghost cr_view = cr;
    let ev = match cr {
        Ok(ev) => ev,
        Err(e) => {
            assert(compile.ensures((exprs_view,), cr_view));
            return Err(e);
        },
    };
    let ghost ev_view = ev;
    let ghost config_view = config;
    let OdeConfig { method, t_span, dt, initial_conditions } = config;
    let sr = solve(ev, method, t_span, dt, initial_conditions);
    let ghost sr_view = sr;
    let res = match sr {
        Ok((ts, ys)) => Ok(trajectory_rows(&ts, &ys)),
        Err(m) => {
            let mut message = "ODE solver error: ".to_owned();
            message.append(m.as_str());
            Err(SymbolicEvalError::OdeError(OdeError::OdeSolverError(message)))
        },
    };
    assert(solve.ensures(
        (
            ev_view,
            config_view.method,
            config_view.t_span,
            config_view.dt,
            config_view.initial_conditions,
        ),
        sr_view,
    ));
    assert(compile.ensures((exprs_view,), cr_view));
    res
}

} // verus!
