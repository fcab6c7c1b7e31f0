//! Lazy passes of a parser over a list of inputs, stopping at the first failure.
use vstd::prelude::*;

verus! {

/// `outs` is what one lazy pass of `f` over `inputs` can produce: the results
/// of the calls made, in input order, where every result but the last is a
/// success and the pass only stops early right after a failure.
pub open spec fn is_lazy_run<X, A, F: Fn(&X) -> Result<A, String>>(
    f: F,
    inputs: Seq<X>,
    outs: Seq<Result<A, String>>,
) -> bool {
    &&& outs.len() <= inputs.len()
    &&& forall|i: int| 0 <= i < outs.len() ==> f.ensures((&inputs[i],), #[trigger] outs[i])
    &&& forall|i: int| 0 <= i < outs.len() - 1 ==> #[trigger] outs[i] is Ok
    &&& outs.len() < inputs.len() ==> (outs.len() > 0 && outs.last() is Err)
}

/// The run went over every input without a failure.
pub open spec fn run_succeeded<A>(outs: Seq<Result<A, String>>, n: nat) -> bool {
    outs.len() == n && (outs.len() == 0 || outs.last() is Ok)
}

/// The run stopped at a failure on the input at position `i`.
pub open spec fn run_failed_at<A>(outs: Seq<Result<A, String>>, i: int) -> bool {
    outs.len() == i + 1 && outs.last() is Err
}

/// The values that a run produced.
pub open spec fn run_values<A>(outs: Seq<Result<A, String>>) -> Seq<A> {
    outs.map_values(|r: Result<A, String>| r->Ok_0)
}

/// Applies `f` to each input in turn and collects the values, stopping at the
/// first failure, whose position is returned.
pub fn parse_all<X, A, F: Fn(&X) -> Result<A, String>>(inputs: &Vec<X>, f: &F) -> (res: Result<
    Vec<A>,
    usize,
>)
    requires
        forall|x: &X| f.requires((x,)),
    ensures
        exists|outs: Seq<Result<A, String>>|
            {
                &&& #[trigger] is_lazy_run(*f, inputs@, outs)
                &&& match res {
                    Ok(v) => run_succeeded(outs, inputs@.len()) && v@ == run_values(outs),
                    Err(i) => i < inputs@.len() && run_failed_at(outs, i as int),
                }
            },
{
    let mut values: Vec<A> = Vec::new();
    let ghost mut outs: Seq<Result<A, String>> = Seq::empty();
    let mut i: usize = 0;
    while i < inputs.len()
        invariant
            forall|x: &X| f.requires((x,)),
            i <= inputs.len(),
            outs.len() == i,
            values@.len() == i,
            forall|k: int| 0 <= k < i ==> f.ensures((&inputs@[k],), #[trigger] outs[k]),
            forall|k: int| 0 <= k < i ==> #[trigger] outs[k] == Ok::<A, String>(values@[k]),
        decreases inputs.len() - i,
    {
        let r = f(&inputs[i]);
        proof {
            outs = outs.push(r);
        }
        match r {
            Ok(v) => {
                values.push(v);
            },
            Err(_) => {
                assert(is_lazy_run(*f, inputs@, outs));
                return Err(i);
            },
        }
        i = i + 1;
    }
    assert(values@ =~= run_values(outs));
    assert(is_lazy_run(*f, inputs@, outs));
    Ok(values)
}

} // verus!
