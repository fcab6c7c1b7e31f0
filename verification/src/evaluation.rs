//! Sampling parameter domains and laying them out on a Cartesian grid.
//!
//! The numbers themselves are the caller's: this module only decides where
//! each sample and grid point goes. A domain is sampled at evenly spaced
//! points whose first and last are pinned to the endpoints exactly; the grid
//! holds every combination of one sample per domain, in lexicographic order
//! (the last domain varies fastest).
use vstd::prelude::*;

use crate::error::SymbolicEvalError;
use crate::expressions::{Expressions, SymbolDomain};

verus! {

/// `vals` are the `samples` sample points of the interval from `min` to
/// `max`: the first is `min`, the last (when there are at least two) is
/// `max`, and each one in between is what `interior(min, max, samples, idx)`
/// gives for its index `idx`.
pub open spec fn is_interval_sampling<T, I: Fn(T, T, usize, usize) -> T>(
    interior: I,
    min: T,
    max: T,
    samples: usize,
    vals: Seq<T>,
) -> bool {
    &&& vals.len() == samples
    &&& forall|i: int|
        0 <= i < samples ==> {
            &&& i == 0 ==> #[trigger] vals[i] == min
            &&& (i > 0 && i + 1 == samples) ==> vals[i] == max
            &&& (i > 0 && i + 1 < samples) ==> interior.ensures((min, max, samples, i as usize), vals[i])
        }
}

/// Places `samples` evenly spaced sample points of the interval from `min`
/// to `max`: the first and last are pinned to the endpoints exactly, and
/// each one in between is computed by `interior(min, max, samples, idx)`. A
/// single sample yields just `min`.
pub fn sample_interval<T: Copy, I: Fn(T, T, usize, usize) -> T>(
    min: T,
    max: T,
    samples: usize,
    interior: &I,
) -> (r: Vec<T>)
    requires
        forall|a: T, b: T, n: usize, idx: usize| interior.requires((a, b, n, idx)),
    ensures
        is_interval_sampling(*interior, min, max, samples, r@),
        r@.len() == samples,
        samples > 0 ==> r@[0] == min,
        samples > 1 ==> r@[samples - 1] == max,
{
    let mut out: Vec<T> = Vec::new();
    let mut idx: usize = 0;
    while idx < samples
        invariant
            forall|a: T, b: T, n: usize, k: usize| interior.requires((a, b, n, k)),
            idx <= samples,
            out@.len() == idx,
            forall|i: int|
                0 <= i < idx ==> {
                    &&& i == 0 ==> #[trigger] out@[i] == min
                    &&& (i > 0 && i + 1 == samples) ==> out@[i] == max
                    &&& (i > 0 && i + 1 < samples) ==> interior.ensures(
                        (min, max, samples, i as usize),
                        out@[i],
                    )
                },
        decreases samples - idx,
    {
        let v = if idx == 0 {
            min
        } else if idx + 1 == samples {
            max
        } else {
            interior(min, max, samples, idx)
        };
        out.push(v);
        idx = idx + 1;
    }
    out
}

/// Every pair of an `outer` and an `inner` element, in row-major order: all
/// pairs with the first outer element, then all with the second, and so on.
pub open spec fn pairs<A, B>(outer: Seq<A>, inner: Seq<B>) -> Seq<(A, B)>
    decreases outer.len(),
{
    if outer.len() == 0 {
        Seq::empty()
    } else {
        pairs(outer.drop_last(), inner) + inner.map_values(|b: B| (outer.last(), b))
    }
}

/// There are as many pairs as the product of the two lengths.
pub proof fn lemma_pairs_len<A, B>(outer: Seq<A>, inner: Seq<B>)
    ensures
        pairs(outer, inner).len() == outer.len() * inner.len(),
    decreases outer.len(),
{
    if outer.len() > 0 {
        lemma_pairs_len(outer.drop_last(), inner);
        let o = outer.len() as int;
        let n = inner.len() as int;
        assert((o - 1) * n + n == o * n) by (nonlinear_arith);
    }
}

/// The pair at position `i * |inner| + j` is `(outer[i], inner[j])`: the
/// outer element varies slowest and the inner one fastest.
pub proof fn lemma_pairs_index<A, B>(outer: Seq<A>, inner: Seq<B>, i: int, j: int)
    requires
        0 <= i < outer.len(),
        0 <= j < inner.len(),
    ensures
        0 <= i * inner.len() + j < pairs(outer, inner).len(),
        pairs(outer, inner)[i * inner.len() + j] == (outer[i], inner[j]),
    decreases outer.len(),
{
    lemma_pairs_len(outer, inner);
    lemma_pairs_len(outer.drop_last(), inner);
    let o = outer.len() as int;
    let n = inner.len() as int;
    assert(i * n + j < o * n) by (nonlinear_arith)
        requires
            0 <= i < o,
            0 <= j < n,
    ;
    assert(0 <= i * n) by (nonlinear_arith)
        requires
            0 <= i,
            0 <= n,
    ;
    if i < o - 1 {
        lemma_pairs_index(outer.drop_last(), inner, i, j);
        assert(i * n + j < (o - 1) * n) by (nonlinear_arith)
            requires
                0 <= i < o - 1,
                0 <= j < n,
        ;
    } else {
        assert(i * n == (o - 1) * n);
    }
}

/// All pairs of an `outer` and an `inner` element, in row-major order (see
/// [`pairs`]).
pub fn cartesian_product<A: Copy, B: Copy>(outer: &Vec<A>, inner: &Vec<B>) -> (r: Vec<(A, B)>)
    requires
        outer@.len() * inner@.len() <= usize::MAX,
    ensures
        r@ == pairs(outer@, inner@),
        r@.len() == outer@.len() * inner@.len(),
{
    let mut out: Vec<(A, B)> = Vec::new();
    let mut i: usize = 0;
    while i < outer.len()
        invariant
            i <= outer@.len(),
            out@ == pairs(outer@.take(i as int), inner@),
        decreases outer@.len() - i,
    {
        let a = outer[i];
        let ghost base = out@;
        let mut j: usize = 0;
        while j < inner.len()
            invariant
                i < outer@.len(),
                a == outer@[i as int],
                j <= inner@.len(),
                out@ == base + inner@.take(j as int).map_values(|b: B| (a, b)),
            decreases inner@.len() - j,
        {
            out.push((a, inner[j]));
            j = j + 1;
            assert(inner@.take(j as int).map_values(|b: B| (a, b)) =~= inner@.take(
                (j - 1) as int,
            ).map_values(|b: B| (a, b)).push((a, inner@[j - 1])));
        }
        assert(outer@.take(i + 1).drop_last() =~= outer@.take(i as int));
        assert(inner@.take(j as int) =~= inner@);
        i = i + 1;
    }
    assert(outer@.take(i as int) =~= outer@);
    proof {
        lemma_pairs_len(outer@, inner@);
    }
    out
}

/// Extends each of `rows`, in order, by each element of `xs`, in order.
pub open spec fn extend_rows<T>(rows: Seq<Seq<T>>, xs: Seq<T>) -> Seq<Seq<T>>
    decreases rows.len(),
{
    if rows.len() == 0 {
        Seq::empty()
    } else {
        extend_rows(rows.drop_last(), xs) + xs.map_values(|x: T| rows.last().push(x))
    }
}

/// The Cartesian product of `lists`: every sequence that takes one element
/// from each list, in lexicographic order (the last list varies fastest).
/// The product of no lists holds one empty sequence.
pub open spec fn product<T>(lists: Seq<Seq<T>>) -> Seq<Seq<T>>
    decreases lists.len(),
{
    if lists.len() == 0 {
        seq![Seq::empty()]
    } else {
        extend_rows(product(lists.drop_last()), lists.last())
    }
}

/// The number of elements in the Cartesian product of lists of these lengths.
pub open spec fn grid_size<T>(lists: Seq<Seq<T>>) -> nat
    decreases lists.len(),
{
    if lists.len() == 0 {
        1
    } else {
        grid_size(lists.drop_last()) * lists.last().len()
    }
}

/// Extending rows by `xs` gives `|rows| * |xs|` rows.
pub proof fn lemma_extend_rows_len<T>(rows: Seq<Seq<T>>, xs: Seq<T>)
    ensures
        extend_rows(rows, xs).len() == rows.len() * xs.len(),
    decreases rows.len(),
{
    if rows.len() > 0 {
        lemma_extend_rows_len(rows.drop_last(), xs);
        let r = rows.len() as int;
        let n = xs.len() as int;
        assert((r - 1) * n + n == r * n) by (nonlinear_arith);
    }
}

/// The extended row at position `q * |xs| + x` is row `q` extended by
/// `xs[x]`.
proof fn lemma_extend_rows_index<T>(rows: Seq<Seq<T>>, xs: Seq<T>, q: int, x: int)
    requires
        0 <= q < rows.len(),
        0 <= x < xs.len(),
    ensures
        0 <= q * xs.len() + x < extend_rows(rows, xs).len(),
        extend_rows(rows, xs)[q * xs.len() + x] == rows[q].push(xs[x]),
    decreases rows.len(),
{
    lemma_extend_rows_len(rows, xs);
    lemma_extend_rows_len(rows.drop_last(), xs);
    let r = rows.len() as int;
    let n = xs.len() as int;
    assert(q * n + x < r * n) by (nonlinear_arith)
        requires
            0 <= q < r,
            0 <= x < n,
    ;
    assert(0 <= q * n) by (nonlinear_arith)
        requires
            0 <= q,
            0 <= n,
    ;
    if q < r - 1 {
        lemma_extend_rows_index(rows.drop_last(), xs, q, x);
        assert(q * n + x < (r - 1) * n) by (nonlinear_arith)
            requires
                0 <= q < r - 1,
                0 <= x < n,
        ;
    } else {
        assert(q * n == (r - 1) * n);
    }
}

/// In the product, the last list varies fastest: the element at position
/// `q * |last| + x` is the `q`-th element of the product of the other lists,
/// followed by the `x`-th element of the last list.
pub proof fn lemma_product_last_fastest<T>(lists: Seq<Seq<T>>, q: int, x: int)
    requires
        lists.len() > 0,
        0 <= q < product(lists.drop_last()).len(),
        0 <= x < lists.last().len(),
    ensures
        0 <= q * lists.last().len() + x < product(lists).len(),
        product(lists)[q * lists.last().len() + x] == product(lists.drop_last())[q].push(
            lists.last()[x],
        ),
{
    lemma_extend_rows_index(product(lists.drop_last()), lists.last(), q, x);
}

/// The product has as many elements as the product of the lists' lengths.
pub proof fn lemma_product_len<T>(lists: Seq<Seq<T>>)
    ensures
        product(lists).len() == grid_size(lists),
    decreases lists.len(),
{
    if lists.len() > 0 {
        lemma_product_len(lists.drop_last());
        lemma_extend_rows_len(product(lists.drop_last()), lists.last());
    }
}

/// Every element of the product takes, at each position `k`, an element of
/// the `k`-th list.
pub proof fn lemma_product_rows<T>(lists: Seq<Seq<T>>, r: int)
    requires
        0 <= r < product(lists).len(),
    ensures
        product(lists)[r].len() == lists.len(),
        forall|k: int| 0 <= k < lists.len() ==> lists[k].contains(#[trigger] product(lists)[r][k]),
    decreases lists.len(),
{
    if lists.len() > 0 {
        lemma_extend_rows_member(product(lists.drop_last()), lists.last(), r);
        let (q, x) = choose|q: int, x: int|
            0 <= q < product(lists.drop_last()).len() && 0 <= x < lists.last().len()
                && #[trigger] extend_rows(product(lists.drop_last()), lists.last())[r]
                == product(lists.drop_last())[q].push(lists.last()[x]);
        lemma_product_rows(lists.drop_last(), q);
        assert forall|k: int| 0 <= k < lists.len() implies lists[k].contains(
            #[trigger] product(lists)[r][k],
        ) by {
            if k < lists.len() - 1 {
                assert(lists.drop_last()[k] == lists[k]);
                assert(product(lists)[r][k] == product(lists.drop_last())[q][k]);
            } else {
                assert(product(lists)[r][k] == lists.last()[x]);
            }
        }
    }
}

/// Each extended row is some row followed by some element of `xs`.
proof fn lemma_extend_rows_member<T>(rows: Seq<Seq<T>>, xs: Seq<T>, r: int)
    requires
        0 <= r < extend_rows(rows, xs).len(),
    ensures
        exists|q: int, x: int|
            0 <= q < rows.len() && 0 <= x < xs.len() && #[trigger] extend_rows(rows, xs)[r]
                == rows[q].push(xs[x]),
    decreases rows.len(),
{
    lemma_extend_rows_len(rows.drop_last(), xs);
    let prefix = extend_rows(rows.drop_last(), xs);
    if r < prefix.len() {
        lemma_extend_rows_member(rows.drop_last(), xs, r);
        let (q, x) = choose|q: int, x: int|
            0 <= q < rows.drop_last().len() && 0 <= x < xs.len() && #[trigger] extend_rows(
                rows.drop_last(),
                xs,
            )[r] == rows.drop_last()[q].push(xs[x]);
        assert(extend_rows(rows, xs)[r] == rows[q].push(xs[x]));
    } else {
        let x = r - prefix.len();
        assert(extend_rows(rows, xs)[r] == rows[rows.len() - 1].push(xs[x]));
    }
}

/// The views of a list of rows.
pub open spec fn rows_view<T>(rows: Seq<Vec<T>>) -> Seq<Seq<T>> {
    rows.map_values(|r: Vec<T>| r@)
}

/// A copy of `row` with `x` appended.
fn push_copy<T: Copy>(row: &Vec<T>, x: T) -> (r: Vec<T>)
    ensures
        r@ == row@.push(x),
{
    let mut out: Vec<T> = Vec::new();
    let mut k: usize = 0;
    while k < row.len()
        invariant
            k <= row@.len(),
            out@ == row@.take(k as int),
        decreases row@.len() - k,
    {
        out.push(row[k]);
        k = k + 1;
        assert(out@ =~= row@.take(k as int));
    }
    assert(row@.take(k as int) =~= row@);
    out.push(x);
    out
}

/// Whether some list is empty (and so is the product).
fn some_list_empty<T>(lists: &Vec<Vec<T>>) -> (b: bool)
    ensures
        b == exists|k: int| 0 <= k < lists@.len() && #[trigger] lists@[k]@.len() == 0,
{
    let mut k: usize = 0;
    while k < lists.len()
        invariant
            k <= lists@.len(),
            forall|j: int| 0 <= j < k ==> #[trigger] lists@[j]@.len() > 0,
        decreases lists@.len() - k,
    {
        if lists[k].len() == 0 {
            assert(lists@[k as int]@.len() == 0);
            return true;
        }
        k = k + 1;
    }
    false
}

/// A product that contains an empty list is empty.
pub proof fn lemma_product_empty<T>(lists: Seq<Seq<T>>, k: int)
    requires
        0 <= k < lists.len(),
        lists[k].len() == 0,
    ensures
        product(lists).len() == 0,
    decreases lists.len(),
{
    lemma_product_len(lists);
    lemma_grid_size_zero(lists, k);
}

proof fn lemma_grid_size_zero<T>(lists: Seq<Seq<T>>, k: int)
    requires
        0 <= k < lists.len(),
        lists[k].len() == 0,
    ensures
        grid_size(lists) == 0,
    decreases lists.len(),
{
    let g = grid_size(lists.drop_last()) as int;
    let n = lists.last().len() as int;
    if k < lists.len() - 1 {
        assert(lists.drop_last()[k] == lists[k]);
        lemma_grid_size_zero(lists.drop_last(), k);
        assert(g * n == 0) by (nonlinear_arith)
            requires
                g == 0,
        ;
    } else {
        assert(g * n == 0) by (nonlinear_arith)
            requires
                n == 0,
        ;
    }
}

/// Growing the prefix of non-empty lists never shrinks the product.
proof fn lemma_grid_size_monotone<T>(lists: Seq<Seq<T>>, i: int)
    requires
        0 <= i <= lists.len(),
        forall|k: int| 0 <= k < lists.len() ==> #[trigger] lists[k].len() > 0,
    ensures
        grid_size(lists.take(i)) <= grid_size(lists),
    decreases lists.len() - i,
{
    if i < lists.len() {
        lemma_grid_size_monotone(lists, i + 1);
        assert(lists.take(i + 1).drop_last() =~= lists.take(i));
        let g = grid_size(lists.take(i)) as int;
        let n = lists[i].len() as int;
        assert(g <= g * n) by (nonlinear_arith)
            requires
                g >= 0,
                n >= 1,
        ;
    } else {
        assert(lists.take(i) =~= lists);
    }
}

/// Every combination of one element from each list, in lexicographic order
/// with the last list varying fastest (see [`product`]); the product of no
/// lists holds one empty combination.
///
/// The result holds as many combinations as the product of the lists'
/// lengths.
pub fn multi_cartesian_product<T: Copy>(lists: &Vec<Vec<T>>) -> (r: Vec<Vec<T>>)
    requires
        grid_size(rows_view(lists@)) <= usize::MAX,
    ensures
        rows_view(r@) == product(rows_view(lists@)),
        r@.len() == grid_size(rows_view(lists@)),
{
    let ghost ls = rows_view(lists@);
    if some_list_empty(lists) {
        proof {
            let k = choose|k: int| 0 <= k < lists@.len() && #[trigger] lists@[k]@.len() == 0;
            assert(ls[k].len() == 0);
            lemma_product_empty(ls, k);
            lemma_product_len(ls);
        }
        let empty: Vec<Vec<T>> = Vec::new();
        assert(rows_view(empty@) =~= product(ls));
        return empty;
    }
    let mut cur: Vec<Vec<T>> = Vec::new();
    cur.push(Vec::new());
    assert(ls.take(0) =~= Seq::<Seq<T>>::empty());
    assert(rows_view(cur@) =~= product(ls.take(0)));
    let mut i: usize = 0;
    while i < lists.len()
        invariant
            ls == rows_view(lists@),
            forall|k: int| 0 <= k < ls.len() ==> #[trigger] ls[k].len() > 0,
            grid_size(ls) <= usize::MAX,
            i <= lists@.len(),
            rows_view(cur@) == product(ls.take(i as int)),
        decreases lists@.len() - i,
    {
        let list = &lists[i];
        let ghost prev = rows_view(cur@);
        let mut next: Vec<Vec<T>> = Vec::new();
        proof {
            lemma_grid_size_monotone(ls, i + 1);
            lemma_product_len(ls.take(i + 1));
            assert(ls.take(i + 1).drop_last() =~= ls.take(i as int));
            assert(ls.take(i + 1).last() == ls[i as int]);
            lemma_extend_rows_len(prev, list@);
        }
        let mut j: usize = 0;
        while j < cur.len()
            invariant
                ls == rows_view(lists@),
                i < lists@.len(),
                list@ == ls[i as int],
                prev == rows_view(cur@),
                extend_rows(prev, list@).len() <= usize::MAX,
                extend_rows(prev, list@).len() == prev.len() * list@.len(),
                j <= cur@.len(),
                rows_view(next@) == extend_rows(prev.take(j as int), list@),
            decreases cur@.len() - j,
        {
            let ghost base = rows_view(next@);
            let mut x: usize = 0;
            proof {
                lemma_extend_rows_len(prev.take(j as int), list@);
                let jj = j as int;
                let n = list@.len() as int;
                let p = prev.len() as int;
                assert(jj * n + n <= p * n) by (nonlinear_arith)
                    requires
                        jj < p,
                        n >= 0,
                ;
            }
            while x < list.len()
                invariant
                    ls == rows_view(lists@),
                    i < lists@.len(),
                    list@ == ls[i as int],
                    prev == rows_view(cur@),
                    j < cur@.len(),
                    x <= list@.len(),
                    base.len() + list@.len() <= usize::MAX,
                    rows_view(next@) == base + list@.take(x as int).map_values(
                        |y: T| prev[j as int].push(y),
                    ),
                decreases list@.len() - x,
            {
                let row = push_copy(&cur[j], list[x]);
                let ghost before = next@;
                next.push(row);
                assert(rows_view(next@) =~= rows_view(before).push(row@));
                assert(list@.take(x + 1) =~= list@.take(x as int).push(list@[x as int]));
                x = x + 1;
                assert(rows_view(next@) =~= base + list@.take(x as int).map_values(
                    |y: T| prev[j as int].push(y),
                ));
            }
            assert(list@.take(x as int) =~= list@);
            assert(prev.take(j + 1).drop_last() =~= prev.take(j as int));
            j = j + 1;
        }
        assert(prev.take(j as int) =~= prev);
        cur = next;
        i = i + 1;
    }
    assert(ls.take(i as int) =~= ls);
    proof {
        lemma_product_len(ls);
    }
    cur
}

/// The message of the error returned when real evaluation meets a complex domain.
pub open spec fn real_domains_message() -> Seq<char> {
    "eval_exprs only supports real domains; use eval_complex_exprs for complex domains"@
}

/// Every domain is a real interval.
pub open spec fn all_domains_real<F>(domains: Seq<SymbolDomain<F>>) -> bool {
    forall|k: int| 0 <= k < domains.len() ==> #[trigger] domains[k] is RealDomain
}

/// Real evaluation accepts only real domains.
///
/// Returns [`SymbolicEvalError::ArgumentError`] if some domain is complex.
pub fn check_real_domains<F>(domains: &Vec<SymbolDomain<F>>) -> (res: Result<(), SymbolicEvalError>)
    ensures
        res is Ok <==> all_domains_real(domains@),
        res matches Err(e) ==> e.is_argument(real_domains_message()),
{
    let mut k: usize = 0;
    while k < domains.len()
        invariant
            k <= domains@.len(),
            forall|j: int| 0 <= j < k ==> #[trigger] domains@[j] is RealDomain,
        decreases domains@.len() - k,
    {
        if !domains[k].is_real() {
            return Err(
                SymbolicEvalError::ArgumentError(
                    "eval_exprs only supports real domains; use eval_complex_exprs for complex domains".to_owned(),
                ),
            );
        }
        k = k + 1;
    }
    Ok(())
}

/// How many points sampling the domain gives.
pub open spec fn sample_count<F>(domain: SymbolDomain<F>) -> nat {
    match domain {
        SymbolDomain::RealDomain { samples, .. } => samples as nat,
        SymbolDomain::ComplexDomain { samples_re, samples_im, .. } => (samples_re * samples_im) as nat,
    }
}

/// `vals` are the sample points of `domain`: for a real interval, the
/// interval's samples each made a complex value with imaginary part `zero`;
/// for a complex rectangle, every pair of an imaginary-axis sample and a
/// real-axis sample, with the imaginary part outermost and the real part
/// varying fastest.
pub open spec fn is_domain_sampling<
    F,
    C,
    I: Fn(F, F, usize, usize) -> F,
    K: Fn(F, F) -> C,
>(interior: I, complex: K, zero: F, domain: SymbolDomain<F>, vals: Seq<C>) -> bool {
    match domain {
        SymbolDomain::RealDomain { min, max, samples } => exists|re: Seq<F>|
            #[trigger] is_interval_sampling(interior, min, max, samples, re) && vals.len() == re.len()
                && forall|i: int| 0 <= i < re.len() ==> complex.ensures((re[i], zero), #[trigger] vals[i]),
        SymbolDomain::ComplexDomain { min_re, max_re, min_im, max_im, samples_re, samples_im } => exists|
            re: Seq<F>,
            im: Seq<F>,
        |
            #![trigger is_interval_sampling(interior, min_re, max_re, samples_re, re), is_interval_sampling(interior, min_im, max_im, samples_im, im)]
            is_interval_sampling(interior, min_re, max_re, samples_re, re) && is_interval_sampling(
                interior,
                min_im,
                max_im,
                samples_im,
                im,
            ) && vals.len() == pairs(im, re).len() && forall|k: int|
                0 <= k < vals.len() ==> complex.ensures(
                    (pairs(im, re)[k].1, pairs(im, re)[k].0),
                    #[trigger] vals[k],
                ),
    }
}

/// Makes a complex value of each (imaginary, real) pair.
fn complex_of_pairs<F: Copy, C, K: Fn(F, F) -> C>(ps: &Vec<(F, F)>, complex: &K) -> (r: Vec<C>)
    requires
        forall|a: F, b: F| complex.requires((a, b)),
    ensures
        r@.len() == ps@.len(),
        forall|k: int| 0 <= k < ps@.len() ==> complex.ensures((ps@[k].1, ps@[k].0), #[trigger] r@[k]),
{
    let mut out: Vec<C> = Vec::new();
    let mut k: usize = 0;
    while k < ps.len()
        invariant
            forall|a: F, b: F| complex.requires((a, b)),
            k <= ps@.len(),
            out@.len() == k,
            forall|j: int| 0 <= j < k ==> complex.ensures((ps@[j].1, ps@[j].0), #[trigger] out@[j]),
        decreases ps@.len() - k,
    {
        let (im, re) = ps[k];
        out.push(complex(re, im));
        k = k + 1;
    }
    out
}

/// Samples one parameter domain (see [`is_domain_sampling`]).
///
/// A real interval gives its samples as complex values with imaginary part
/// `zero`; a complex rectangle gives every combination of a real-axis and an
/// imaginary-axis sample, the imaginary axis outermost and the real axis
/// innermost, so the real part varies fastest. `interior` computes the
/// samples between an axis's endpoints and `complex` builds a value from its
/// real and imaginary parts.
pub fn sample_domain<F: Copy, C, I: Fn(F, F, usize, usize) -> F, K: Fn(F, F) -> C>(
    domain: &SymbolDomain<F>,
    zero: F,
    interior: &I,
    complex: &K,
) -> (r: Vec<C>)
    requires
        forall|a: F, b: F, n: usize, idx: usize| interior.requires((a, b, n, idx)),
        forall|a: F, b: F| complex.requires((a, b)),
        sample_count(*domain) <= usize::MAX,
    ensures
        is_domain_sampling(*interior, *complex, zero, *domain, r@),
        r@.len() == sample_count(*domain),
{
    match domain {
        SymbolDomain::RealDomain { min, max, samples } => {
            let re = sample_interval(*min, *max, *samples, interior);
            let mut out: Vec<C> = Vec::new();
            let mut k: usize = 0;
            while k < re.len()
                invariant
                    forall|a: F, b: F| complex.requires((a, b)),
                    k <= re@.len(),
                    out@.len() == k,
                    forall|j: int| 0 <= j < k ==> complex.ensures((re@[j], zero), #[trigger] out@[j]),
                decreases re@.len() - k,
            {
                out.push(complex(re[k], zero));
                k = k + 1;
            }
            assert(is_interval_sampling(*interior, *min, *max, *samples, re@));
            out
        },
        SymbolDomain::ComplexDomain { min_re, max_re, min_im, max_im, samples_re, samples_im } => {
            let re = sample_interval(*min_re, *max_re, *samples_re, interior);
            let im = sample_interval(*min_im, *max_im, *samples_im, interior);
            assert(im@.len() * re@.len() == re@.len() * im@.len()) by (nonlinear_arith);
            let ps = cartesian_product(&im, &re);
            let out = complex_of_pairs(&ps, complex);
            assert(is_interval_sampling(*interior, *min_re, *max_re, *samples_re, re@)
                && is_interval_sampling(*interior, *min_im, *max_im, *samples_im, im@));
            out
        },
    }
}

/// The number of grid points for these domains: the product of their
/// sample counts.
pub open spec fn domains_grid_size<F>(domains: Seq<SymbolDomain<F>>) -> nat
    decreases domains.len(),
{
    if domains.len() == 0 {
        1
    } else {
        domains_grid_size(domains.drop_last()) * sample_count(domains.last())
    }
}

/// Lists with the domains' sample counts as lengths have the domains' grid size.
proof fn lemma_grid_size_of_samples<F, C>(domains: Seq<SymbolDomain<F>>, lists: Seq<Seq<C>>)
    requires
        lists.len() == domains.len(),
        forall|k: int| 0 <= k < lists.len() ==> #[trigger] lists[k].len() == sample_count(domains[k]),
    ensures
        grid_size(lists) == domains_grid_size(domains),
    decreases domains.len(),
{
    if domains.len() > 0 {
        assert(lists.drop_last().len() == domains.drop_last().len());
        assert forall|k: int| 0 <= k < lists.drop_last().len() implies #[trigger] lists.drop_last()[k].len()
            == sample_count(domains.drop_last()[k]) by {
            assert(lists.drop_last()[k] == lists[k]);
            assert(domains.drop_last()[k] == domains[k]);
        }
        lemma_grid_size_of_samples(domains.drop_last(), lists.drop_last());
    }
}

/// `lists` holds a sampling of each domain, in order.
pub open spec fn is_domains_sampling<F, C, I: Fn(F, F, usize, usize) -> F, K: Fn(F, F) -> C>(
    interior: I,
    complex: K,
    zero: F,
    domains: Seq<SymbolDomain<F>>,
    lists: Seq<Seq<C>>,
) -> bool {
    &&& lists.len() == domains.len()
    &&& forall|k: int|
        0 <= k < lists.len() ==> is_domain_sampling(
            interior,
            complex,
            zero,
            domains[k],
            #[trigger] lists[k],
        )
}

/// Samples every domain, in order (see [`sample_domain`]).
pub fn sample_domains<F: Copy, C, I: Fn(F, F, usize, usize) -> F, K: Fn(F, F) -> C>(
    domains: &Vec<SymbolDomain<F>>,
    zero: F,
    interior: &I,
    complex: &K,
) -> (r: Vec<Vec<C>>)
    requires
        forall|a: F, b: F, n: usize, idx: usize| interior.requires((a, b, n, idx)),
        forall|a: F, b: F| complex.requires((a, b)),
        forall|k: int| 0 <= k < domains@.len() ==> sample_count(#[trigger] domains@[k]) <= usize::MAX,
    ensures
        is_domains_sampling(*interior, *complex, zero, domains@, rows_view(r@)),
        grid_size(rows_view(r@)) == domains_grid_size(domains@),
{
    let mut out: Vec<Vec<C>> = Vec::new();
    let mut k: usize = 0;
    while k < domains.len()
        invariant
            forall|a: F, b: F, n: usize, idx: usize| interior.requires((a, b, n, idx)),
            forall|a: F, b: F| complex.requires((a, b)),
            forall|j: int| 0 <= j < domains@.len() ==> sample_count(#[trigger] domains@[j]) <= usize::MAX,
            k <= domains@.len(),
            out@.len() == k,
            forall|j: int|
                0 <= j < k ==> is_domain_sampling(
                    *interior,
                    *complex,
                    zero,
                    domains@[j],
                    #[trigger] out@[j]@,
                ) && out@[j]@.len() == sample_count(domains@[j]),
        decreases domains@.len() - k,
    {
        let vals = sample_domain(&domains[k], zero, interior, complex);
        out.push(vals);
        k = k + 1;
    }
    proof {
        let lists = rows_view(out@);
        assert forall|j: int| 0 <= j < lists.len() implies is_domain_sampling(
            *interior,
            *complex,
            zero,
            domains@[j],
            #[trigger] lists[j],
        ) by {
            assert(lists[j] == out@[j]@);
        }
        assert forall|j: int| 0 <= j < lists.len() implies #[trigger] lists[j].len() == sample_count(
            domains@[j],
        ) by {
            assert(lists[j] == out@[j]@);
        }
        lemma_grid_size_of_samples(domains@, lists);
    }
    out
}

/// A value as seen when converting a complex result to a real one: its real
/// part, and whether its imaginary part is exactly zero.
pub open spec fn all_real<R>(values: Seq<(R, bool)>) -> bool {
    forall|i: int| 0 <= i < values.len() ==> #[trigger] values[i].1
}

/// The real parts of the values.
pub open spec fn real_parts<R>(values: Seq<(R, bool)>) -> Seq<R> {
    values.map_values(|v: (R, bool)| v.0)
}

/// Whether a row of a complex result (its inputs, then its outputs) is real.
pub open spec fn row_is_real<R>(row: (Vec<(R, bool)>, Vec<(R, bool)>)) -> bool {
    all_real(row.0@) && all_real(row.1@)
}

/// The message of the error returned for a complex input.
pub open spec fn complex_input_message() -> Seq<char> {
    "cannot convert complex input to real result"@
}

/// The message of the error returned for a complex output.
pub open spec fn complex_output_message() -> Seq<char> {
    "cannot convert complex output to real result"@
}

/// The real parts of `values`, or `None` if one of them is not real.
fn real_values<R: Copy>(values: &Vec<(R, bool)>) -> (r: Option<Vec<R>>)
    ensures
        match r {
            Some(v) => all_real(values@) && v@ == real_parts(values@),
            None => !all_real(values@),
        },
{
    let mut out: Vec<R> = Vec::new();
    let mut i: usize = 0;
    while i < values.len()
        invariant
            i <= values@.len(),
            out@ == real_parts(values@.take(i as int)),
            all_real(values@.take(i as int)),
        decreases values@.len() - i,
    {
        let (re, is_real) = values[i];
        if !is_real {
            return None;
        }
        out.push(re);
        i = i + 1;
        assert(values@.take(i as int) =~= values@.take((i - 1) as int).push(values@[i - 1]));
        assert(out@ =~= real_parts(values@.take(i as int)));
    }
    assert(values@.take(i as int) =~= values@);
    Some(out)
}

/// What converting a complex result to a real one gives: if every row is
/// real, each row's inputs and outputs reduced to their real parts;
/// otherwise the error for the first row that is not.
pub open spec fn to_real_outcome<R>(
    result: Seq<(Vec<(R, bool)>, Vec<(R, bool)>)>,
    res: Result<Vec<(Vec<R>, Vec<R>)>, SymbolicEvalError>,
) -> bool {
    match res {
        Ok(out) => {
            &&& forall|k: int| 0 <= k < result.len() ==> #[trigger] row_is_real(result[k])
            &&& out@.len() == result.len()
            &&& forall|k: int|
                0 <= k < result.len() ==> #[trigger] out@[k].0@ == real_parts(result[k].0@)
                    && out@[k].1@ == real_parts(result[k].1@)
        },
        Err(e) => exists|k: int|
            0 <= k < result.len() && (forall|j: int| 0 <= j < k ==> #[trigger] row_is_real(result[j]))
                && !#[trigger] row_is_real(result[k]) && if !all_real(result[k].0@) {
                e.is_argument(complex_input_message())
            } else {
                e.is_argument(complex_output_message())
            },
    }
}

/// Converts a complex evaluation result to a real one, row by row: each
/// row's inputs, then its outputs, keep their real parts.
///
/// Returns [`SymbolicEvalError::ArgumentError`] at the first row with a value
/// whose imaginary part is not zero, naming an input if that row has one and
/// an output otherwise.
pub fn complex_result_to_real<R: Copy>(result: Vec<(Vec<(R, bool)>, Vec<(R, bool)>)>) -> (res:
    Result<Vec<(Vec<R>, Vec<R>)>, SymbolicEvalError>)
    ensures
        to_real_outcome(result@, res),
{
    let mut out: Vec<(Vec<R>, Vec<R>)> = Vec::new();
    let mut k: usize = 0;
    while k < result.len()
        invariant
            k <= result@.len(),
            out@.len() == k,
            forall|j: int| 0 <= j < k ==> #[trigger] row_is_real(result@[j]),
            forall|j: int|
                0 <= j < k ==> #[trigger] out@[j].0@ == real_parts(result@[j].0@) && out@[j].1@
                    == real_parts(result@[j].1@),
        decreases result@.len() - k,
    {
        let inputs = match real_values(&result[k].0) {
            Some(v) => v,
            None => {
                let e = SymbolicEvalError::ArgumentError(
                    "cannot convert complex input to real result".to_owned(),
                );
                assert(!row_is_real(result@[k as int]) && !all_real(result@[k as int].0@));
                return Err(e);
            },
        };
        let outputs = match real_values(&result[k].1) {
            Some(v) => v,
            None => {
                let e = SymbolicEvalError::ArgumentError(
                    "cannot convert complex output to real result".to_owned(),
                );
                assert(!row_is_real(result@[k as int]) && all_real(result@[k as int].0@));
                return Err(e);
            },
        };
        out.push((inputs, outputs));
        k = k + 1;
    }
    Ok(out)
}

/// Converting a complex result to a real one succeeds exactly when every
/// input and every output of every row is real. It then keeps each value's
/// real part, row by row and in place; otherwise it reports a complex input
/// or a complex output.
pub proof fn lemma_to_real_exact<R>(
    result: Seq<(Vec<(R, bool)>, Vec<(R, bool)>)>,
    res: Result<Vec<(Vec<R>, Vec<R>)>, SymbolicEvalError>,
)
    requires
        to_real_outcome(result, res),
    ensures
        res is Ok <==> {
            &&& forall|k: int, i: int|
                0 <= k < result.len() && 0 <= i < result[k].0@.len() ==> #[trigger] result[k].0@[i].1
            &&& forall|k: int, i: int|
                0 <= k < result.len() && 0 <= i < result[k].1@.len() ==> #[trigger] result[k].1@[i].1
        },
        res matches Ok(out) ==> {
            &&& out@.len() == result.len()
            &&& forall|k: int|
                0 <= k < result.len() ==> #[trigger] out@[k].0@.len() == result[k].0@.len()
                    && out@[k].1@.len() == result[k].1@.len()
            &&& forall|k: int, i: int|
                0 <= k < result.len() && 0 <= i < result[k].0@.len() ==> #[trigger] out@[k].0@[i]
                    == result[k].0@[i].0
            &&& forall|k: int, i: int|
                0 <= k < result.len() && 0 <= i < result[k].1@.len() ==> #[trigger] out@[k].1@[i]
                    == result[k].1@[i].0
        },
        res matches Err(e) ==> e.is_argument(complex_input_message()) || e.is_argument(
            complex_output_message(),
        ),
{
    match res {
        Ok(out) => {
            assert forall|k: int, i: int|
                0 <= k < result.len() && 0 <= i < result[k].0@.len() implies #[trigger] result[k].0@[i].1 by {
                assert(row_is_real(result[k]));
            }
            assert forall|k: int, i: int|
                0 <= k < result.len() && 0 <= i < result[k].1@.len() implies #[trigger] result[k].1@[i].1 by {
                assert(row_is_real(result[k]));
            }
            assert forall|k: int, i: int|
                0 <= k < result.len() && 0 <= i < result[k].0@.len() implies #[trigger] out@[k].0@[i]
                == result[k].0@[i].0 by {
                assert(out@[k].0@ == real_parts(result[k].0@));
            }
            assert forall|k: int, i: int|
                0 <= k < result.len() && 0 <= i < result[k].1@.len() implies #[trigger] out@[k].1@[i]
                == result[k].1@[i].0 by {
                assert(out@[k].0@ == real_parts(result[k].0@));
                assert(out@[k].1@ == real_parts(result[k].1@));
            }
            assert forall|k: int| 0 <= k < result.len() implies #[trigger] out@[k].0@.len()
                == result[k].0@.len() && out@[k].1@.len() == result[k].1@.len() by {
                assert(out@[k].0@ == real_parts(result[k].0@));
            }
        },
        Err(e) => {
            let k = choose|k: int|
                0 <= k < result.len() && (forall|j: int| 0 <= j < k ==> #[trigger] row_is_real(result[j]))
                    && !#[trigger] row_is_real(result[k]) && if !all_real(result[k].0@) {
                    e.is_argument(complex_input_message())
                } else {
                    e.is_argument(complex_output_message())
                };
            if !all_real(result[k].0@) {
                let i = choose|i: int| 0 <= i < result[k].0@.len() && !#[trigger] result[k].0@[i].1;
                assert(!result[k].0@[i].1);
            } else {
                let i = choose|i: int| 0 <= i < result[k].1@.len() && !#[trigger] result[k].1@[i].1;
                assert(!result[k].1@[i].1);
            }
        },
    }
}

/// What [`eval_complex_exprs`] returns: the compiler's error; or, with the
/// compiled evaluator `ev`, one row per point of the grid of all
/// combinations of the domains' samples (in [`product`] order), holding the
/// point's inputs and what `eval_at` gave there.
pub open spec fn complex_eval_outcome<
    S,
    A,
    F,
    C,
    E,
    I: Fn(F, F, usize, usize) -> F,
    K: Fn(F, F) -> C,
    CO: FnOnce(Expressions<S, A>) -> Result<E, SymbolicEvalError>,
    EA: Fn(&E, &Vec<C>) -> Vec<C>,
>(
    exprs: Expressions<S, A>,
    domains: Seq<SymbolDomain<F>>,
    zero: F,
    interior: I,
    complex: K,
    compile: CO,
    eval_at: EA,
    res: Result<Vec<(Vec<C>, Vec<C>)>, SymbolicEvalError>,
) -> bool {
    exists|cr: Result<E, SymbolicEvalError>|
        #[trigger] compile.ensures((exprs,), cr) && match cr {
            Err(e) => res == Err::<Vec<(Vec<C>, Vec<C>)>, SymbolicEvalError>(e),
            Ok(ev) => exists|samples: Seq<Seq<C>>|
                #[trigger] is_domains_sampling(interior, complex, zero, domains, samples) && (
                res matches Ok(rows) && rows@.len() == product(samples).len() && forall|k: int|
                    0 <= k < rows@.len() ==> #[trigger] rows@[k].0@ == product(samples)[k]
                        && eval_at.ensures((&ev, &rows@[k].0), rows@[k].1)),
        }
}

/// Evaluates every expression at every point of the Cartesian product of
/// the parameter domains, which may be real or complex. There is one row per
/// grid point: as many as the product of the domains' sample counts; each
/// row holds one input per domain and one output per expression (`eval_at`
/// gives one value per expression).
///
/// `compile` builds the evaluator from the expressions (first, as it may
/// fail); each domain is then sampled (see [`sample_domain`]), and
/// `eval_at` gives the outputs at each grid point, in grid order. Real
/// domains give samples with imaginary part `zero`; complex domains sample
/// the imaginary axis outermost and the real axis innermost.
pub fn eval_complex_exprs<
    S,
    A,
    F: Copy,
    C: Copy,
    E,
    I: Fn(F, F, usize, usize) -> F,
    K: Fn(F, F) -> C,
    CO: FnOnce(Expressions<S, A>) -> Result<E, SymbolicEvalError>,
    EA: Fn(&E, &Vec<C>) -> Vec<C>,
>(
    exprs: Expressions<S, A>,
    domains: &Vec<SymbolDomain<F>>,
    zero: F,
    interior: &I,
    complex: &K,
    compile: CO,
    eval_at: &EA,
) -> (res: Result<Vec<(Vec<C>, Vec<C>)>, SymbolicEvalError>)
    requires
        forall|a: F, b: F, n: usize, idx: usize| interior.requires((a, b, n, idx)),
        forall|a: F, b: F| complex.requires((a, b)),
        forall|ex: Expressions<S, A>| compile.requires((ex,)),
        forall|ev: &E, point: &Vec<C>| eval_at.requires((ev, point)),
        forall|ev: &E, point: &Vec<C>, out: Vec<C>|
            #[trigger] eval_at.ensures((ev, point), out) ==> out@.len() == exprs.exprs@.len(),
        forall|k: int| 0 <= k < domains@.len() ==> sample_count(#[trigger] domains@[k]) <= usize::MAX,
        domains_grid_size(domains@) <= usize::MAX,
    ensures
        complex_eval_outcome(exprs, domains@, zero, *interior, *complex, compile, *eval_at, res),
        res matches Ok(rows) ==> rows@.len() == domains_grid_size(domains@),
        res matches Ok(rows) ==> forall|k: int|
            0 <= k < rows@.len() ==> #[trigger] rows@[k].0@.len() == domains@.len()
                && rows@[k].1@.len() == exprs.exprs@.len(),
{
    let ghost exprs_view = exprs;
    let cr = compile(exprs);
    let ghost cr_view = cr;
    let ev = match cr {
        Ok(ev) => ev,
        Err(e) => {
            assert(compile.ensures((exprs_view,), cr_view));
            return Err(e);
        },
    };
    let samples = sample_domains(domains, zero, interior, complex);
    let grid = multi_cartesian_product(&samples);
    let ghost grid_view = rows_view(grid@);
    let mut grid = grid;
    let mut rows: Vec<(Vec<C>, Vec<C>)> = Vec::new();
    let n = grid.len();
    while grid.len() > 0
        invariant
            forall|ev: &E, point: &Vec<C>| eval_at.requires((ev, point)),
            n == grid_view.len(),
            rows@.len() + grid@.len() == n,
            rows_view(grid@) == grid_view.subrange(rows@.len() as int, n as int),
            forall|k: int|
                0 <= k < rows@.len() ==> #[trigger] rows@[k].0@ == grid_view[k] && eval_at.ensures(
                    (&ev, &rows@[k].0),
                    rows@[k].1,
                ),
        decreases grid@.len(),
    {
        let ghost before_grid = grid@;
        let ghost before_rows = rows@;
        let point = grid.remove(0);
        assert(rows_view(before_grid)[0] == point@);
        assert(rows_view(grid@) =~= rows_view(before_grid).drop_first());
        let out = eval_at(&ev, &point);
        rows.push((point, out));
        assert(rows@[rows@.len() - 1].0@ == grid_view[before_rows.len() as int]);
        assert forall|k: int| 0 <= k < rows@.len() implies #[trigger] rows@[k].0@ == grid_view[k]
            && eval_at.ensures((&ev, &rows@[k].0), rows@[k].1) by {
            if k < before_rows.len() {
                assert(rows@[k] == before_rows[k]);
            }
        }
    }
    assert(compile.ensures((exprs_view,), cr_view));
    assert(is_domains_sampling(*interior, *complex, zero, domains@, rows_view(samples@)));
    assert forall|k: int| 0 <= k < rows@.len() implies #[trigger] rows@[k].0@.len() == domains@.len()
        && rows@[k].1@.len() == exprs_view.exprs@.len() by {
        lemma_product_rows(rows_view(samples@), k);
    }
    Ok(rows)
}

/// Each value of the rows as `project` sees it when converting to a real
/// result: its real part, and whether its imaginary part is zero.
pub open spec fn is_projection<C, R, PR: Fn(C) -> (R, bool)>(
    project: PR,
    rows: Seq<(Vec<C>, Vec<C>)>,
    projected: Seq<(Vec<(R, bool)>, Vec<(R, bool)>)>,
) -> bool {
    &&& projected.len() == rows.len()
    &&& forall|k: int|
        0 <= k < rows.len() ==> {
            &&& #[trigger] projected[k].0@.len() == rows[k].0@.len()
            &&& projected[k].1@.len() == rows[k].1@.len()
            &&& forall|i: int|
                0 <= i < rows[k].0@.len() ==> project.ensures(
                    (rows[k].0@[i],),
                    #[trigger] projected[k].0@[i],
                )
            &&& forall|i: int|
                0 <= i < rows[k].1@.len() ==> project.ensures(
                    (rows[k].1@[i],),
                    #[trigger] projected[k].1@[i],
                )
        }
}

/// Projects each value with `project`.
fn project_values<C: Copy, R, PR: Fn(C) -> (R, bool)>(values: &Vec<C>, project: &PR) -> (r: Vec<
    (R, bool),
>)
    requires
        forall|c: C| project.requires((c,)),
    ensures
        r@.len() == values@.len(),
        forall|i: int| 0 <= i < values@.len() ==> project.ensures((values@[i],), #[trigger] r@[i]),
{
    let mut out: Vec<(R, bool)> = Vec::new();
    let mut i: usize = 0;
    while i < values.len()
        invariant
            forall|c: C| project.requires((c,)),
            i <= values@.len(),
            out@.len() == i,
            forall|j: int| 0 <= j < i ==> project.ensures((values@[j],), #[trigger] out@[j]),
        decreases values@.len() - i,
    {
        out.push(project(values[i]));
        i = i + 1;
    }
    out
}

/// Projects every value of every row with `project`.
fn project_rows<C: Copy, R, PR: Fn(C) -> (R, bool)>(rows: &Vec<(Vec<C>, Vec<C>)>, project: &PR) -> (r:
    Vec<(Vec<(R, bool)>, Vec<(R, bool)>)>)
    requires
        forall|c: C| project.requires((c,)),
    ensures
        is_projection(*project, rows@, r@),
{
    let mut out: Vec<(Vec<(R, bool)>, Vec<(R, bool)>)> = Vec::new();
    let mut k: usize = 0;
    while k < rows.len()
        invariant
            forall|c: C| project.requires((c,)),
            k <= rows@.len(),
            out@.len() == k,
            forall|j: int|
                0 <= j < k ==> {
                    &&& #[trigger] out@[j].0@.len() == rows@[j].0@.len()
                    &&& out@[j].1@.len() == rows@[j].1@.len()
                    &&& forall|i: int|
                        0 <= i < rows@[j].0@.len() ==> project.ensures(
                            (rows@[j].0@[i],),
                            #[trigger] out@[j].0@[i],
                        )
                    &&& forall|i: int|
                        0 <= i < rows@[j].1@.len() ==> project.ensures(
                            (rows@[j].1@[i],),
                            #[trigger] out@[j].1@[i],
                        )
                },
        decreases rows@.len() - k,
    {
        let inputs = project_values(&rows[k].0, project);
        let outputs = project_values(&rows[k].1, project);
        out.push((inputs, outputs));
        k = k + 1;
    }
    out
}

/// What [`eval_exprs`] returns: an error if a domain is not real; else the
/// outcome of [`eval_complex_exprs`], whose rows are converted to real ones
/// through `project`.
pub open spec fn real_eval_outcome<
    S,
    A,
    F,
    C,
    R,
    E,
    I: Fn(F, F, usize, usize) -> F,
    K: Fn(F, F) -> C,
    CO: FnOnce(Expressions<S, A>) -> Result<E, SymbolicEvalError>,
    EA: Fn(&E, &Vec<C>) -> Vec<C>,
    PR: Fn(C) -> (R, bool),
>(
    exprs: Expressions<S, A>,
    domains: Seq<SymbolDomain<F>>,
    zero: F,
    interior: I,
    complex: K,
    compile: CO,
    eval_at: EA,
    project: PR,
    res: Result<Vec<(Vec<R>, Vec<R>)>, SymbolicEvalError>,
) -> bool {
    if all_domains_real(domains) {
        exists|cres: Result<Vec<(Vec<C>, Vec<C>)>, SymbolicEvalError>|
            #[trigger] complex_eval_outcome(
                exprs,
                domains,
                zero,
                interior,
                complex,
                compile,
                eval_at,
                cres,
            ) && match cres {
                Err(e) => res == Err::<Vec<(Vec<R>, Vec<R>)>, SymbolicEvalError>(e),
                Ok(rows) => exists|projected: Seq<(Vec<(R, bool)>, Vec<(R, bool)>)>|
                    #[trigger] is_projection(project, rows@, projected) && to_real_outcome(
                        projected,
                        res,
                    ),
            }
    } else {
        res matches Err(e) && e.is_argument(real_domains_message())
    }
}

/// Evaluates every expression at every point of the Cartesian product of
/// the given real parameter domains (see [`eval_complex_exprs`]), and keeps
/// the real parts of the inputs and outputs. There is one row per grid
/// point: as many as the product of the domains' sample counts; each row
/// holds one input per domain and one output per expression (`eval_at`
/// gives one value per expression).
///
/// Returns [`SymbolicEvalError::ArgumentError`] if a domain is complex
/// (before anything is compiled), or if an input or output is not real; or
/// the compiler's error.
pub fn eval_exprs<
    S,
    A,
    F: Copy,
    C: Copy,
    R: Copy,
    E,
    I: Fn(F, F, usize, usize) -> F,
    K: Fn(F, F) -> C,
    CO: FnOnce(Expressions<S, A>) -> Result<E, SymbolicEvalError>,
    EA: Fn(&E, &Vec<C>) -> Vec<C>,
    PR: Fn(C) -> (R, bool),
>(
    exprs: Expressions<S, A>,
    domains: &Vec<SymbolDomain<F>>,
    zero: F,
    interior: &I,
    complex: &K,
    compile: CO,
    eval_at: &EA,
    project: &PR,
) -> (res: Result<Vec<(Vec<R>, Vec<R>)>, SymbolicEvalError>)
    requires
        forall|a: F, b: F, n: usize, idx: usize| interior.requires((a, b, n, idx)),
        forall|a: F, b: F| complex.requires((a, b)),
        forall|ex: Expressions<S, A>| compile.requires((ex,)),
        forall|ev: &E, point: &Vec<C>| eval_at.requires((ev, point)),
        forall|c: C| project.requires((c,)),
        forall|ev: &E, point: &Vec<C>, out: Vec<C>|
            #[trigger] eval_at.ensures((ev, point), out) ==> out@.len() == exprs.exprs@.len(),
        all_domains_real(domains@) ==> domains_grid_size(domains@) <= usize::MAX,
    ensures
        real_eval_outcome(
            exprs,
            domains@,
            zero,
            *interior,
            *complex,
            compile,
            *eval_at,
            *project,
            res,
        ),
        res matches Ok(rows) ==> rows@.len() == domains_grid_size(domains@),
        res matches Ok(rows) ==> forall|k: int|
            0 <= k < rows@.len() ==> #[trigger] rows@[k].0@.len() == domains@.len()
                && rows@[k].1@.len() == exprs.exprs@.len(),
{
    let ghost exprs_view = exprs;
    match check_real_domains(domains) {
        Ok(()) => {},
        Err(e) => {
            return Err(e);
        },
    }
    proof {
        lemma_real_counts_fit(domains@);
    }
    let cres = eval_complex_exprs(exprs, domains, zero, interior, complex, compile, eval_at);
    let ghost cres_view = cres;
    match cres {
        Ok(rows) => {
            let projected = project_rows(&rows, project);
            let res = complex_result_to_real(projected);
            assert(is_projection(*project, rows@, projected@));
            assert(complex_eval_outcome(
                exprs_view,
                domains@,
                zero,
                *interior,
                *complex,
                compile,
                *eval_at,
                cres_view,
            ));
            res
        },
        Err(e) => {
            assert(complex_eval_outcome(
                exprs_view,
                domains@,
                zero,
                *interior,
                *complex,
                compile,
                *eval_at,
                cres_view,
            ));
            Err(e)
        },
    }
}

/// A real domain's sample count is a `usize`.
proof fn lemma_real_counts_fit<F>(domains: Seq<SymbolDomain<F>>)
    requires
        all_domains_real(domains),
    ensures
        forall|k: int| 0 <= k < domains.len() ==> sample_count(#[trigger] domains[k]) <= usize::MAX,
{
    assert forall|k: int| 0 <= k < domains.len() implies sample_count(#[trigger] domains[k])
        <= usize::MAX by {
        assert(domains[k] is RealDomain);
    }
}

} // verus!
