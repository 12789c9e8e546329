use vstd::prelude::*;
use crate::matrix::{is_dot, lemma_same_elements, Matrix};

verus! {

/// `plus`, `times` and `zero` obey the laws of a semiring: `plus` is
/// associative and commutative with unit `zero`, `times` is associative,
/// `zero` absorbs under `times`, and `times` distributes over `plus` on both
/// sides. Exact arithmetic on integers or rationals is one.
#[verifier::opaque]
pub open spec fn is_semiring<T>(plus: spec_fn(T, T) -> T, times: spec_fn(T, T) -> T, zero: T) -> bool {
    &&& forall|x: T, y: T, z: T| #[trigger] plus(plus(x, y), z) == plus(x, plus(y, z))
    &&& forall|x: T, y: T| #[trigger] plus(x, y) == plus(y, x)
    &&& forall|x: T| #[trigger] plus(zero, x) == x
    &&& forall|x: T, y: T, z: T| #[trigger] times(times(x, y), z) == times(x, times(y, z))
    &&& forall|x: T| #[trigger] times(zero, x) == zero
    &&& forall|x: T| #[trigger] times(x, zero) == zero
    &&& forall|x: T, y: T, z: T| #[trigger] times(x, plus(y, z)) == plus(times(x, y), times(x, z))
    &&& forall|x: T, y: T, z: T| #[trigger] times(plus(x, y), z) == plus(times(x, z), times(y, z))
}

/// The executable operations compute the mathematical ones.
pub open spec fn computes<T, M: Fn(T, T) -> T, A: Fn(T, T) -> T>(
    times_fn: M,
    plus_fn: A,
    times: spec_fn(T, T) -> T,
    plus: spec_fn(T, T) -> T,
) -> bool {
    &&& forall|x: T, y: T, r: T| times_fn.ensures((x, y), r) ==> r == times(x, y)
    &&& forall|x: T, y: T, r: T| plus_fn.ensures((x, y), r) ==> r == plus(x, y)
}

/// `f(0) + f(1) + ... + f(n - 1)`, added from the left starting at `zero`.
pub open spec fn sum_of<T>(plus: spec_fn(T, T) -> T, zero: T, f: spec_fn(int) -> T, n: nat) -> T
    decreases n,
{
    if n == 0 {
        zero
    } else {
        plus(sum_of(plus, zero, f, (n - 1) as nat), f(n - 1))
    }
}

proof fn lemma_plus_shuffle<T>(plus: spec_fn(T, T) -> T, times: spec_fn(T, T) -> T, zero: T, a: T, b: T, c: T, d: T)
    requires
        is_semiring(plus, times, zero),
    ensures
        plus(plus(a, b), plus(c, d)) == plus(plus(a, c), plus(b, d)),
{
    reveal(is_semiring);
    assert(plus(plus(a, b), plus(c, d)) == plus(a, plus(b, plus(c, d))));
    assert(plus(b, plus(c, d)) == plus(plus(b, c), d));
    assert(plus(b, c) == plus(c, b));
    assert(plus(plus(c, b), d) == plus(c, plus(b, d)));
    assert(plus(a, plus(c, plus(b, d))) == plus(plus(a, c), plus(b, d)));
}

proof fn lemma_sum_ext<T>(plus: spec_fn(T, T) -> T, zero: T, f: spec_fn(int) -> T, g: spec_fn(int) -> T, n: nat)
    requires
        forall|k: int| 0 <= k < n ==> #[trigger] f(k) == g(k),
    ensures
        sum_of(plus, zero, f, n) == sum_of(plus, zero, g, n),
    decreases n,
{
    if n > 0 {
        lemma_sum_ext(plus, zero, f, g, (n - 1) as nat);
    }
}

proof fn lemma_sum_plus<T>(
    plus: spec_fn(T, T) -> T,
    times: spec_fn(T, T) -> T,
    zero: T,
    f: spec_fn(int) -> T,
    g: spec_fn(int) -> T,
    n: nat,
)
    requires
        is_semiring(plus, times, zero),
    ensures
        sum_of(plus, zero, |k: int| plus(f(k), g(k)), n) == plus(sum_of(plus, zero, f, n), sum_of(plus, zero, g, n)),
    decreases n,
{
    if n == 0 {
        reveal(is_semiring);
        assert(plus(zero, zero) == zero);
    } else {
        let m = (n - 1) as nat;
        lemma_sum_plus(plus, times, zero, f, g, m);
        lemma_plus_shuffle(
            plus,
            times,
            zero,
            sum_of(plus, zero, f, m),
            sum_of(plus, zero, g, m),
            f(m as int),
            g(m as int),
        );
    }
}

proof fn lemma_times_sum_right<T>(
    plus: spec_fn(T, T) -> T,
    times: spec_fn(T, T) -> T,
    zero: T,
    f: spec_fn(int) -> T,
    x: T,
    n: nat,
)
    requires
        is_semiring(plus, times, zero),
    ensures
        times(sum_of(plus, zero, f, n), x) == sum_of(plus, zero, |k: int| times(f(k), x), n),
    decreases n,
{
    reveal(is_semiring);
    if n > 0 {
        lemma_times_sum_right(plus, times, zero, f, x, (n - 1) as nat);
    }
}

proof fn lemma_times_sum_left<T>(
    plus: spec_fn(T, T) -> T,
    times: spec_fn(T, T) -> T,
    zero: T,
    x: T,
    f: spec_fn(int) -> T,
    n: nat,
)
    requires
        is_semiring(plus, times, zero),
    ensures
        times(x, sum_of(plus, zero, f, n)) == sum_of(plus, zero, |k: int| times(x, f(k)), n),
    decreases n,
{
    reveal(is_semiring);
    if n > 0 {
        lemma_times_sum_left(plus, times, zero, x, f, (n - 1) as nat);
    }
}

/// Finite double sums can be taken in either order.
proof fn lemma_sum_swap<T>(
    plus: spec_fn(T, T) -> T,
    times: spec_fn(T, T) -> T,
    zero: T,
    g: spec_fn(int, int) -> T,
    m: nat,
    n: nat,
)
    requires
        is_semiring(plus, times, zero),
    ensures
        sum_of(plus, zero, |l: int| sum_of(plus, zero, |k: int| g(k, l), m), n) == sum_of(
            plus,
            zero,
            |k: int| sum_of(plus, zero, |l: int| g(k, l), n),
            m,
        ),
    decreases n,
{
    if n == 0 {
        reveal(is_semiring);
        lemma_sum_zero(plus, times, zero, m);
        lemma_sum_ext(plus, zero, |k: int| sum_of(plus, zero, |l: int| g(k, l), 0), |k: int| zero, m);
    } else {
        let p = (n - 1) as nat;
        lemma_sum_swap(plus, times, zero, g, m, p);
        let before = |k: int| sum_of(plus, zero, |l: int| g(k, l), p);
        let last = |k: int| g(k, p as int);
        lemma_sum_plus(plus, times, zero, before, last, m);
        lemma_sum_ext(
            plus,
            zero,
            |k: int| plus(before(k), last(k)),
            |k: int| sum_of(plus, zero, |l: int| g(k, l), n),
            m,
        );
    }
}

proof fn lemma_sum_zero<T>(plus: spec_fn(T, T) -> T, times: spec_fn(T, T) -> T, zero: T, m: nat)
    requires
        is_semiring(plus, times, zero),
    ensures
        sum_of(plus, zero, |k: int| zero, m) == zero,
    decreases m,
{
    reveal(is_semiring);
    if m > 0 {
        lemma_sum_zero(plus, times, zero, (m - 1) as nat);
    }
}

/// An accumulated row-by-column product is the sum of its terms.
proof fn lemma_dot_is_sum<T, M: Fn(T, T) -> T, A: Fn(T, T) -> T>(
    a: Matrix<T>,
    b: Matrix<T>,
    i: int,
    j: int,
    n: nat,
    zero: T,
    times_fn: M,
    plus_fn: A,
    times: spec_fn(T, T) -> T,
    plus: spec_fn(T, T) -> T,
    terms: spec_fn(int) -> T,
    s: T,
)
    requires
        computes(times_fn, plus_fn, times, plus),
        forall|k: int| #[trigger] terms(k) == times(a.at(i, k), b.at(k, j)),
        is_dot(a, b, i, j, n, zero, times_fn, plus_fn, s),
    ensures
        s == sum_of(plus, zero, terms, n),
    decreases n,
{
    if n > 0 {
        let acc = choose|acc: T, p: T|
            #![trigger plus_fn.ensures((acc, p), s)]
            is_dot(a, b, i, j, (n - 1) as nat, zero, times_fn, plus_fn, acc) && times_fn.ensures(
                (a.at(i, n - 1), b.at(n - 1, j)),
                p,
            ) && plus_fn.ensures((acc, p), s);
        lemma_dot_is_sum(a, b, i, j, (n - 1) as nat, zero, times_fn, plus_fn, times, plus, terms, acc.0);
    }
}

/// Matrix multiplication is associative, `(A * B) * C == A * (B * C)`,
/// whenever the element operations compute a semiring's `times` and `plus`
/// (as exact arithmetic does; floating-point arithmetic only approximately).
pub proof fn lemma_product_associative<T, M: Fn(T, T) -> T, A: Fn(T, T) -> T>(
    a: Matrix<T>,
    b: Matrix<T>,
    c: Matrix<T>,
    ab: Matrix<T>,
    bc: Matrix<T>,
    ab_c: Matrix<T>,
    a_bc: Matrix<T>,
    zero: T,
    times_fn: M,
    plus_fn: A,
    times: spec_fn(T, T) -> T,
    plus: spec_fn(T, T) -> T,
)
    requires
        a.wf(),
        b.wf(),
        c.wf(),
        a.cols == b.rows,
        b.cols == c.rows,
        is_semiring(plus, times, zero),
        computes(times_fn, plus_fn, times, plus),
        ab.is_product_of(a, b, zero, times_fn, plus_fn),
        bc.is_product_of(b, c, zero, times_fn, plus_fn),
        ab_c.is_product_of(ab, c, zero, times_fn, plus_fn),
        a_bc.is_product_of(a, bc, zero, times_fn, plus_fn),
    ensures
        ab_c.same(a_bc),
{
    let m = a.cols as nat;
    let n = b.cols as nat;
    assert forall|i: int, j: int| 0 <= i < a.rows && 0 <= j < c.cols implies ab_c.at(i, j) == a_bc.at(i, j) by {
        let g = |k: int, l: int| times(times(a.at(i, k), b.at(k, l)), c.at(l, j));
        let h = |k: int, l: int| times(a.at(i, k), times(b.at(k, l), c.at(l, j)));
        // Left side: the sum over l of (the sum over k of a_ik b_kl) c_lj.
        let left_terms = |l: int| times(ab.at(i, l), c.at(l, j));
        let g_cols = |l: int| sum_of(plus, zero, |k: int| g(k, l), m);
        lemma_dot_is_sum(ab, c, i, j, n, zero, times_fn, plus_fn, times, plus, left_terms, ab_c.at(i, j));
        assert forall|l: int| 0 <= l < n implies #[trigger] left_terms(l) == g_cols(l) by {
            let ab_terms = |k: int| times(a.at(i, k), b.at(k, l));
            lemma_dot_is_sum(a, b, i, l, m, zero, times_fn, plus_fn, times, plus, ab_terms, ab.at(i, l));
            lemma_times_sum_right(plus, times, zero, ab_terms, c.at(l, j), m);
            lemma_sum_ext(plus, zero, |k: int| times(ab_terms(k), c.at(l, j)), |k: int| g(k, l), m);
        }
        lemma_sum_ext(plus, zero, left_terms, g_cols, n);
        lemma_sum_swap(plus, times, zero, g, m, n);
        // Regroup each term.
        let g_rows = |k: int| sum_of(plus, zero, |l: int| g(k, l), n);
        let h_rows = |k: int| sum_of(plus, zero, |l: int| h(k, l), n);
        assert forall|k: int| 0 <= k < m implies #[trigger] g_rows(k) == h_rows(k) by {
            reveal(is_semiring);
            lemma_sum_ext(plus, zero, |l: int| g(k, l), |l: int| h(k, l), n);
        }
        lemma_sum_ext(plus, zero, g_rows, h_rows, m);
        // Right side: the sum over k of a_ik (the sum over l of b_kl c_lj).
        let right_terms = |k: int| times(a.at(i, k), bc.at(k, j));
        lemma_dot_is_sum(a, bc, i, j, m, zero, times_fn, plus_fn, times, plus, right_terms, a_bc.at(i, j));
        assert forall|k: int| 0 <= k < m implies #[trigger] right_terms(k) == h_rows(k) by {
            let bc_terms = |l: int| times(b.at(k, l), c.at(l, j));
            lemma_dot_is_sum(b, c, k, j, n, zero, times_fn, plus_fn, times, plus, bc_terms, bc.at(k, j));
            lemma_times_sum_left(plus, times, zero, a.at(i, k), bc_terms, n);
            lemma_sum_ext(plus, zero, |l: int| times(a.at(i, k), bc_terms(l)), |l: int| h(k, l), n);
        }
        lemma_sum_ext(plus, zero, right_terms, h_rows, m);
    }
    lemma_same_elements(ab_c, a_bc);
}

} // verus!
