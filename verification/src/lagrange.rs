//! Why interpolation gives back the polynomial: the Lagrange interpolant
//! through enough samples of a polynomial is that polynomial.
use vstd::prelude::*;
use crate::ops::{
    gf_add, gf_div, gf_inv, gf_mul, lemma_add_zero, lemma_div_cancel, lemma_mul_associative,
    lemma_mul_commutative, lemma_mul_distributive, lemma_mul_inverse, lemma_mul_one,
    lemma_mul_zero, lemma_mul_zero_left,
};
use crate::polynomial::{
    basis, eval, interpolation, lagrange_sum, lemma_difference_nonzero,
};

verus! {

/// The sum over `i < k` of the basis values over the first `m` samples.
pub open spec fn basis_sum(xs: Seq<u8>, m: int, k: int, x: u8) -> u8
    decreases k,
{
    if k <= 0 {
        0u8
    } else {
        gf_add(basis_sum(xs, m, k - 1, x), basis(xs, k - 1, m, x))
    }
}

/// The Lagrange sum over `i < k` whose y-values are those of the polynomial `c`.
pub open spec fn eval_sum(xs: Seq<u8>, c: Seq<u8>, m: int, k: int, x: u8) -> u8
    decreases k,
{
    if k <= 0 {
        0u8
    } else {
        gf_add(
            eval_sum(xs, c, m, k - 1, x),
            gf_mul(eval(c, xs[k - 1]), basis(xs, k - 1, m, x)),
        )
    }
}

proof fn lemma_add_pairs(a: u8, b: u8, c: u8, d: u8)
    ensures
        gf_add(gf_add(a, b), gf_add(c, d)) == gf_add(gf_add(a, c), gf_add(b, d)),
{
    assert((a ^ b) ^ (c ^ d) == (a ^ c) ^ (b ^ d)) by (bit_vector);
}

proof fn lemma_add_triples(a: u8, b: u8, c: u8, d: u8, e: u8, f: u8)
    ensures
        gf_add(gf_add(gf_add(a, b), c), gf_add(gf_add(d, e), f)) == gf_add(
            gf_add(gf_add(a, d), gf_add(b, e)),
            gf_add(c, f),
        ),
{
    assert(((a ^ b) ^ c) ^ ((d ^ e) ^ f) == ((a ^ d) ^ (b ^ e)) ^ (c ^ f)) by (bit_vector);
}

proof fn lemma_mul_one_left(a: u8)
    ensures
        gf_mul(1, a) == a,
{
    lemma_mul_commutative(1, a);
    lemma_mul_one(a);
}

proof fn lemma_mul_swap_right(a: u8, b: u8, c: u8)
    ensures
        gf_mul(gf_mul(a, b), c) == gf_mul(gf_mul(a, c), b),
{
    lemma_mul_associative(a, b, c);
    lemma_mul_commutative(b, c);
    lemma_mul_associative(a, c, b);
}

proof fn lemma_mul_swap_left(a: u8, b: u8, c: u8)
    ensures
        gf_mul(a, gf_mul(b, c)) == gf_mul(b, gf_mul(a, c)),
{
    lemma_mul_associative(a, b, c);
    lemma_mul_commutative(a, b);
    lemma_mul_associative(b, a, c);
}

proof fn lemma_mul_interchange(a: u8, b: u8, c: u8, d: u8)
    ensures
        gf_mul(gf_mul(a, b), gf_mul(c, d)) == gf_mul(gf_mul(a, c), gf_mul(b, d)),
{
    lemma_mul_associative(a, b, gf_mul(c, d));
    lemma_mul_swap_left(b, c, d);
    lemma_mul_associative(a, c, gf_mul(b, d));
}

proof fn lemma_div_chain(u: u8, v: u8, w: u8)
    requires
        v != 0,
    ensures
        gf_mul(gf_div(u, v), gf_div(v, w)) == gf_div(u, w),
{
    let iv = gf_inv(v);
    let iw = gf_inv(w);
    lemma_mul_associative(u, iv, gf_mul(v, iw));
    lemma_mul_associative(iv, v, iw);
    lemma_mul_inverse(v);
    lemma_mul_one_left(iw);
}

proof fn lemma_div_split(x: u8, xi: u8, a: u8)
    requires
        xi != a,
    ensures
        gf_div(gf_add(x, a), gf_add(xi, a)) == gf_add(
            1,
            gf_div(gf_add(x, xi), gf_add(a, xi)),
        ),
{
    let d = gf_add(xi, a);
    let u = gf_add(x, xi);
    assert(a ^ xi == xi ^ a && x ^ a == (x ^ xi) ^ (xi ^ a)) by (bit_vector);
    lemma_difference_nonzero(xi, a);
    lemma_mul_distributive(gf_inv(d), u, d);
    lemma_mul_inverse(d);
    crate::ops::lemma_add_commutative(gf_div(u, d), 1);
}

/// What the basis value of sample `i` has gathered for its own x-value
/// after `p` samples.
spec fn own_factor(p: int, i: int, x: u8, xi: u8, a: u8) -> u8 {
    if p <= i {
        1u8
    } else {
        gf_div(gf_add(x, xi), gf_add(a, xi))
    }
}

proof fn lemma_basis_exchange(xs: Seq<u8>, i: int, m: int, p: int, x: u8)
    requires
        xs.no_duplicates(),
        0 <= i < m < xs.len(),
        0 <= p <= m,
    ensures
        gf_mul(basis(xs, m, p, x), basis(xs, i, p, xs[m])) == gf_mul(
            basis(xs, i, p, x),
            own_factor(p, i, x, xs[i], xs[m]),
        ),
    decreases p,
{
    let a = xs[m];
    if p == 0 {
    } else {
        let j = p - 1;
        lemma_basis_exchange(xs, i, m, j, x);
        let big = basis(xs, m, j, x);
        let at_a = basis(xs, i, j, a);
        let at_x = basis(xs, i, j, x);
        let d1 = gf_div(gf_add(x, xs[j]), gf_add(a, xs[j]));
        assert(basis(xs, m, p, x) == gf_mul(big, d1));
        if j == i {
            assert(basis(xs, i, p, a) == at_a);
            assert(basis(xs, i, p, x) == at_x);
            lemma_mul_swap_right(big, d1, at_a);
            lemma_mul_one(at_x);
        } else {
            let d2 = gf_div(gf_add(a, xs[j]), gf_add(xs[i], xs[j]));
            let d3 = gf_div(gf_add(x, xs[j]), gf_add(xs[i], xs[j]));
            let own = own_factor(j, i, x, xs[i], a);
            assert(basis(xs, i, p, a) == gf_mul(at_a, d2));
            assert(basis(xs, i, p, x) == gf_mul(at_x, d3));
            lemma_difference_nonzero(a, xs[j]);
            lemma_div_chain(gf_add(x, xs[j]), gf_add(a, xs[j]), gf_add(xs[i], xs[j]));
            lemma_mul_interchange(big, d1, at_a, d2);
            lemma_mul_swap_right(at_x, own, d3);
        }
    }
}

proof fn lemma_basis_extend(xs: Seq<u8>, i: int, m: int, x: u8)
    requires
        xs.no_duplicates(),
        0 <= i < m < xs.len(),
    ensures
        basis(xs, i, m + 1, x) == gf_add(
            basis(xs, i, m, x),
            gf_mul(basis(xs, m, m, x), basis(xs, i, m, xs[m])),
        ),
{
    let a = xs[m];
    let b = basis(xs, i, m, x);
    let e = gf_div(gf_add(x, xs[i]), gf_add(a, xs[i]));
    lemma_basis_exchange(xs, i, m, m, x);
    lemma_div_split(x, xs[i], a);
    lemma_mul_distributive(b, 1, e);
    lemma_mul_one(b);
    assert(basis(xs, i, m + 1, x) == gf_mul(b, gf_div(gf_add(x, a), gf_add(xs[i], a))));
}

proof fn lemma_basis_sum_extend(xs: Seq<u8>, m: int, k: int, x: u8)
    requires
        xs.no_duplicates(),
        0 <= k <= m < xs.len(),
    ensures
        basis_sum(xs, m + 1, k, x) == gf_add(
            basis_sum(xs, m, k, x),
            gf_mul(basis(xs, m, m, x), basis_sum(xs, m, k, xs[m])),
        ),
    decreases k,
{
    let big = basis(xs, m, m, x);
    if k == 0 {
        lemma_mul_zero(big);
        lemma_add_zero(0);
    } else {
        let i = k - 1;
        lemma_basis_sum_extend(xs, m, i, x);
        lemma_basis_extend(xs, i, m, x);
        let s = basis_sum(xs, m, i, x);
        let s_a = basis_sum(xs, m, i, xs[m]);
        let b = basis(xs, i, m, x);
        let b_a = basis(xs, i, m, xs[m]);
        lemma_add_pairs(s, gf_mul(big, s_a), b, gf_mul(big, b_a));
        lemma_mul_distributive(big, s_a, b_a);
    }
}

/// The basis values over distinct samples add up to one at every point.
pub proof fn lemma_basis_sum_is_one(xs: Seq<u8>, m: int, x: u8)
    requires
        xs.no_duplicates(),
        1 <= m <= xs.len(),
    ensures
        basis_sum(xs, m, m, x) == 1,
    decreases m,
{
    if m == 1 {
        assert(basis(xs, 0, 0, x) == 1);
        assert(basis(xs, 0, 1, x) == 1);
        assert(basis_sum(xs, 1, 0, x) == 0);
        lemma_add_zero(1);
    } else {
        let n = m - 1;
        let big = basis(xs, n, n, x);
        lemma_basis_sum_is_one(xs, n, x);
        lemma_basis_sum_is_one(xs, n, xs[n]);
        lemma_basis_sum_extend(xs, n, n, x);
        lemma_mul_one(big);
        assert(basis(xs, n, m, x) == big);
        assert((1u8 ^ big) ^ big == 1u8) by (bit_vector);
    }
}

proof fn lemma_basis_shift(xs: Seq<u8>, i: int, m: int, x: u8)
    requires
        xs.no_duplicates(),
        0 <= i < m < xs.len(),
    ensures
        gf_mul(gf_add(xs[i], xs[m]), basis(xs, i, m + 1, x)) == gf_mul(
            gf_add(x, xs[m]),
            basis(xs, i, m, x),
        ),
{
    let d = gf_add(xs[i], xs[m]);
    let u = gf_add(x, xs[m]);
    let b = basis(xs, i, m, x);
    assert(basis(xs, i, m + 1, x) == gf_mul(b, gf_div(u, d)));
    lemma_difference_nonzero(xs[i], xs[m]);
    lemma_mul_commutative(d, gf_mul(b, gf_div(u, d)));
    lemma_mul_associative(b, gf_div(u, d), d);
    lemma_div_cancel(u, d);
    lemma_mul_commutative(b, u);
}

/// A polynomial with one coefficient has that value everywhere.
pub proof fn lemma_eval_constant(c: Seq<u8>, x: u8)
    requires
        c.len() == 1,
    ensures
        eval(c, x) == c[0],
{
    assert(c.drop_first().len() == 0);
    assert(eval(c.drop_first(), x) == 0);
    lemma_mul_zero_left(x);
    lemma_add_zero(c[0]);
}

proof fn lemma_eval_sum_constant(xs: Seq<u8>, c: Seq<u8>, m: int, k: int, x: u8)
    requires
        c.len() == 1,
        0 <= k <= xs.len(),
    ensures
        eval_sum(xs, c, m, k, x) == gf_mul(c[0], basis_sum(xs, m, k, x)),
    decreases k,
{
    if k == 0 {
        lemma_mul_zero(c[0]);
    } else {
        lemma_eval_sum_constant(xs, c, m, k - 1, x);
        lemma_eval_constant(c, xs[k - 1]);
        lemma_mul_distributive(c[0], basis_sum(xs, m, k - 1, x), basis(xs, k - 1, m, x));
    }
}

proof fn lemma_term_split(t: u8, xi: u8, a: u8, c0: u8, l: u8)
    ensures
        gf_mul(gf_add(gf_mul(t, xi), c0), l) == gf_add(
            gf_add(gf_mul(c0, l), gf_mul(t, gf_mul(gf_add(xi, a), l))),
            gf_mul(a, gf_mul(t, l)),
        ),
{
    let shifted = gf_add(xi, a);
    assert(xi == (xi ^ a) ^ a) by (bit_vector);
    lemma_mul_distributive(l, gf_mul(t, xi), c0);
    lemma_mul_commutative(c0, l);
    lemma_mul_distributive(t, shifted, a);
    lemma_mul_distributive(l, gf_mul(t, shifted), gf_mul(t, a));
    lemma_mul_associative(t, shifted, l);
    lemma_mul_commutative(t, a);
    lemma_mul_associative(a, t, l);
    let first = gf_mul(c0, l);
    let second = gf_mul(t, gf_mul(shifted, l));
    let third = gf_mul(a, gf_mul(t, l));
    assert((second ^ third) ^ first == (first ^ second) ^ third) by (bit_vector);
}

proof fn lemma_eval_sum_split(xs: Seq<u8>, c: Seq<u8>, n: int, k: int, x: u8)
    requires
        xs.no_duplicates(),
        c.len() >= 2,
        0 <= k <= n < xs.len(),
    ensures
        eval_sum(xs, c, n + 1, k, x) == gf_add(
            gf_add(
                gf_mul(c[0], basis_sum(xs, n + 1, k, x)),
                gf_mul(gf_add(x, xs[n]), eval_sum(xs, c.drop_first(), n, k, x)),
            ),
            gf_mul(xs[n], eval_sum(xs, c.drop_first(), n + 1, k, x)),
        ),
    decreases k,
{
    let a = xs[n];
    let u = gf_add(x, a);
    let tail = c.drop_first();
    if k == 0 {
        lemma_mul_zero(c[0]);
        lemma_mul_zero(u);
        lemma_mul_zero(a);
        lemma_add_zero(0);
    } else {
        let i = k - 1;
        lemma_eval_sum_split(xs, c, n, i, x);
        let t = eval(tail, xs[i]);
        let l = basis(xs, i, n + 1, x);
        let l_short = basis(xs, i, n, x);
        lemma_term_split(t, xs[i], a, c[0], l);
        lemma_basis_shift(xs, i, n, x);
        lemma_mul_swap_left(t, u, l_short);
        let s = basis_sum(xs, n + 1, i, x);
        let e_short = eval_sum(xs, tail, n, i, x);
        let e = eval_sum(xs, tail, n + 1, i, x);
        assert(eval(c, xs[i]) == gf_add(gf_mul(t, xs[i]), c[0]));
        lemma_add_triples(
            gf_mul(c[0], s),
            gf_mul(u, e_short),
            gf_mul(a, e),
            gf_mul(c[0], l),
            gf_mul(u, gf_mul(t, l_short)),
            gf_mul(a, gf_mul(t, l)),
        );
        lemma_mul_distributive(c[0], s, l);
        lemma_mul_distributive(u, e_short, gf_mul(t, l_short));
        lemma_mul_distributive(a, e, gf_mul(t, l));
    }
}

/// The Lagrange sum over `m` distinct samples of a polynomial with at most
/// `m` coefficients is the polynomial's value.
pub proof fn lemma_eval_sum_is_eval(xs: Seq<u8>, c: Seq<u8>, m: int, x: u8)
    requires
        xs.no_duplicates(),
        1 <= c.len() <= m <= xs.len(),
    ensures
        eval_sum(xs, c, m, m, x) == eval(c, x),
    decreases m, c.len(),
{
    if c.len() == 1 {
        lemma_eval_sum_constant(xs, c, m, m, x);
        lemma_basis_sum_is_one(xs, m, x);
        lemma_mul_one(c[0]);
        lemma_eval_constant(c, x);
    } else {
        let n = m - 1;
        let a = xs[n];
        let u = gf_add(x, a);
        let tail = c.drop_first();
        let v = eval(tail, x);
        lemma_eval_sum_split(xs, c, n, n, x);
        lemma_eval_sum_is_eval(xs, tail, n, x);
        lemma_eval_sum_is_eval(xs, tail, m, x);
        lemma_basis_sum_is_one(xs, m, x);
        // The last sample, whose x-value is `a` itself.
        let t = eval(tail, a);
        let l = basis(xs, n, m, x);
        lemma_term_split(t, a, a, c[0], l);
        crate::ops::lemma_add_self(a);
        lemma_mul_zero_left(l);
        lemma_mul_zero(t);
        lemma_add_zero(gf_mul(c[0], l));
        let s = basis_sum(xs, m, n, x);
        let e_short = eval_sum(xs, tail, n, n, x);
        let e = eval_sum(xs, tail, m, n, x);
        assert(eval(c, a) == gf_add(gf_mul(t, a), c[0]));
        lemma_add_triples(
            gf_mul(c[0], s),
            gf_mul(u, e_short),
            gf_mul(a, e),
            gf_mul(c[0], l),
            0,
            gf_mul(a, gf_mul(t, l)),
        );
        lemma_add_zero(gf_mul(u, e_short));
        lemma_mul_distributive(c[0], s, l);
        lemma_mul_distributive(a, e, gf_mul(t, l));
        lemma_mul_one(c[0]);
        // c0 + (x + a) v + a v = v x + c0
        lemma_mul_distributive(v, x, a);
        lemma_mul_commutative(v, u);
        lemma_mul_commutative(v, a);
        let va = gf_mul(a, v);
        let vx = gf_mul(v, x);
        let c0 = c[0];
        assert((c0 ^ (vx ^ va)) ^ va == vx ^ c0) by (bit_vector);
    }
}

proof fn lemma_lagrange_sum_of_samples(
    xs: Seq<u8>,
    ys: Seq<u8>,
    c: Seq<u8>,
    m: int,
    k: int,
    x: u8,
)
    requires
        0 <= k <= xs.len(),
        k <= ys.len(),
        forall|i: int| 0 <= i < k ==> ys[i] == eval(c, #[trigger] xs[i]),
    ensures
        lagrange_sum(xs, ys, m, k, x) == eval_sum(xs, c, m, k, x),
    decreases k,
{
    if k > 0 {
        lemma_lagrange_sum_of_samples(xs, ys, c, m, k - 1, x);
    }
}

/// Interpolation through samples of a polynomial, at distinct x-values and
/// at least as many as it has coefficients, gives the polynomial's value at
/// every point.
pub proof fn lemma_interpolation_recovers(xs: Seq<u8>, ys: Seq<u8>, c: Seq<u8>, x: u8)
    requires
        xs.no_duplicates(),
        1 <= c.len() <= xs.len(),
        ys.len() >= xs.len(),
        forall|i: int| 0 <= i < xs.len() ==> ys[i] == eval(c, #[trigger] xs[i]),
    ensures
        interpolation(xs, ys, x) == eval(c, x),
{
    lemma_lagrange_sum_of_samples(xs, ys, c, xs.len() as int, xs.len() as int, x);
    lemma_eval_sum_is_eval(xs, c, xs.len() as int, x);
}

/// A polynomial's value at zero is its intercept.
pub proof fn lemma_eval_at_zero(c: Seq<u8>)
    requires
        c.len() >= 1,
    ensures
        eval(c, 0) == c[0],
{
    lemma_mul_zero(eval(c.drop_first(), 0));
    lemma_add_zero(c[0]);
}

} // verus!
