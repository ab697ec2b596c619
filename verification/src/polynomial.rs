//! Polynomials over GF(2^8): generation, Horner evaluation and Lagrange
//! interpolation.
use vstd::prelude::*;
use crate::ops::{gf_add, gf_div, gf_mul};
use rand::Rng;
use zeroize::Zeroize;

verus! {

/// The value at `x` of the polynomial whose coefficient of x^i is `c[i]`.
pub open spec fn eval(c: Seq<u8>, x: u8) -> u8
    decreases c.len(),
{
    if c.len() == 0 {
        0u8
    } else {
        gf_add(gf_mul(eval(c.drop_first(), x), x), c[0])
    }
}

/// The Lagrange basis value of sample `i` at `x`, over the first `m` samples:
/// the product over `j < m`, `j != i`, of `(x - xs[j]) / (xs[i] - xs[j])`.
pub open spec fn basis(xs: Seq<u8>, i: int, m: int, x: u8) -> u8
    decreases m,
{
    if m <= 0 {
        1u8
    } else if m - 1 == i {
        basis(xs, i, m - 1, x)
    } else {
        gf_mul(
            basis(xs, i, m - 1, x),
            gf_div(gf_add(x, xs[m - 1]), gf_add(xs[i], xs[m - 1])),
        )
    }
}

/// The sum over `i < k` of `ys[i]` times the basis value of sample `i` over
/// the first `m` samples.
pub open spec fn lagrange_sum(xs: Seq<u8>, ys: Seq<u8>, m: int, k: int, x: u8) -> u8
    decreases k,
{
    if k <= 0 {
        0u8
    } else {
        gf_add(lagrange_sum(xs, ys, m, k - 1, x), gf_mul(ys[k - 1], basis(xs, k - 1, m, x)))
    }
}

/// The value at `x` of the Lagrange interpolant through the samples
/// `(xs[i], ys[i])`.
pub open spec fn interpolation(xs: Seq<u8>, ys: Seq<u8>, x: u8) -> u8 {
    lagrange_sum(xs, ys, xs.len() as int, xs.len() as int, x)
}

/// A polynomial over GF(2^8); coefficient `i` belongs to x^i, and coefficient
/// 0 is the intercept.
pub struct Polynomial {
    coefficients: Vec<u8>,
}

impl View for Polynomial {
    type V = Seq<u8>;

    closed spec fn view(&self) -> Seq<u8> {
        self.coefficients@
    }
}

/// `rand::Rng::fill` on `rand::thread_rng()`, handed every byte of
/// `coefficients` but the first: the length and the first byte stay, the rest
/// is whatever the generator gave.
#[verifier::external_body]
fn fill_random_tail(coefficients: &mut Vec<u8>)
    requires
        old(coefficients)@.len() >= 1,
    ensures
        final(coefficients)@.len() == old(coefficients)@.len(),
        final(coefficients)@[0] == old(coefficients)@[0],
{
    rand::thread_rng().fill(&mut coefficients[1..]);
}

/// `zeroize::Zeroize::zeroize` on a `Vec<u8>`: it overwrites the bytes and the
/// spare capacity with zeros and then clears the vector, which is left empty.
#[verifier::external_body]
fn zeroize_bytes(coefficients: &mut Vec<u8>)
    ensures
        final(coefficients)@.len() == 0,
    opens_invariants none
    no_unwind
{
    coefficients.zeroize();
}

impl Polynomial {
    /// A polynomial has at least its intercept.
    pub open spec fn wf(&self) -> bool {
        self@.len() >= 1
    }

    /// The polynomial with the given coefficients, lowest power first, if
    /// there is at least one.
    pub fn new(coefficients: Vec<u8>) -> (made: Option<Polynomial>)
        ensures
            made.is_some() <==> coefficients@.len() >= 1,
            made.is_some() ==> made.unwrap()@ == coefficients@ && made.unwrap().wf(),
    {
        if coefficients.len() >= 1 {
            Some(Polynomial { coefficients })
        } else {
            None
        }
    }

    /// A polynomial of the given degree whose intercept is `intercept` and
    /// whose other coefficients are drawn at random.
    pub fn generate(intercept: u8, degree: u8) -> (polynomial: Polynomial)
        ensures
            polynomial.wf(),
            polynomial@.len() == degree + 1,
            polynomial@[0] == intercept,
    {
        let mut coefficients: Vec<u8> = vec![0u8; degree as usize + 1];
        coefficients.set(0, intercept);
        fill_random_tail(&mut coefficients);
        Polynomial { coefficients }
    }

    /// The number of coefficients.
    pub fn len(&self) -> (n: usize)
        ensures
            n == self@.len(),
    {
        self.coefficients.len()
    }

    /// The coefficient of x^0.
    pub fn intercept(&self) -> (c: u8)
        requires
            self.wf(),
        ensures
            c == self@[0],
    {
        self.coefficients[0]
    }

    /// Overwrites the coefficients with zeros and leaves the polynomial
    /// without any; it is no polynomial to evaluate after that.
    pub fn wipe(&mut self)
        ensures
            final(self)@.len() == 0,
        opens_invariants none
        no_unwind
    {
        zeroize_bytes(&mut self.coefficients);
    }

    /// The value of the polynomial at a non-zero `x`, by Horner's method.
    pub fn evaluate(&self, x: u8) -> (y: u8)
        requires
            self.wf(),
            x != 0,
        ensures
            y == eval(self@, x),
    {
        let n = self.coefficients.len();
        let mut result: u8 = self.coefficients[n - 1];
        let mut k: usize = n - 1;
        proof {
            let last = self@.subrange(k as int, n as int);
            assert(last.drop_first().len() == 0);
            assert(eval(last.drop_first(), x) == 0);
            assert(eval(last, x) == gf_add(gf_mul(eval(last.drop_first(), x), x), last[0]));
            crate::ops::lemma_mul_zero_left(x);
            crate::ops::lemma_add_zero(self@[k as int]);
        }
        while k > 0
            invariant
                k < n,
                n == self.coefficients@.len(),
                result == eval(self@.subrange(k as int, n as int), x),
            decreases k,
        {
            k = k - 1;
            proof {
                assert(self@.subrange(k as int, n as int).drop_first() =~= self@.subrange(
                    k as int + 1,
                    n as int,
                ));
            }
            result = crate::ops::add(crate::ops::mult(result, x), self.coefficients[k]);
        }
        proof {
            assert(self@.subrange(0, n as int) =~= self@);
        }
        result
    }

    /// The value at `x` of the Lagrange interpolant through the samples
    /// `(x_samples[i], y_samples[i])`, whose x-values differ from one another.
    pub fn interpolate(x_samples: &[u8], y_samples: &[u8], x: u8) -> (y: u8)
        requires
            x_samples@.no_duplicates(),
            y_samples@.len() >= x_samples@.len(),
        ensures
            y == interpolation(x_samples@, y_samples@, x),
    {
        let limit = x_samples.len();
        let mut result: u8 = 0;
        let mut i: usize = 0;
        while i < limit
            invariant
                i <= limit,
                limit == x_samples@.len(),
                y_samples@.len() >= limit,
                x_samples@.no_duplicates(),
                result == lagrange_sum(x_samples@, y_samples@, limit as int, i as int, x),
            decreases limit - i,
        {
            let mut term_basis: u8 = 1;
            let mut j: usize = 0;
            while j < limit
                invariant
                    j <= limit,
                    i < limit,
                    limit == x_samples@.len(),
                    x_samples@.no_duplicates(),
                    term_basis == basis(x_samples@, i as int, j as int, x),
                decreases limit - j,
            {
                if i != j {
                    let num = crate::ops::add(x, x_samples[j]);
                    let denom = crate::ops::add(x_samples[i], x_samples[j]);
                    proof {
                        lemma_difference_nonzero(x_samples@[i as int], x_samples@[j as int]);
                    }
                    let term = crate::ops::div(num, denom);
                    term_basis = crate::ops::mult(term_basis, term);
                }
                j = j + 1;
            }
            let group = crate::ops::mult(y_samples[i], term_basis);
            result = crate::ops::add(result, group);
            i = i + 1;
        }
        result
    }
}

impl Drop for Polynomial {
    /// The coefficients are wiped when the polynomial goes away.
    fn drop(&mut self)
        opens_invariants none
        no_unwind
    {
        self.wipe();
    }
}

/// Two different elements have a non-zero difference.
pub proof fn lemma_difference_nonzero(a: u8, b: u8)
    requires
        a != b,
    ensures
        gf_add(a, b) != 0,
{
    assert(a ^ b == 0 ==> a == b) by (bit_vector);
}

} // verus!
