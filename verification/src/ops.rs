//! Arithmetic in GF(2^8) with the reduction polynomial x^8 + x^4 + x^3 + x + 1.
use vstd::prelude::*;
use subtle::{Choice, ConditionallySelectable, ConstantTimeEq};

verus! {

/// The low byte of the reduction polynomial.
pub const IRREDUCIBLE_POLYNOMIAL: u8 = 0x1B;

/// One round of shift-and-add multiplication: the running product `p` is
/// doubled in the field, and `a` is added when bit `i` of `b` is set.
pub open spec fn mul_round(p: u8, a: u8, b: u8, i: u8) -> u8 {
    (p << 1u8) ^ (if (b >> i) & 1u8 == 1u8 { a } else { 0u8 })
        ^ (if (p >> 7u8) & 1u8 == 1u8 { 0x1Bu8 } else { 0u8 })
}

/// The running product after the `n` most significant bits of `b`.
pub open spec fn mul_prefix(a: u8, b: u8, n: nat) -> u8
    decreases n,
{
    if n == 0 || n > 8 {
        0u8
    } else {
        mul_round(mul_prefix(a, b, (n - 1) as nat), a, b, (8 - n) as u8)
    }
}

/// Eight rounds of shift-and-add, from bit 7 of `b` down to bit 0.
pub open spec fn mul_rounds(a: u8, b: u8) -> u8 {
    mul_round(
        mul_round(
            mul_round(
                mul_round(
                    mul_round(
                        mul_round(mul_round(mul_round(0u8, a, b, 7u8), a, b, 6u8), a, b, 5u8),
                        a,
                        b,
                        4u8,
                    ),
                    a,
                    b,
                    3u8,
                ),
                a,
                b,
                2u8,
            ),
            a,
            b,
            1u8,
        ),
        a,
        b,
        0u8,
    )
}

/// The product of `a` and `b` in GF(2^8): the product of the two bytes as
/// polynomials over GF(2), reduced by x^8 + x^4 + x^3 + x + 1.
#[verifier::opaque]
pub open spec fn gf_mul(a: u8, b: u8) -> u8 {
    mul_rounds(a, b)
}

/// The sum of `a` and `b` in GF(2^8).
pub open spec fn gf_add(a: u8, b: u8) -> u8 {
    a ^ b
}

/// `a` raised to the power 2^(n+1) - 1 by `n` rounds of "square, then multiply by `a`".
pub open spec fn pow_chain(a: u8, n: nat) -> u8
    decreases n,
{
    if n == 0 {
        a
    } else {
        gf_mul(gf_mul(pow_chain(a, (n - 1) as nat), pow_chain(a, (n - 1) as nat)), a)
    }
}

/// `a` raised to the power 254, which is the inverse of a non-zero `a`.
pub open spec fn gf_inv(a: u8) -> u8 {
    gf_mul(pow_chain(a, 6), pow_chain(a, 6))
}

/// The quotient of `a` by a non-zero `b` in GF(2^8).
pub open spec fn gf_div(a: u8, b: u8) -> u8 {
    gf_mul(a, gf_inv(b))
}

/// The product is what the eight rounds give.
pub proof fn lemma_mul_is_rounds(a: u8, b: u8)
    ensures
        gf_mul(a, b) == mul_rounds(a, b),
{
    reveal(gf_mul);
}

proof fn lemma_mul_prefix_full(a: u8, b: u8)
    ensures
        mul_prefix(a, b, 8) == gf_mul(a, b),
{
    reveal(gf_mul);
    reveal_with_fuel(mul_prefix, 9);
}

/// Field addition: the bitwise exclusive or of the operands.
pub fn add(a: u8, b: u8) -> (sum: u8)
    ensures
        sum == gf_add(a, b),
        sum == a ^ b,
{
    a ^ b
}

/// Field multiplication by eight rounds of shift-and-add, from the most
/// significant bit of `b` down, with no branch on the operands.
#[inline(never)]
pub fn mult(a: u8, b: u8) -> (product: u8)
    ensures
        product == gf_mul(a, b),
{
    let mut product: u8 = 0u8;
    let mut i: u8 = 8u8;
    while i > 0
        invariant
            i <= 8,
            product == mul_prefix(a, b, (8 - i) as nat),
        decreases i,
    {
        i = i - 1;
        let contribution: u8 = (b >> i) & 1;
        let reduction: u8 = (product >> 7) & 1;
        assert(contribution == 0 || contribution == 1) by (bit_vector)
            requires
                contribution == (b >> i) & 1,
        ;
        assert(reduction == 0 || reduction == 1) by (bit_vector)
            requires
                reduction == (product >> 7u8) & 1,
        ;
        let with_a: u8 = contribution * a;
        let with_poly: u8 = reduction * IRREDUCIBLE_POLYNOMIAL;
        let next: u8 = (product << 1) ^ with_a ^ with_poly;
        assert(next == mul_round(product, a, b, i)) by {
            assert(with_a == if (b >> i) & 1u8 == 1u8 { a } else { 0u8 });
            assert(with_poly == if (product >> 7u8) & 1u8 == 1u8 { 0x1Bu8 } else { 0u8 });
        }
        product = next;
    }
    proof {
        lemma_mul_prefix_full(a, b);
    }
    product
}

/// The inverse of a non-zero `a`: its power 254, reached by six rounds of
/// "square, then multiply by `a`" and one last squaring.
pub fn inverse(a: u8) -> (inv: u8)
    requires
        a != 0,
    ensures
        inv == gf_inv(a),
        gf_mul(a, inv) == 1,
{
    let mut b: u8 = a;
    let mut round: u8 = 0u8;
    while round < 6
        invariant
            round <= 6,
            b == pow_chain(a, round as nat),
        decreases 6 - round,
    {
        b = mult(b, b);
        b = mult(b, a);
        round = round + 1;
    }
    proof {
        lemma_mul_inverse(a);
    }
    mult(b, b)
}

/// `subtle::ConstantTimeEq::ct_ne` on two bytes, with the `Choice` it gives
/// taken out by `Choice::unwrap_u8`: 1 where the bytes differ, 0 where they
/// are equal.
#[verifier::external_body]
fn ct_ne(a: u8, b: u8) -> (choice: u8)
    ensures
        choice == (if a != b { 1u8 } else { 0u8 }),
{
    a.ct_ne(&b).unwrap_u8()
}

/// `subtle::ConditionallySelectable::conditional_select` on two bytes, with
/// the `Choice` made from `choice` by `Choice::from`: `b` where `choice` is 1,
/// `a` where it is 0.
#[verifier::external_body]
fn conditional_select(a: u8, b: u8, choice: u8) -> (selected: u8)
    requires
        choice == 0 || choice == 1,
    ensures
        selected == (if choice == 1 { b } else { a }),
{
    u8::conditional_select(&a, &b, Choice::from(choice))
}

/// The quotient of `a` by a non-zero `b`. The zero numerator is handled by a
/// constant-time selection, not by a branch.
pub fn div(a: u8, b: u8) -> (quotient: u8)
    requires
        b != 0,
    ensures
        quotient == gf_div(a, b),
        gf_mul(quotient, b) == a,
{
    let result = mult(a, inverse(b));
    let choice = ct_ne(a, 0);
    proof {
        lemma_mul_zero_left(gf_inv(b));
        lemma_div_cancel(a, b);
    }
    conditional_select(a, result, choice)
}

/// Addition is commutative.
pub proof fn lemma_add_commutative(a: u8, b: u8)
    ensures
        gf_add(a, b) == gf_add(b, a),
{
    assert(a ^ b == b ^ a) by (bit_vector);
}

/// Addition is associative.
pub proof fn lemma_add_associative(a: u8, b: u8, c: u8)
    ensures
        gf_add(gf_add(a, b), c) == gf_add(a, gf_add(b, c)),
{
    assert((a ^ b) ^ c == a ^ (b ^ c)) by (bit_vector);
}

/// Every element is its own negative.
pub proof fn lemma_add_self(a: u8)
    ensures
        gf_add(a, a) == 0,
{
    assert(a ^ a == 0) by (bit_vector);
}

/// Zero is the neutral element of addition.
pub proof fn lemma_add_zero(a: u8)
    ensures
        gf_add(a, 0) == a,
        gf_add(0, a) == a,
{
    assert(a ^ 0 == a) by (bit_vector);
    assert(0 ^ a == a) by (bit_vector);
}

/// One is the neutral element of multiplication.
pub proof fn lemma_mul_one(a: u8)
    ensures
        gf_mul(a, 1) == a,
{
    assert(gf_mul(a, 1) == a) by (bit_vector);
}

/// A product with zero on the right is zero.
pub proof fn lemma_mul_zero(a: u8)
    ensures
        gf_mul(a, 0) == 0,
{
    assert(gf_mul(a, 0) == 0) by (bit_vector);
}

/// A product with zero on the left is zero.
pub proof fn lemma_mul_zero_left(a: u8)
    ensures
        gf_mul(0, a) == 0,
{
    assert(gf_mul(0, a) == 0) by (bit_vector);
}

/// Multiplication is commutative.
pub proof fn lemma_mul_commutative(a: u8, b: u8)
    ensures
        gf_mul(a, b) == gf_mul(b, a),
{
    assert(gf_mul(a, b) == gf_mul(b, a)) by (bit_vector);
}

/// The product of `a` and `b` as polynomials over GF(2), before reduction:
/// the sum of the shifts of `a` by the set bits of `b`.
pub open spec fn carryless_product(a: u8, b: u8) -> u16 {
    (if b & 0x01u8 != 0 { a as u16 } else { 0u16 })
        ^ (if b & 0x02u8 != 0 { (a as u16) << 1u16 } else { 0u16 })
        ^ (if b & 0x04u8 != 0 { (a as u16) << 2u16 } else { 0u16 })
        ^ (if b & 0x08u8 != 0 { (a as u16) << 3u16 } else { 0u16 })
        ^ (if b & 0x10u8 != 0 { (a as u16) << 4u16 } else { 0u16 })
        ^ (if b & 0x20u8 != 0 { (a as u16) << 5u16 } else { 0u16 })
        ^ (if b & 0x40u8 != 0 { (a as u16) << 6u16 } else { 0u16 })
        ^ (if b & 0x80u8 != 0 { (a as u16) << 7u16 } else { 0u16 })
}

/// One step of the division by the reduction polynomial: where the term
/// `bit` is present in `t`, the multiple `poly` of x^8 + x^4 + x^3 + x + 1
/// that starts with that term is taken away.
pub open spec fn cancel_term(t: u16, bit: u16, poly: u16) -> u16 {
    if t & bit != 0 {
        t ^ poly
    } else {
        t
    }
}

/// The terms of degree 14 down to 8 taken away, one after the other.
pub open spec fn cancel_high_terms(t: u16) -> u16 {
    cancel_term(
        cancel_term(
            cancel_term(
                cancel_term(
                    cancel_term(
                        cancel_term(cancel_term(t, 0x4000u16, 0x46C0u16), 0x2000u16, 0x2360u16),
                        0x1000u16,
                        0x11B0u16,
                    ),
                    0x0800u16,
                    0x08D8u16,
                ),
                0x0400u16,
                0x046Cu16,
            ),
            0x0200u16,
            0x0236u16,
        ),
        0x0100u16,
        0x011Bu16,
    )
}

/// The remainder of a polynomial of degree at most 14 on division by
/// x^8 + x^4 + x^3 + x + 1.
pub open spec fn remainder(t: u16) -> u8 {
    cancel_high_terms(t) as u8
}

/// The bits of `b` below bit `k`.
pub open spec fn low_bits(b: u8, k: u8) -> u8 {
    ((b as u16) & !(0xFFFFu16 << (k as u16))) as u8
}

proof fn lemma_cancel_term_additive(t: u16, u: u16, bit: u16, poly: u16)
    requires
        bit == 0x4000 || bit == 0x2000 || bit == 0x1000 || bit == 0x0800 || bit == 0x0400 || bit
            == 0x0200 || bit == 0x0100,
    ensures
        cancel_term(t ^ u, bit, poly) == cancel_term(t, bit, poly) ^ cancel_term(u, bit, poly),
{
    assert(cancel_term(t ^ u, bit, poly) == cancel_term(t, bit, poly) ^ cancel_term(u, bit, poly))
        by (bit_vector)
        requires
            bit == 0x4000 || bit == 0x2000 || bit == 0x1000 || bit == 0x0800 || bit == 0x0400
                || bit == 0x0200 || bit == 0x0100,
    ;
}

proof fn lemma_remainder_additive(t: u16, u: u16)
    ensures
        remainder(t ^ u) == remainder(t) ^ remainder(u),
{
    let t14 = cancel_term(t, 0x4000u16, 0x46C0u16);
    let u14 = cancel_term(u, 0x4000u16, 0x46C0u16);
    lemma_cancel_term_additive(t, u, 0x4000u16, 0x46C0u16);
    let t13 = cancel_term(t14, 0x2000u16, 0x2360u16);
    let u13 = cancel_term(u14, 0x2000u16, 0x2360u16);
    lemma_cancel_term_additive(t14, u14, 0x2000u16, 0x2360u16);
    let t12 = cancel_term(t13, 0x1000u16, 0x11B0u16);
    let u12 = cancel_term(u13, 0x1000u16, 0x11B0u16);
    lemma_cancel_term_additive(t13, u13, 0x1000u16, 0x11B0u16);
    let t11 = cancel_term(t12, 0x0800u16, 0x08D8u16);
    let u11 = cancel_term(u12, 0x0800u16, 0x08D8u16);
    lemma_cancel_term_additive(t12, u12, 0x0800u16, 0x08D8u16);
    let t10 = cancel_term(t11, 0x0400u16, 0x046Cu16);
    let u10 = cancel_term(u11, 0x0400u16, 0x046Cu16);
    lemma_cancel_term_additive(t11, u11, 0x0400u16, 0x046Cu16);
    let t9 = cancel_term(t10, 0x0200u16, 0x0236u16);
    let u9 = cancel_term(u10, 0x0200u16, 0x0236u16);
    lemma_cancel_term_additive(t10, u10, 0x0200u16, 0x0236u16);
    let t8 = cancel_term(t9, 0x0100u16, 0x011Bu16);
    let u_low = cancel_term(u9, 0x0100u16, 0x011Bu16);
    lemma_cancel_term_additive(t9, u9, 0x0100u16, 0x011Bu16);
    assert(cancel_high_terms(t ^ u) == t8 ^ u_low);
    assert((t8 ^ u_low) as u8 == (t8 as u8) ^ (u_low as u8)) by (bit_vector);
}

proof fn lemma_mul_one_bit(a: u8, k: u8)
    requires
        k < 8,
    ensures
        gf_mul(a, 1u8 << k) == remainder(carryless_product(a, 1u8 << k)),
{
    let t = (a as u16) << (k as u16);
    let t14 = cancel_term(t, 0x4000u16, 0x46C0u16);
    let t13 = cancel_term(t14, 0x2000u16, 0x2360u16);
    let t12 = cancel_term(t13, 0x1000u16, 0x11B0u16);
    let t11 = cancel_term(t12, 0x0800u16, 0x08D8u16);
    let t10 = cancel_term(t11, 0x0400u16, 0x046Cu16);
    let t9 = cancel_term(t10, 0x0200u16, 0x0236u16);
    let t8 = cancel_term(t9, 0x0100u16, 0x011Bu16);
    assert(carryless_product(a, 1u8 << k) == t) by (bit_vector)
        requires
            k < 8,
            t == (a as u16) << (k as u16),
    ;
    assert(gf_mul(a, 1u8 << k) == t8 as u8) by (bit_vector)
        requires
            k < 8,
            t == (a as u16) << (k as u16),
            t14 == cancel_term(t, 0x4000u16, 0x46C0u16),
            t13 == cancel_term(t14, 0x2000u16, 0x2360u16),
            t12 == cancel_term(t13, 0x1000u16, 0x11B0u16),
            t11 == cancel_term(t12, 0x0800u16, 0x08D8u16),
            t10 == cancel_term(t11, 0x0400u16, 0x046Cu16),
            t9 == cancel_term(t10, 0x0200u16, 0x0236u16),
            t8 == cancel_term(t9, 0x0100u16, 0x011Bu16),
    ;
}

proof fn lemma_mul_low_bits(a: u8, b: u8, k: u8)
    requires
        k <= 8,
    ensures
        gf_mul(a, low_bits(b, k)) == remainder(carryless_product(a, low_bits(b, k))),
    decreases k,
{
    if k == 0 {
        assert(low_bits(b, 0) == 0) by (bit_vector);
        lemma_mul_zero(a);
        assert(remainder(carryless_product(a, 0)) == 0) by (bit_vector);
    } else {
        let j = (k - 1) as u8;
        lemma_mul_low_bits(a, b, j);
        let lo = low_bits(b, j);
        let s = b & (1u8 << j);
        assert(low_bits(b, k) == lo ^ s && (s == 0 || s == 1u8 << j)) by (bit_vector)
            requires
                j < 8,
                k == j + 1,
                lo == low_bits(b, j),
                s == b & (1u8 << j),
        ;
        assert(carryless_product(a, lo ^ s) == carryless_product(a, lo) ^ carryless_product(a, s))
            by (bit_vector);
        lemma_mul_distributive(a, lo, s);
        if s == 0 {
            lemma_mul_zero(a);
            assert(remainder(carryless_product(a, 0)) == 0) by (bit_vector);
        } else {
            lemma_mul_one_bit(a, j);
        }
        lemma_remainder_additive(carryless_product(a, lo), carryless_product(a, s));
    }
}

/// The product in the field is the product of the polynomials, reduced.
pub proof fn lemma_mul_is_remainder(a: u8, b: u8)
    ensures
        gf_mul(a, b) == remainder(carryless_product(a, b)),
{
    lemma_mul_low_bits(a, b, 8);
    assert(low_bits(b, 8) == b) by (bit_vector);
}

/// Doubling in the field: multiplication by the element x.
pub open spec fn double(p: u8) -> u8 {
    (p << 1u8) ^ (if (p >> 7u8) & 1u8 == 1u8 { 0x1Bu8 } else { 0u8 })
}

/// Multiplication by the element x is doubling.
pub proof fn lemma_mul_two(a: u8)
    ensures
        gf_mul(a, 2) == double(a),
        gf_mul(2, a) == double(a),
{
    assert(gf_mul(a, 2) == double(a) && gf_mul(2, a) == double(a)) by (bit_vector);
}

proof fn lemma_mul_prefix_associative(a: u8, b: u8, c: u8, n: nat)
    requires
        n <= 8,
    ensures
        mul_prefix(gf_mul(a, b), c, n) == gf_mul(a, mul_prefix(b, c, n)),
    decreases n,
{
    if n == 0 {
        lemma_mul_zero(a);
    } else {
        lemma_mul_prefix_associative(a, b, c, (n - 1) as nat);
        let i = (8 - n) as u8;
        let ab = gf_mul(a, b);
        let q = mul_prefix(b, c, (n - 1) as nat);
        let p = mul_prefix(ab, c, (n - 1) as nat);
        let pick_b = if (c >> i) & 1u8 == 1u8 { b } else { 0u8 };
        let pick_ab = if (c >> i) & 1u8 == 1u8 { ab } else { 0u8 };
        assert(mul_round(q, b, c, i) == double(q) ^ pick_b) by (bit_vector)
            requires
                pick_b == (if (c >> i) & 1u8 == 1u8 { b } else { 0u8 }),
        ;
        assert(mul_round(p, ab, c, i) == double(p) ^ pick_ab) by (bit_vector)
            requires
                pick_ab == (if (c >> i) & 1u8 == 1u8 { ab } else { 0u8 }),
        ;
        assert(gf_mul(a, double(q)) == double(gf_mul(a, q))) by (bit_vector);
        lemma_mul_distributive(a, double(q), pick_b);
        lemma_mul_zero(a);
        assert(gf_mul(a, pick_b) == pick_ab);
    }
}

/// Multiplication is associative.
pub proof fn lemma_mul_associative(a: u8, b: u8, c: u8)
    ensures
        gf_mul(gf_mul(a, b), c) == gf_mul(a, gf_mul(b, c)),
{
    lemma_mul_prefix_associative(a, b, c, 8);
    lemma_mul_prefix_full(gf_mul(a, b), c);
    lemma_mul_prefix_full(b, c);
}

/// Multiplication distributes over addition.
pub proof fn lemma_mul_distributive(a: u8, b: u8, c: u8)
    ensures
        gf_mul(a, gf_add(b, c)) == gf_add(gf_mul(a, b), gf_mul(a, c)),
        gf_mul(gf_add(b, c), a) == gf_add(gf_mul(b, a), gf_mul(c, a)),
{
    assert(gf_mul(a, b ^ c) == gf_mul(a, b) ^ gf_mul(a, c)) by (bit_vector);
    assert(gf_mul(b ^ c, a) == gf_mul(b, a) ^ gf_mul(c, a)) by (bit_vector);
}

/// A non-zero element times its inverse is one.
#[verifier::rlimit(100)]
pub proof fn lemma_mul_inverse(a: u8)
    requires
        a != 0,
    ensures
        gf_mul(a, gf_inv(a)) == 1,
        gf_mul(gf_inv(a), a) == 1,
        gf_inv(a) != 0,
{
    reveal_with_fuel(pow_chain, 7);
    let s1 = gf_mul(a, a);
    let c1 = gf_mul(s1, a);
    let s2 = gf_mul(c1, c1);
    let c2 = gf_mul(s2, a);
    let s3 = gf_mul(c2, c2);
    let c3 = gf_mul(s3, a);
    let s4 = gf_mul(c3, c3);
    let c4 = gf_mul(s4, a);
    let s5 = gf_mul(c4, c4);
    let c5 = gf_mul(s5, a);
    let s6 = gf_mul(c5, c5);
    let c6 = gf_mul(s6, a);
    let inv = gf_mul(c6, c6);
    assert(c1 == pow_chain(a, 1));
    assert(c2 == pow_chain(a, 2));
    assert(c3 == pow_chain(a, 3));
    assert(c4 == pow_chain(a, 4));
    assert(c5 == pow_chain(a, 5));
    assert(c6 == pow_chain(a, 6));
    assert(inv == gf_inv(a));
    assert(gf_mul(a, inv) == 1 && gf_mul(inv, a) == 1 && inv != 0) by (bit_vector)
        requires
            a != 0,
            s1 == gf_mul(a, a),
            c1 == gf_mul(s1, a),
            s2 == gf_mul(c1, c1),
            c2 == gf_mul(s2, a),
            s3 == gf_mul(c2, c2),
            c3 == gf_mul(s3, a),
            s4 == gf_mul(c3, c3),
            c4 == gf_mul(s4, a),
            s5 == gf_mul(c4, c4),
            c5 == gf_mul(s5, a),
            s6 == gf_mul(c5, c5),
            c6 == gf_mul(s6, a),
            inv == gf_mul(c6, c6),
    ;
}

/// Division is multiplication by the inverse of the divisor.
pub proof fn lemma_div_is_mul_inverse(a: u8, b: u8)
    requires
        b != 0,
    ensures
        gf_div(a, b) == gf_mul(a, gf_inv(b)),
{
}

/// Zero divided by a non-zero element is zero.
pub proof fn lemma_div_zero_numerator(b: u8)
    requires
        b != 0,
    ensures
        gf_div(0, b) == 0,
{
    lemma_mul_zero_left(gf_inv(b));
}

/// Division by `b` undoes multiplication by `b`.
pub proof fn lemma_div_cancel(a: u8, b: u8)
    requires
        b != 0,
    ensures
        gf_mul(gf_div(a, b), b) == a,
{
    lemma_mul_associative(a, gf_inv(b), b);
    lemma_mul_inverse(b);
    lemma_mul_one(a);
}

} // verus!
