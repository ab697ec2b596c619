//! What holds between splitting, refreshing and combining.
use vstd::prelude::*;
use crate::lagrange::{lemma_eval_at_zero, lemma_interpolation_recovers};
use crate::ops::{gf_add, gf_mul, lemma_add_zero, lemma_mul_distributive};
use crate::polynomial::eval;
use crate::{
    column, combinable, combine_spec, combined, coordinates, drawn_from, is_refresh_of,
    is_sharing, shifted_by, well_shaped, Error,
};

verus! {

/// `chosen` holds only shares of `shares`, and none of them twice.
pub open spec fn chosen_from(chosen: Seq<Seq<u8>>, shares: Seq<Seq<u8>>) -> bool {
    &&& forall|a: int| 0 <= a < chosen.len() ==> shares.contains(#[trigger] chosen[a])
    &&& forall|a: int, b: int|
        0 <= a < chosen.len() && 0 <= b < chosen.len() && a != b ==> #[trigger] chosen[a]
            != #[trigger] chosen[b]
}

/// The polynomial whose coefficients are the sums of those of `c` and `d`.
pub open spec fn poly_sum(c: Seq<u8>, d: Seq<u8>) -> Seq<u8> {
    Seq::new(c.len(), |i: int| gf_add(c[i], d[i]))
}

/// The value of a sum of two polynomials is the sum of their values.
pub proof fn lemma_eval_additive(c: Seq<u8>, d: Seq<u8>, x: u8)
    requires
        c.len() == d.len(),
    ensures
        eval(poly_sum(c, d), x) == gf_add(eval(c, x), eval(d, x)),
    decreases c.len(),
{
    if c.len() == 0 {
        lemma_add_zero(0);
    } else {
        let c_rest = c.drop_first();
        let d_rest = d.drop_first();
        lemma_eval_additive(c_rest, d_rest, x);
        assert(poly_sum(c, d).drop_first() =~= poly_sum(c_rest, d_rest));
        lemma_mul_distributive(x, eval(c_rest, x), eval(d_rest, x));
        let u = gf_mul(eval(c_rest, x), x);
        let v = gf_mul(eval(d_rest, x), x);
        let c0 = c[0];
        let d0 = d[0];
        assert((u ^ v) ^ (c0 ^ d0) == (u ^ c0) ^ (v ^ d0)) by (bit_vector);
    }
}

/// Any selection of at least `threshold` different shares of a sharing of
/// `secret` combines to `secret`.
pub proof fn lemma_round_trip(
    secret: Seq<u8>,
    threshold: int,
    shares: Seq<Seq<u8>>,
    chosen: Seq<Seq<u8>>,
)
    requires
        secret.len() >= 1,
        threshold >= 2,
        is_sharing(shares, secret, threshold),
        chosen_from(chosen, shares),
        chosen.len() >= threshold,
    ensures
        combine_spec(chosen) == Ok::<Seq<u8>, Error>(secret),
{
    let n = secret.len() as int;
    let polys = choose|polys: Seq<Seq<u8>>| drawn_from(shares, secret, threshold, polys);
    let place = |a: int| choose|i: int| 0 <= i < shares.len() && shares[i] == chosen[a];
    assert forall|a: int| 0 <= a < chosen.len() implies 0 <= place(a) < shares.len()
        && shares[place(a)] == #[trigger] chosen[a] by {
        assert(shares.contains(chosen[a]));
    }
    assert(chosen[0].len() == n + 1);
    assert(combinable(chosen));
    let xs = coordinates(chosen);
    assert forall|a: int, b: int| 0 <= a < xs.len() && 0 <= b < xs.len() && a != b implies xs[a]
        != xs[b] by {
        assert(shares[place(a)] == chosen[a]);
        assert(shares[place(b)] == chosen[b]);
        assert(chosen[a] != chosen[b]);
        assert(place(a) != place(b));
    }
    assert forall|j: int| 0 <= j < n implies #[trigger] combined(chosen)[j] == secret[j] by {
        let ys = column(chosen, j);
        assert forall|a: int| 0 <= a < xs.len() implies ys[a] == eval(
            polys[j],
            #[trigger] xs[a],
        ) by {
            assert(shares[place(a)] == chosen[a]);
            assert(shares[place(a)][j] == eval(polys[j], shares[place(a)][n]));
        }
        lemma_interpolation_recovers(xs, ys, polys[j], 0);
        lemma_eval_at_zero(polys[j]);
    }
    assert(combined(chosen) =~= secret);
}

/// A refreshing of a sharing of `secret` is a sharing of `secret` with the
/// same threshold.
pub proof fn lemma_refresh_keeps_sharing(
    secret: Seq<u8>,
    threshold: int,
    before: Seq<Seq<u8>>,
    after: Seq<Seq<u8>>,
)
    requires
        threshold >= 1,
        before.len() >= 1,
        is_sharing(before, secret, threshold),
        is_refresh_of(after, before, threshold),
    ensures
        is_sharing(after, secret, threshold),
        coordinates(after) == coordinates(before),
{
    let n = secret.len() as int;
    assert(before[0].len() == n + 1);
    let drawn = choose|polys: Seq<Seq<u8>>| drawn_from(before, secret, threshold, polys);
    let moved = choose|polys: Seq<Seq<u8>>| shifted_by(after, before, threshold, polys);
    let sums = Seq::new(n as nat, |j: int| poly_sum(drawn[j], moved[j]));
    assert forall|i: int| 0 <= i < after.len() implies (#[trigger] after[i]).len() == n + 1
        && after[i][n] == before[i][n] && before[i].len() == n + 1 by {}
    assert(well_shaped(after, n));
    assert forall|j: int| 0 <= j < n implies (#[trigger] sums[j]).len() == threshold && sums[j][0]
        == secret[j] by {
        assert(drawn[j].len() == threshold && drawn[j][0] == secret[j]);
        assert(moved[j].len() == threshold && moved[j][0] == 0);
        lemma_add_zero(secret[j]);
    }
    assert forall|i: int, j: int| 0 <= i < after.len() && 0 <= j < n implies (#[trigger] after[i])[j]
        == eval(#[trigger] sums[j], after[i][n]) by {
        lemma_eval_additive(drawn[j], moved[j], before[i][n]);
        assert(before[i][j] == eval(drawn[j], before[i][n]));
        assert(after[i][j] == before[i][j] ^ eval(moved[j], before[i][n]));
    }
    assert(drawn_from(after, secret, threshold, sums));
    assert(coordinates(after) =~= coordinates(before));
}

/// Any selection of at least `threshold` different shares of a refreshing of
/// a sharing of `secret` combines to `secret`.
pub proof fn lemma_refresh_round_trip(
    secret: Seq<u8>,
    threshold: int,
    before: Seq<Seq<u8>>,
    after: Seq<Seq<u8>>,
    chosen: Seq<Seq<u8>>,
)
    requires
        secret.len() >= 1,
        threshold >= 2,
        before.len() >= 1,
        is_sharing(before, secret, threshold),
        is_refresh_of(after, before, threshold),
        chosen_from(chosen, after),
        chosen.len() >= threshold,
    ensures
        combine_spec(chosen) == Ok::<Seq<u8>, Error>(secret),
{
    lemma_refresh_keeps_sharing(secret, threshold, before, after);
    lemma_round_trip(secret, threshold, after, chosen);
}

} // verus!
