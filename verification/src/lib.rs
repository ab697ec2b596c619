//! Threshold secret sharing over GF(2^8): a secret is split into shares, any
//! `threshold` of which give it back.
//!
//! A share is the secret's length in y-bytes followed by one x-coordinate.
use vstd::prelude::*;
use std::collections::HashSet;
use rand::seq::SliceRandom;
use crate::polynomial::{eval, interpolation, Polynomial};

pub mod ops;
pub mod polynomial;
pub mod lagrange;
pub mod laws;

verus! {

broadcast use vstd::std_specs::hash::group_hash_axioms;

/// Why an operation gave no output.
#[derive(Debug, Clone, Copy, PartialEq, Eq)]
pub enum Error {
    /// The threshold or the number of shares is out of range, or the secret
    /// is empty.
    InvalidParameters,
    /// Too few shares, shares of different lengths, or shares too short.
    InvalidShareSet,
    /// Two shares carry the same x-coordinate.
    DuplicateCoordinate,
}

/// The shares as sequences of bytes.
pub open spec fn rows(shares: Seq<Vec<u8>>) -> Seq<Seq<u8>> {
    Seq::new(shares.len(), |i: int| shares[i]@)
}

/// The x-coordinate of each share: its last byte.
pub open spec fn coordinates(shares: Seq<Seq<u8>>) -> Seq<u8> {
    Seq::new(shares.len(), |i: int| shares[i][shares[i].len() - 1])
}

/// Byte `j` of each share.
pub open spec fn column(shares: Seq<Seq<u8>>, j: int) -> Seq<u8> {
    Seq::new(shares.len(), |i: int| shares[i][j])
}

/// Every share is as long as the first.
pub open spec fn same_lengths(shares: Seq<Seq<u8>>) -> bool {
    forall|i: int| 0 <= i < shares.len() ==> (#[trigger] shares[i]).len() == shares[0].len()
}

/// At least two shares, of one length, with at least one y-byte each.
pub open spec fn combinable(shares: Seq<Seq<u8>>) -> bool {
    shares.len() >= 2 && shares[0].len() >= 2 && same_lengths(shares)
}

/// The interpolant at zero, byte by byte.
pub open spec fn combined(shares: Seq<Seq<u8>>) -> Seq<u8> {
    Seq::new(
        (shares[0].len() - 1) as nat,
        |j: int| interpolation(coordinates(shares), column(shares, j), 0),
    )
}

/// What `combine` gives for each share set.
pub open spec fn combine_spec(shares: Seq<Seq<u8>>) -> Result<Seq<u8>, Error> {
    if !combinable(shares) {
        Err(Error::InvalidShareSet)
    } else if !coordinates(shares).no_duplicates() {
        Err(Error::DuplicateCoordinate)
    } else {
        Ok(combined(shares))
    }
}

/// The threshold is in 2..=255 and the number of shares in threshold..=255.
pub open spec fn counts_ok(parts: int, threshold: int) -> bool {
    2 <= threshold <= 255 && threshold <= parts <= 255
}

/// Every share has `secret_len` y-bytes and a non-zero x-coordinate, and no
/// two shares have the same x-coordinate.
pub open spec fn well_shaped(shares: Seq<Seq<u8>>, secret_len: int) -> bool {
    &&& forall|i: int| 0 <= i < shares.len() ==> (#[trigger] shares[i]).len() == secret_len + 1
    &&& forall|i: int| 0 <= i < shares.len() ==> (#[trigger] shares[i])[secret_len] != 0
    &&& forall|i: int, k: int|
        0 <= i < shares.len() && 0 <= k < shares.len() && i != k ==> (#[trigger] shares[i])[secret_len]
            != (#[trigger] shares[k])[secret_len]
}

/// Byte `j` of every share is the value of `polys[j]` at the share's
/// x-coordinate; `polys[j]` has `threshold` coefficients and the intercept
/// `secret[j]`.
pub open spec fn drawn_from(
    shares: Seq<Seq<u8>>,
    secret: Seq<u8>,
    threshold: int,
    polys: Seq<Seq<u8>>,
) -> bool {
    &&& polys.len() == secret.len()
    &&& forall|j: int|
        0 <= j < secret.len() ==> (#[trigger] polys[j]).len() == threshold && polys[j][0]
            == secret[j]
    &&& forall|i: int, j: int|
        0 <= i < shares.len() && 0 <= j < secret.len() ==> (#[trigger] shares[i])[j] == eval(
            #[trigger] polys[j],
            shares[i][secret.len() as int],
        )
}

/// The shares are a sharing of `secret` with the given threshold: well
/// shaped, and every byte position lies on one polynomial of degree
/// `threshold - 1` whose intercept is the secret's byte.
pub open spec fn is_sharing(shares: Seq<Seq<u8>>, secret: Seq<u8>, threshold: int) -> bool {
    &&& well_shaped(shares, secret.len() as int)
    &&& exists|polys: Seq<Seq<u8>>| drawn_from(shares, secret, threshold, polys)
}

/// Every share of `after` is the share of `before` at the same place with
/// the value of `polys[j]` at its x-coordinate added to byte `j`; `polys[j]`
/// has `threshold` coefficients and the intercept zero.
pub open spec fn shifted_by(
    after: Seq<Seq<u8>>,
    before: Seq<Seq<u8>>,
    threshold: int,
    polys: Seq<Seq<u8>>,
) -> bool {
    let n = before[0].len() - 1;
    &&& polys.len() == n
    &&& forall|j: int| 0 <= j < n ==> (#[trigger] polys[j]).len() == threshold && polys[j][0] == 0
    &&& forall|i: int, j: int|
        0 <= i < before.len() && 0 <= j < n ==> (#[trigger] after[i])[j] == before[i][j] ^ eval(
            #[trigger] polys[j],
            before[i][n],
        )
}

/// `after` is a refreshing of `before`: the same number of shares, of the
/// same length and with the same x-coordinates, and every byte position moved
/// by one polynomial of degree `threshold - 1` that is zero at zero.
pub open spec fn is_refresh_of(after: Seq<Seq<u8>>, before: Seq<Seq<u8>>, threshold: int) -> bool {
    let n = before[0].len() - 1;
    &&& after.len() == before.len()
    &&& forall|i: int|
        0 <= i < before.len() ==> (#[trigger] after[i]).len() == n + 1 && after[i][n]
            == before[i][n]
    &&& exists|polys: Seq<Seq<u8>>| shifted_by(after, before, threshold, polys)
}

/// One length for all shares, which holds at least the x-coordinate.
pub open spec fn refreshable(shares: Seq<Seq<u8>>) -> bool {
    same_lengths(shares) && shares[0].len() >= 1
}

/// The error `refresh` gives, if any.
pub open spec fn refresh_error(shares: Seq<Seq<u8>>, threshold: int) -> Option<Error> {
    if !counts_ok(shares.len() as int, threshold) {
        Some(Error::InvalidParameters)
    } else if !refreshable(shares) {
        Some(Error::InvalidShareSet)
    } else {
        None
    }
}

/// Byte `position` is a y-byte of every share, and no share has the
/// x-coordinate zero.
pub open spec fn holds_position(shares: Seq<Seq<u8>>, position: int) -> bool {
    forall|i: int|
        0 <= i < shares.len() ==> 0 <= position < (#[trigger] shares[i]).len() - 1
            && shares[i][shares[i].len() - 1] != 0
}

/// The shares with byte `position` of each replaced by the value of the
/// polynomial `c` at the share's x-coordinate.
pub open spec fn with_values(shares: Seq<Seq<u8>>, c: Seq<u8>, position: int) -> Seq<Seq<u8>> {
    Seq::new(
        shares.len(),
        |i: int| shares[i].update(position, eval(c, shares[i][shares[i].len() - 1])),
    )
}

/// The shares with the value of the polynomial `c` at each share's
/// x-coordinate added to its byte `position`.
pub open spec fn with_values_added(shares: Seq<Seq<u8>>, c: Seq<u8>, position: int) -> Seq<
    Seq<u8>,
> {
    Seq::new(
        shares.len(),
        |i: int|
            shares[i].update(
                position,
                shares[i][position] ^ eval(c, shares[i][shares[i].len() - 1]),
            ),
    )
}

/// Evaluates `polynomial` at the x-coordinate of every share and places the
/// value at byte `position` of that share.
pub fn write_values(shares: &mut Vec<Vec<u8>>, polynomial: &Polynomial, position: usize)
    requires
        polynomial.wf(),
        holds_position(rows(old(shares)@), position as int),
    ensures
        final(shares)@.len() == old(shares)@.len(),
        rows(final(shares)@) == with_values(rows(old(shares)@), polynomial@, position as int),
{
    let ghost before = rows(shares@);
    let count = shares.len();
    let mut idx: usize = 0;
    while idx < count
        invariant
            idx <= count == shares@.len() == before.len(),
            polynomial.wf(),
            holds_position(before, position as int),
            forall|i: int|
                0 <= i < idx ==> (#[trigger] shares@[i])@ == with_values(
                    before,
                    polynomial@,
                    position as int,
                )[i],
            forall|i: int| idx <= i < count ==> (#[trigger] shares@[i])@ == before[i],
        decreases count - idx,
    {
        assert(shares@[idx as int]@ == before[idx as int]);
        let x = shares[idx][shares[idx].len() - 1];
        let y = polynomial.evaluate(x);
        shares[idx][position] = y;
        idx = idx + 1;
    }
    assert(rows(shares@) =~= with_values(before, polynomial@, position as int));
}

/// Evaluates `polynomial` at the x-coordinate of every share and adds the
/// value to byte `position` of that share.
pub fn add_values(shares: &mut Vec<Vec<u8>>, polynomial: &Polynomial, position: usize)
    requires
        polynomial.wf(),
        holds_position(rows(old(shares)@), position as int),
    ensures
        final(shares)@.len() == old(shares)@.len(),
        rows(final(shares)@) == with_values_added(
            rows(old(shares)@),
            polynomial@,
            position as int,
        ),
{
    let ghost before = rows(shares@);
    let count = shares.len();
    let mut idx: usize = 0;
    while idx < count
        invariant
            idx <= count == shares@.len() == before.len(),
            polynomial.wf(),
            holds_position(before, position as int),
            forall|i: int|
                0 <= i < idx ==> (#[trigger] shares@[i])@ == with_values_added(
                    before,
                    polynomial@,
                    position as int,
                )[i],
            forall|i: int| idx <= i < count ==> (#[trigger] shares@[i])@ == before[i],
        decreases count - idx,
    {
        assert(shares@[idx as int]@ == before[idx as int]);
        let x = shares[idx][shares[idx].len() - 1];
        let value = polynomial.evaluate(x);
        let updated = crate::ops::add(shares[idx][position], value);
        shares[idx][position] = updated;
        idx = idx + 1;
    }
    assert(rows(shares@) =~= with_values_added(before, polynomial@, position as int));
}

/// `rand::seq::SliceRandom::shuffle` on the bytes of `xs`, with
/// `rand::thread_rng()`: it swaps elements, so the bytes are the same ones in
/// some order.
#[verifier::external_body]
fn shuffle(xs: &mut Vec<u8>)
    ensures
        final(xs)@.to_multiset() == old(xs)@.to_multiset(),
{
    xs.as_mut_slice().shuffle(&mut rand::thread_rng());
}

/// The 255 non-zero field elements in a random order.
fn shuffled_coordinates() -> (xs: Vec<u8>)
    ensures
        xs@.len() == 255,
        xs@.no_duplicates(),
        forall|i: int| 0 <= i < 255 ==> xs@[i] != 0,
{
    let mut xs: Vec<u8> = Vec::new();
    let mut value: u8 = 0;
    while value < 255
        invariant
            xs@.len() == value,
            forall|i: int| 0 <= i < value ==> xs@[i] == i + 1,
        decreases 255 - value,
    {
        value = value + 1;
        xs.push(value);
    }
    let ghost before = xs@;
    shuffle(&mut xs);
    proof {
        before.lemma_multiset_has_no_duplicates();
        xs@.lemma_multiset_has_no_duplicates_conv();
        before.to_multiset_ensures();
        xs@.to_multiset_ensures();
        assert forall|i: int| 0 <= i < 255 implies xs@[i] != 0 by {
            assert(xs@.contains(xs@[i]));
            assert(xs@.to_multiset().count(xs@[i]) > 0);
            assert(before.to_multiset().count(xs@[i]) > 0);
            assert(before.contains(xs@[i]));
        }
    }
    xs
}

/// Splits `secret` into `parts` shares, any `threshold` of which give it
/// back.
pub fn split(secret: &[u8], parts: usize, threshold: usize) -> (result: Result<
    Vec<Vec<u8>>,
    Error,
>)
    ensures
        match result {
            Ok(shares) => {
                &&& secret@.len() >= 1
                &&& counts_ok(parts as int, threshold as int)
                &&& shares@.len() == parts
                &&& is_sharing(rows(shares@), secret@, threshold as int)
            },
            Err(e) => {
                &&& e == Error::InvalidParameters
                &&& !(secret@.len() >= 1 && counts_ok(parts as int, threshold as int))
            },
        },
{
    if parts < threshold || parts > 255 || threshold < 2 || threshold > 255 || secret.len() == 0 {
        return Err(Error::InvalidParameters);
    }
    let x_coordinates = shuffled_coordinates();
    let share_size = secret.len();
    let mut shares: Vec<Vec<u8>> = Vec::new();
    let mut idx: usize = 0;
    while idx < parts
        invariant
            idx <= parts <= 255,
            x_coordinates@.len() == 255,
            shares@.len() == idx,
            forall|i: int|
                0 <= i < idx ==> (#[trigger] shares@[i])@.len() == share_size + 1
                    && shares@[i]@[share_size as int] == x_coordinates@[i],
        decreases parts - idx,
    {
        let mut share: Vec<u8> = vec![0u8; share_size];
        share.push(x_coordinates[idx]);
        shares.push(share);
        idx = idx + 1;
    }
    let degree: u8 = (threshold - 1) as u8;
    let ghost mut polys: Seq<Seq<u8>> = Seq::empty();
    let mut s_idx: usize = 0;
    while s_idx < share_size
        invariant
            s_idx <= share_size == secret@.len(),
            2 <= threshold <= parts <= 255,
            degree == threshold - 1,
            x_coordinates@.len() == 255,
            forall|i: int| 0 <= i < 255 ==> x_coordinates@[i] != 0,
            shares@.len() == parts,
            forall|i: int|
                0 <= i < parts ==> (#[trigger] rows(shares@)[i]).len() == share_size + 1
                    && rows(shares@)[i][share_size as int] == x_coordinates@[i],
            polys.len() == s_idx,
            forall|j: int|
                0 <= j < s_idx ==> (#[trigger] polys[j]).len() == threshold && polys[j][0]
                    == secret@[j],
            forall|i: int, j: int|
                0 <= i < parts && 0 <= j < s_idx ==> (#[trigger] rows(shares@)[i])[j] == eval(
                    #[trigger] polys[j],
                    x_coordinates@[i],
                ),
        decreases share_size - s_idx,
    {
        let polynomial = Polynomial::generate(secret[s_idx], degree);
        write_values(&mut shares, &polynomial, s_idx);
        proof {
            polys = polys.push(polynomial@);
        }
        s_idx = s_idx + 1;
    }
    proof {
        let made = rows(shares@);
        assert(well_shaped(made, secret@.len() as int));
        assert(drawn_from(made, secret@, threshold as int, polys));
    }
    Ok(shares)
}

/// Reconstructs the secret from shares by interpolation at zero.
pub fn combine(shares: &[Vec<u8>]) -> (result: Result<Vec<u8>, Error>)
    ensures
        match result {
            Ok(secret) => combine_spec(rows(shares@)) == Ok::<Seq<u8>, Error>(secret@),
            Err(e) => combine_spec(rows(shares@)) == Err::<Seq<u8>, Error>(e),
        },
{
    let ghost all = rows(shares@);
    if shares.len() < 2 || shares[0].len() < 2 {
        return Err(Error::InvalidShareSet);
    }
    let count = shares.len();
    let first_part_len = shares[0].len();
    let mut idx: usize = 1;
    while idx < count
        invariant
            1 <= idx <= count == shares@.len(),
            all == rows(shares@),
            first_part_len == shares@[0]@.len(),
            forall|i: int| 0 <= i < idx ==> (#[trigger] all[i]).len() == first_part_len,
        decreases count - idx,
    {
        if shares[idx].len() != first_part_len {
            proof {
                assert(all[idx as int].len() != all[0].len());
            }
            return Err(Error::InvalidShareSet);
        }
        idx = idx + 1;
    }
    assert(combinable(all));
    let mut secret: Vec<u8> = vec![0u8; first_part_len - 1];
    let mut x_samples: Vec<u8> = vec![0u8; count];
    let mut y_samples: Vec<u8> = vec![0u8; count];
    let mut check_set: HashSet<u8> = HashSet::new();
    let mut idx: usize = 0;
    while idx < count
        invariant
            idx <= count == shares@.len(),
            all == rows(shares@),
            combinable(all),
            first_part_len == all[0].len(),
            x_samples@.len() == count,
            forall|i: int| 0 <= i < idx ==> x_samples@[i] == coordinates(all)[i],
            forall|v: u8|
                check_set@.contains(v) <==> exists|i: int|
                    0 <= i < idx && #[trigger] coordinates(all)[i] == v,
            forall|i: int, k: int|
                0 <= i < idx && 0 <= k < idx && i != k ==> coordinates(all)[i] != coordinates(
                    all,
                )[k],
        decreases count - idx,
    {
        assert(all[idx as int].len() == all[0].len());
        let sample = shares[idx][first_part_len - 1];
        assert(sample == coordinates(all)[idx as int]);
        if check_set.contains(&sample) {
            proof {
                let i = choose|i: int| 0 <= i < idx && #[trigger] coordinates(all)[i] == sample;
                assert(coordinates(all)[i] == coordinates(all)[idx as int]);
            }
            return Err(Error::DuplicateCoordinate);
        }
        check_set.insert(sample);
        x_samples.set(idx, sample);
        idx = idx + 1;
    }
    assert(x_samples@ =~= coordinates(all));
    assert(coordinates(all).no_duplicates());
    let mut idx: usize = 0;
    while idx < first_part_len - 1
        invariant
            idx <= first_part_len - 1,
            count == shares@.len(),
            all == rows(shares@),
            combinable(all),
            first_part_len == all[0].len(),
            x_samples@ == coordinates(all),
            x_samples@.no_duplicates(),
            y_samples@.len() == count,
            secret@.len() == first_part_len - 1,
            forall|j: int|
                0 <= j < idx ==> secret@[j] == interpolation(
                    coordinates(all),
                    #[trigger] column(all, j),
                    0,
                ),
        decreases first_part_len - 1 - idx,
    {
        let mut i: usize = 0;
        while i < count
            invariant
                i <= count == shares@.len(),
                idx < first_part_len - 1,
                all == rows(shares@),
                combinable(all),
                first_part_len == all[0].len(),
                y_samples@.len() == count,
                forall|k: int| 0 <= k < i ==> y_samples@[k] == column(all, idx as int)[k],
            decreases count - i,
        {
            assert(all[i as int].len() == first_part_len);
            y_samples.set(i, shares[i][idx]);
            i = i + 1;
        }
        assert(y_samples@ =~= column(all, idx as int));
        let val = Polynomial::interpolate(x_samples.as_slice(), y_samples.as_slice(), 0);
        secret.set(idx, val);
        idx = idx + 1;
    }
    assert(secret@ =~= combined(all));
    Ok(secret)
}

/// Re-randomizes the shares: the secret and the x-coordinates stay, the
/// y-bytes change. A share set that is accepted and has y-bytes must not hold
/// the x-coordinate zero.
pub fn refresh(shares: &[Vec<u8>], threshold: usize) -> (result: Result<Vec<Vec<u8>>, Error>)
    requires
        refresh_error(rows(shares@), threshold as int).is_none() && shares@[0]@.len() >= 2
            ==> forall|i: int|
            0 <= i < shares@.len() ==> #[trigger] coordinates(rows(shares@))[i] != 0,
    ensures
        match result {
            Ok(fresh) => {
                &&& refresh_error(rows(shares@), threshold as int).is_none()
                &&& is_refresh_of(rows(fresh@), rows(shares@), threshold as int)
            },
            Err(e) => refresh_error(rows(shares@), threshold as int) == Some(e),
        },
{
    let ghost all = rows(shares@);
    let parts = shares.len();
    if parts < threshold || parts > 255 || threshold < 2 || threshold > 255 {
        return Err(Error::InvalidParameters);
    }
    let share_size = shares[0].len();
    let mut new_shares: Vec<Vec<u8>> = Vec::new();
    let mut idx: usize = 0;
    while idx < parts
        invariant
            idx <= parts == shares@.len(),
            2 <= threshold <= parts <= 255,
            all == rows(shares@),
            share_size == shares@[0]@.len(),
            new_shares@.len() == idx,
            forall|i: int| 0 <= i < idx ==> (#[trigger] all[i]).len() == share_size,
            forall|i: int| 0 <= i < idx ==> (#[trigger] new_shares@[i])@ == all[i],
        decreases parts - idx,
    {
        if shares[idx].len() != share_size {
            proof {
                assert(all[idx as int].len() != all[0].len());
            }
            return Err(Error::InvalidShareSet);
        }
        let copy = shares[idx].clone();
        assert(copy@ =~= all[idx as int]);
        new_shares.push(copy);
        idx = idx + 1;
    }
    assert(same_lengths(all));
    if share_size == 0 {
        return Err(Error::InvalidShareSet);
    }
    let data_size = share_size - 1;
    let degree: u8 = (threshold - 1) as u8;
    let ghost mut polys: Seq<Seq<u8>> = Seq::empty();
    let mut b_idx: usize = 0;
    while b_idx < data_size
        invariant
            b_idx <= data_size == share_size - 1,
            2 <= threshold <= parts <= 255,
            degree == threshold - 1,
            parts == shares@.len(),
            all == rows(shares@),
            same_lengths(all),
            share_size == all[0].len(),
            data_size >= 1 ==> forall|i: int|
                0 <= i < parts ==> #[trigger] coordinates(all)[i] != 0,
            new_shares@.len() == parts,
            forall|i: int|
                0 <= i < parts ==> (#[trigger] rows(new_shares@)[i]).len() == share_size,
            forall|i: int, j: int|
                0 <= i < parts && b_idx <= j < share_size ==> #[trigger] rows(
                    new_shares@,
                )[i][j] == all[i][j],
            polys.len() == b_idx,
            forall|j: int|
                0 <= j < b_idx ==> (#[trigger] polys[j]).len() == threshold && polys[j][0] == 0,
            forall|i: int, j: int|
                0 <= i < parts && 0 <= j < b_idx ==> (#[trigger] rows(new_shares@)[i])[j]
                    == all[i][j] ^ eval(#[trigger] polys[j], all[i][data_size as int]),
        decreases data_size - b_idx,
    {
        let refresh_polynomial = Polynomial::generate(0, degree);
        proof {
            assert forall|i: int| 0 <= i < parts implies (#[trigger] rows(
                new_shares@,
            )[i])[data_size as int] != 0 by {
                assert(all[i].len() == share_size);
                assert(coordinates(all)[i] != 0);
            }
        }
        add_values(&mut new_shares, &refresh_polynomial, b_idx);
        proof {
            assert forall|i: int| 0 <= i < parts implies (#[trigger] all[i]).len()
                == share_size by {}
            polys = polys.push(refresh_polynomial@);
        }
        b_idx = b_idx + 1;
    }
    proof {
        let fresh = rows(new_shares@);
        assert(shifted_by(fresh, all, threshold as int, polys));
    }
    Ok(new_shares)
}

} // verus!
