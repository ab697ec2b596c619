use shamirs::polynomial::Polynomial;
use shamirs::ops::mult;
use shamirs::{add_values, combine, refresh, split, write_values, Error};

#[test]
fn it_splits_secret() {
    let secret = b"test_secret";
    let threshold = 3;
    let parts = 5;

    // Split the secret into shares.
    let shares = split(secret, parts, threshold).expect("split failed");
    // The number of shares should match the specified number of parts.
    assert_eq!(shares.len(), parts);

    // Each share should be one byte longer than the secret to store the x-coordinate.
    for share in shares.iter() {
        assert_eq!(share.len(), secret.len() + 1);
    }
}

#[test]
fn it_fails_when_split_parts_less_than_thresshold() {
    let secret = b"test_secret";
    let threshold = 3;
    let parts = 2; // Less than the threshold

    assert!(split(secret, parts, threshold,).is_err());
}

#[test]
fn it_combines_from_random_shares() {
    let secret = [1, 2, 3];
    let threshold = 3;
    let parts = 5;

    let shares = split(&secret, parts, threshold).expect("split failed");
    // Choose a subset of shares that meet the threshold
    let selected_shares = &shares[..threshold];

    let reconstructed = combine(selected_shares).expect("combine failed");
    assert_eq!(reconstructed, secret);
}

#[test]
fn it_combines_from_known_shares() {
    let secret = b"test_secret";
    // Valid known shares
    let shares = vec![
        vec![137, 206, 171, 244, 28, 176, 109, 4, 12, 168, 87, 50],
        vec![162, 176, 148, 45, 83, 38, 153, 204, 80, 141, 4, 1],
        vec![35, 165, 19, 114, 53, 31, 70, 25, 74, 248, 145, 132],
    ];

    // Combine the shares to reconstruct the secret.
    let reconstructed = combine(&shares).expect("combine failed");
    assert_eq!(reconstructed, secret);
}

#[test]
fn it_fails_to_combine_invalid_shares_input() {
    // Inconsistent shares
    let shares = vec![vec![1, 2], vec![3, 4, 3]];
    assert!(combine(&shares).is_err());

    // Invalid number of shares
    let shares = vec![vec![1, 2]];
    assert!(combine(&shares).is_err());
}

#[test]
fn it_fails_to_combine_duplicate_shares() {
    let shares = vec![
        vec![35, 165, 19, 114, 53, 31, 70, 25, 74, 248, 145, 132],
        //duplicate shares
        vec![137, 206, 171, 244, 28, 176, 109, 4, 12, 168, 87, 50],
        vec![137, 206, 171, 244, 28, 176, 109, 4, 12, 168, 87, 50],
    ];

    assert!(combine(&shares).is_err());
}

#[test]
fn it_refreshes_shares() {
    let secret = b"test_secret";
    let threshold = 3;
    let shares = split(secret, 5, threshold).expect("split failed");

    let refreshed_shares = refresh(&shares, threshold).expect("refresh failed");

    // Verify refreshed shares can reconstruct secret
    let selected_shares = &refreshed_shares[..threshold];
    let reconstructed = combine(selected_shares).expect("combine failed");
    assert_eq!(reconstructed, secret);
}

#[test]
fn it_refreshes_known_shares() {
    // Valid known shares
    let shares = vec![
        vec![137, 206, 171, 244, 28, 176, 109, 4, 12, 168, 87, 50],
        vec![162, 176, 148, 45, 83, 38, 153, 204, 80, 141, 4, 1],
        vec![35, 165, 19, 114, 53, 31, 70, 25, 74, 248, 145, 132],
    ];
    let threshold = 3;

    let refreshed_shares = refresh(&shares, threshold).expect("refresh failed");
    let reconstructed = combine(&refreshed_shares[..threshold]).expect("combine failed");
    assert_eq!(reconstructed, b"test_secret");
}

#[test]
fn it_fails_to_refresh_invalid_shares() {
    // Inconsistent shares
    let shares = vec![vec![1, 2], vec![3, 4, 3]];
    assert!(refresh(&shares, 2).is_err());

    // Invalid threshold - threshold must be at least 2
    let shares = vec![vec![1, 2], vec![3, 4]];
    assert!(refresh(&shares, 1).is_err());

    // Threshold larger than number of shares
    let shares = vec![vec![1, 2], vec![3, 4]];
    assert!(refresh(&shares, 3).is_err());
}

#[test]
fn split_rejects_parameters_out_of_range() {
    let secret = b"secret";
    assert_eq!(split(secret, 5, 1), Err(Error::InvalidParameters));
    assert_eq!(split(secret, 5, 0), Err(Error::InvalidParameters));
    assert_eq!(split(secret, 2, 3), Err(Error::InvalidParameters));
    assert_eq!(split(secret, 256, 3), Err(Error::InvalidParameters));
    assert_eq!(split(secret, 300, 256), Err(Error::InvalidParameters));
    assert_eq!(split(&[], 5, 3), Err(Error::InvalidParameters));
    assert!(split(secret, 2, 2).is_ok());
    assert!(split(secret, 255, 255).is_ok());
    assert!(split(&[0], 255, 2).is_ok());
}

#[test]
fn split_gives_distinct_nonzero_coordinates() {
    let secret = b"shape";
    let shares = split(secret, 255, 2).expect("split failed");
    assert_eq!(shares.len(), 255);
    let mut seen = [false; 256];
    for share in shares.iter() {
        assert_eq!(share.len(), secret.len() + 1);
        let x = share[secret.len()];
        assert_ne!(x, 0);
        assert!(!seen[x as usize]);
        seen[x as usize] = true;
    }
}

#[test]
fn split_draws_the_coordinates_in_a_random_order() {
    let shares = split(b"x", 255, 2).expect("split failed");
    let mut in_order = true;
    for (i, share) in shares.iter().enumerate() {
        if share[1] as usize != i + 1 {
            in_order = false;
        }
    }
    assert!(!in_order);
}

#[test]
fn any_threshold_subset_recovers_the_secret() {
    let secret = b"any three of five";
    let shares = split(secret, 5, 3).expect("split failed");
    for a in 0..5 {
        for b in 0..5 {
            for c in 0..5 {
                if a != b && b != c && a != c {
                    let chosen = vec![shares[a].clone(), shares[b].clone(), shares[c].clone()];
                    assert_eq!(combine(&chosen).expect("combine failed"), secret);
                }
            }
        }
    }
    // More than the threshold works as well.
    assert_eq!(combine(&shares).expect("combine failed"), secret);
    assert_eq!(combine(&shares[1..]).expect("combine failed"), secret);
}

#[test]
fn round_trip_at_the_edges() {
    let one = [0xABu8];
    let shares = split(&one, 2, 2).expect("split failed");
    assert_eq!(combine(&shares).expect("combine failed"), one);

    let shares = split(&one, 255, 255).expect("split failed");
    assert_eq!(combine(&shares).expect("combine failed"), one);

    let shares = split(&one, 255, 2).expect("split failed");
    assert_eq!(combine(&shares[100..102]).expect("combine failed"), one);

    let zeros = [0u8; 16];
    let shares = split(&zeros, 4, 3).expect("split failed");
    assert_eq!(combine(&shares[1..]).expect("combine failed"), zeros);
}

#[test]
fn round_trip_of_a_long_secret() {
    let mut secret = vec![0u8; 4096];
    for (i, byte) in secret.iter_mut().enumerate() {
        *byte = (i * 31 + 7) as u8;
    }
    let shares = split(&secret, 5, 3).expect("split failed");
    assert_eq!(combine(&shares[2..]).expect("combine failed"), secret);
}

#[test]
fn too_few_shares_give_another_value() {
    let secret = [0x11u8; 32];
    let shares = split(&secret, 5, 3).expect("split failed");
    let first = combine(&shares[..2]).expect("combine failed");
    let second = combine(&shares[2..4]).expect("combine failed");
    assert_eq!(first.len(), secret.len());
    assert_eq!(second.len(), secret.len());
    assert_ne!(first, secret);
    assert_ne!(second, secret);
    assert_ne!(first, second);
}

#[test]
fn combine_names_its_errors() {
    // Fewer than two shares.
    assert_eq!(combine(&[]), Err(Error::InvalidShareSet));
    assert_eq!(combine(&[vec![1, 2]]), Err(Error::InvalidShareSet));
    // Shares without a y-byte.
    assert_eq!(combine(&[vec![1], vec![2]]), Err(Error::InvalidShareSet));
    assert_eq!(combine(&[vec![], vec![]]), Err(Error::InvalidShareSet));
    // Different lengths.
    assert_eq!(combine(&[vec![1, 2], vec![3, 4, 3]]), Err(Error::InvalidShareSet));
    assert_eq!(combine(&[vec![1, 2, 9], vec![3, 4, 9]]), Err(Error::DuplicateCoordinate));
    // The same x-coordinate twice.
    assert_eq!(combine(&[vec![1, 7], vec![2, 7]]), Err(Error::DuplicateCoordinate));
    assert_eq!(combine(&[vec![1, 7], vec![2, 8], vec![3, 7]]), Err(Error::DuplicateCoordinate));
    // Different lengths are found before equal coordinates.
    assert_eq!(combine(&[vec![1, 7], vec![2, 7], vec![3]]), Err(Error::InvalidShareSet));
}

#[test]
fn combine_interpolates_at_zero() {
    // Two samples of a line: y = 5 + 3 x at x = 1 and x = 2.
    let line = Polynomial::new(vec![5, 3]).expect("two coefficients");
    let shares = vec![vec![line.evaluate(1), 1], vec![line.evaluate(2), 2]];
    assert_eq!(combine(&shares), Ok(vec![5]));
    // A sample at zero is the value itself.
    let shares = vec![vec![5, 0], vec![line.evaluate(9), 9]];
    assert_eq!(combine(&shares), Ok(vec![5]));
}

#[test]
fn refresh_keeps_coordinates_and_changes_payload() {
    let secret = [0x77u8; 32];
    let shares = split(&secret, 5, 3).expect("split failed");
    let fresh = refresh(&shares, 3).expect("refresh failed");
    assert_eq!(fresh.len(), shares.len());
    for (old, new) in shares.iter().zip(fresh.iter()) {
        assert_eq!(old.len(), new.len());
        assert_eq!(old[secret.len()], new[secret.len()]);
    }
    assert_ne!(fresh, shares);
    for a in 0..3 {
        let chosen = &fresh[a..a + 3];
        assert_eq!(combine(chosen).expect("combine failed"), secret);
    }
    // Old and new shares do not mix.
    let mixed = vec![shares[0].clone(), fresh[1].clone(), fresh[2].clone()];
    assert_ne!(combine(&mixed).expect("combine failed"), secret);
}

#[test]
fn refresh_names_its_errors() {
    let pair = vec![vec![1, 2], vec![3, 4]];
    assert_eq!(refresh(&pair, 1), Err(Error::InvalidParameters));
    assert_eq!(refresh(&pair, 3), Err(Error::InvalidParameters));
    assert_eq!(refresh(&pair, 256), Err(Error::InvalidParameters));
    assert_eq!(refresh(&[], 0), Err(Error::InvalidParameters));
    assert_eq!(refresh(&[], 2), Err(Error::InvalidParameters));
    let many = vec![vec![1u8, 2]; 256];
    assert_eq!(refresh(&many, 2), Err(Error::InvalidParameters));
    assert_eq!(refresh(&[vec![1, 2], vec![3, 4, 3]], 2), Err(Error::InvalidShareSet));
    assert_eq!(refresh(&[vec![], vec![]], 2), Err(Error::InvalidShareSet));
    // The parameters are looked at first.
    assert_eq!(refresh(&[vec![1, 2], vec![3, 4, 3]], 3), Err(Error::InvalidParameters));
}

#[test]
fn refresh_of_bare_coordinates_changes_nothing() {
    let bare = vec![vec![1u8], vec![2u8], vec![3u8]];
    assert_eq!(refresh(&bare, 2), Ok(bare.clone()));
}

#[test]
fn refresh_twice_still_recovers() {
    let secret = b"rotate me";
    let shares = split(secret, 4, 2).expect("split failed");
    let once = refresh(&shares, 2).expect("refresh failed");
    let twice = refresh(&once, 2).expect("refresh failed");
    assert_eq!(combine(&twice[2..]).expect("combine failed"), secret);
}

#[test]
fn write_values_places_the_polynomial_at_each_coordinate() {
    // The line 5 + 3 x.
    let line = Polynomial::new(vec![5, 3]).expect("two coefficients");
    let mut shares = vec![vec![0xEE, 0xEE, 1], vec![0xEE, 0xEE, 2], vec![0xEE, 0xEE, 0x80]];
    write_values(&mut shares, &line, 0);
    assert_eq!(
        shares,
        vec![vec![6, 0xEE, 1], vec![3, 0xEE, 2], vec![5 ^ mult(3, 0x80), 0xEE, 0x80]]
    );
    write_values(&mut shares, &line, 1);
    assert_eq!(shares[0], vec![6, 6, 1]);
    assert_eq!(shares[1], vec![3, 3, 2]);
    assert_eq!(combine(&shares[1..]), Ok(vec![5, 5]));
}

#[test]
fn add_values_adds_the_polynomial_at_each_coordinate() {
    // The line 0 + 3 x.
    let line = Polynomial::new(vec![0, 3]).expect("two coefficients");
    let mut shares = vec![vec![6, 0x10, 1], vec![3, 0x20, 2]];
    add_values(&mut shares, &line, 0);
    assert_eq!(shares, vec![vec![6 ^ 3, 0x10, 1], vec![3 ^ 6, 0x20, 2]]);
    add_values(&mut shares, &line, 0);
    assert_eq!(shares, vec![vec![6, 0x10, 1], vec![3, 0x20, 2]]);
    add_values(&mut shares, &line, 1);
    assert_eq!(shares, vec![vec![6, 0x13, 1], vec![3, 0x26, 2]]);
}

#[test]
fn shares_written_by_hand_combine_to_the_intercepts() {
    let first = Polynomial::new(vec![0xDE, 0x01, 0x02]).expect("three coefficients");
    let second = Polynomial::new(vec![0xAD, 0xFF, 0x80]).expect("three coefficients");
    let mut shares = vec![vec![0, 0, 9], vec![0, 0, 200], vec![0, 0, 31], vec![0, 0, 77]];
    write_values(&mut shares, &first, 0);
    write_values(&mut shares, &second, 1);
    assert_eq!(combine(&shares[..3]), Ok(vec![0xDE, 0xAD]));
    assert_eq!(combine(&shares[1..]), Ok(vec![0xDE, 0xAD]));
    // A change that is zero at zero keeps what the shares combine to.
    let shift = Polynomial::new(vec![0, 0x44, 0x55]).expect("three coefficients");
    add_values(&mut shares, &shift, 0);
    add_values(&mut shares, &shift, 1);
    assert_eq!(combine(&shares[..3]), Ok(vec![0xDE, 0xAD]));
}
