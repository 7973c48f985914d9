use shamir_naive::{gcd, mod_inverse, poly_curve_eval, SecretData, ShamirError, DEFAULT_PRIME};

#[test]
fn gcd_extended_euclid() {
    // 4 == 1 * 12 + (-1) * 8
    assert_eq!(gcd(12, 8), (4, 1, -1));
    assert_eq!(gcd(7, 0), (7, 1, 0));
    assert_eq!(gcd(0, 5), (5, 0, 1));
}

#[test]
fn mod_inverse_concrete() {
    // 3 * 5 == 15 == 2 * 7 + 1
    assert_eq!(mod_inverse(3, 7), Some(5));
    // -3 is congruent to 4, and 4 * 2 == 8 == 7 + 1
    assert_eq!(mod_inverse(-3, 7), Some(2));
    // multiples of the modulus have no inverse
    assert_eq!(mod_inverse(0, 7), None);
    assert_eq!(mod_inverse(14, 7), None);
    // a composite modulus has no inverse for a shared factor
    assert_eq!(mod_inverse(2, 8), None);
}

#[test]
fn poly_eval_concrete() {
    // 125 + 10 * 2 + 3 * 4 == 157
    assert_eq!(poly_curve_eval(&vec![125, 10, 3], 2, 6326213), 157);
    // reduction into the field: 5 + 3 * 6 == 23 == 17 + 6
    assert_eq!(poly_curve_eval(&vec![5, 3], 6, 17), 6);
    assert_eq!(poly_curve_eval(&vec![], 9, 17), 0);
}

#[test]
fn recover_insufficient_shares() {
    assert_eq!(
        SecretData::recover_secret(3, &[1, 2], &[5, 6], 17),
        Err(ShamirError::InsufficientShares)
    );
}

#[test]
fn recover_mismatched_lengths() {
    assert_eq!(
        SecretData::recover_secret(2, &[1, 2, 3], &[5, 6], 17),
        Err(ShamirError::MismatchedInputLengths)
    );
}

#[test]
fn recover_repeated_point_declined() {
    assert_eq!(
        SecretData::recover_secret(2, &[1, 1], &[5, 5], 17),
        Err(ShamirError::NonInvertibleDenominator)
    );
}

#[test]
fn recover_composite_modulus_declined() {
    // the difference 3 - 1 == 2 shares a factor with the modulus 8
    assert_eq!(
        SecretData::recover_secret(2, &[1, 3], &[5, 6], 8),
        Err(ShamirError::NonInvertibleDenominator)
    );
}

#[test]
fn known_line_round_trip() {
    // y == 5 + 3 x over the field of 17 elements
    let scheme = SecretData {
        secret_data: None,
        coefficients: vec![5, 3],
        prime: 17,
    };
    assert_eq!(scheme.get_share(1), Ok((1, 8)));
    assert_eq!(scheme.get_share(2), Ok((2, 11)));
    assert_eq!(SecretData::recover_secret(2, &[1, 2], &[8, 11], 17), Ok(5));
    // redundant consistent shares still give the line's value at zero
    assert_eq!(
        SecretData::recover_secret(2, &[1, 2, 3], &[8, 11, 14], 17),
        Ok(5)
    );
    // a value may come in as any congruent integer
    assert_eq!(SecretData::recover_secret(2, &[1, 2], &[-9, 11], 17), Ok(5));
}

#[test]
fn share_id_zero_declined() {
    let scheme = SecretData::from_secret(1, 2, Some(97)).unwrap();
    assert_eq!(scheme.get_share(0), Err(ShamirError::InvalidShareId));
}

#[test]
fn construction_boundaries() {
    // secret == prime - 1 succeeds
    assert!(SecretData::from_secret(DEFAULT_PRIME - 1, 2, None).is_ok());
    // secret == prime fails
    assert_eq!(
        SecretData::from_secret(DEFAULT_PRIME, 2, None).unwrap_err(),
        ShamirError::SecretTooLarge
    );
}

#[test]
fn secret_above_default_prime_declined() {
    assert_eq!(
        SecretData::from_secret(6326214, 3, None).unwrap_err(),
        ShamirError::SecretTooLarge
    );
}

#[test]
fn concrete_scenario() {
    let scheme = SecretData::from_secret(125, 3, Some(6326213)).unwrap();
    let mut points: Vec<i64> = vec![];
    let mut values: Vec<i64> = vec![];
    for x in 1..=3 {
        points.push(x);
        values.push(scheme.get_share(x as u8).unwrap().1);
    }
    assert_eq!(
        SecretData::recover_secret(3, &points, &values, 6326213),
        Ok(125)
    );
}

#[test]
fn get_share_deterministic() {
    let scheme = SecretData::from_secret(77, 4, None).unwrap();
    let first = scheme.get_share(9).unwrap();
    let second = scheme.get_share(9).unwrap();
    assert_eq!(first, second);
    assert_eq!(first.0, 9);
}

#[test]
fn share_values_stay_in_field() {
    let scheme = SecretData::from_secret(2, 3, Some(5)).unwrap();
    assert_eq!(scheme.coefficients.len(), 3);
    for c in &scheme.coefficients[1..] {
        assert!(1 <= *c && *c < 5);
    }
    for id in 1..=5u8 {
        let (_, value) = scheme.get_share(id).unwrap();
        assert!(0 <= value && value < 5);
    }
}

#[test]
fn random_round_trip_small_field() {
    // fresh randomness each time; reconstruction must still return the secret
    let scheme = SecretData::from_secret(4, 3, Some(5)).unwrap();
    let mut points: Vec<i64> = vec![];
    let mut values: Vec<i64> = vec![];
    for x in 1..=3 {
        points.push(x);
        values.push(scheme.get_share(x as u8).unwrap().1);
    }
    assert_eq!(SecretData::recover_secret(3, &points, &values, 5), Ok(4));
}

#[test]
fn threshold_one_round_trip() {
    let scheme = SecretData::from_secret(7, 1, Some(11)).unwrap();
    let (id, value) = scheme.get_share(4).unwrap();
    assert_eq!((id, value), (4, 7));
    assert_eq!(SecretData::recover_secret(1, &[id], &[value], 11), Ok(7));
}

#[test]
fn shares_below_threshold_exclude_no_secret() {
    // two degree-1 schemes over the field of 17 elements that agree on the
    // share at id 1: one share constrains no secret
    let one = SecretData {
        secret_data: None,
        coefficients: vec![2, 3],
        prime: 17,
    };
    let other = SecretData {
        secret_data: None,
        coefficients: vec![4, 1],
        prime: 17,
    };
    assert_eq!(one.get_share(1), other.get_share(1));
    // and with only that share, reconstruction at threshold 2 is declined
    let (id, value) = one.get_share(1).unwrap();
    assert_eq!(
        SecretData::recover_secret(2, &[id], &[value], 17),
        Err(ShamirError::InsufficientShares)
    );
}
