use shamir_naive::SecretData;

fn general_usage(secret: i64, threshold: u8) {
    let shamir_test = SecretData::from_secret(secret, threshold, None).unwrap();
    let mut points: Vec<i64> = vec![];
    let mut values: Vec<i64> = vec![];
    for x in 1..=3 {
        points.push(x);
        values.push(shamir_test.get_share(x as u8).unwrap().1);
    }
    assert_eq!(
        secret,
        SecretData::recover_secret(threshold, &points, &values, shamir_test.prime).unwrap()
    );
}

#[test]
fn general_test() {
    general_usage(125, 3);
}

#[test]
#[should_panic]
fn general_failure() {
    general_usage(6326214, 3);
}
