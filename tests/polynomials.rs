use bytepoly::{
    add_fixed, check_carry_chain, dump, eval_constraint, from_biguint, from_biguint_fixed,
    from_hex, mul_fixed, nondet_inv_fixed, nondet_quot_fixed, nondet_rem_fixed, sub_fixed,
    to_biguint, BigNat, PolyError,
};

fn value_of(b: &BigNat) -> u128 {
    b.digits.iter().rev().fold(0u128, |acc, d| acc * 256 + *d as u128)
}

fn poly_value(p: &[i32]) -> i128 {
    p.iter().rev().fold(0i128, |acc, c| acc * 256 + *c as i128)
}

#[test]
fn to_biguint_reads_little_endian() {
    let b = to_biguint(&[1, 0, 0]).unwrap();
    assert_eq!(value_of(&b), 1);
    let b = to_biguint(&[0, 1]).unwrap();
    assert_eq!(value_of(&b), 256);
}

#[test]
fn to_biguint_accepts_unnormalized_coefficients() {
    // -1 + 2 * 256 = 511
    let b = to_biguint(&[-1, 2]).unwrap();
    assert_eq!(value_of(&b), 511);
    // 300 + 256 = 556, carries past the last coefficient
    let b = to_biguint(&[300, 1]).unwrap();
    assert_eq!(value_of(&b), 556);
    let b = to_biguint(&[0, 0, 70000]).unwrap();
    assert_eq!(value_of(&b), 70000 * 65536);
}

#[test]
fn to_biguint_refuses_negative_total() {
    assert!(matches!(to_biguint(&[-1]), Err(PolyError::NegativeValue)));
    assert!(matches!(to_biguint(&[255, -1]), Err(PolyError::NegativeValue)));
    assert!(to_biguint(&[]).is_ok());
}

#[test]
fn from_biguint_splits_into_bytes() {
    assert_eq!(from_biguint(&BigNat::from_u64(511), 2), Ok(vec![255, 1]));
    assert_eq!(from_biguint(&BigNat::from_u64(511), 4), Ok(vec![255, 1, 0, 0]));
    assert_eq!(from_biguint(&BigNat::from_u64(0), 3), Ok(vec![0, 0, 0]));
    assert_eq!(from_biguint_fixed(&BigNat::from_u64(0x0102_0304), 4), Ok(vec![4, 3, 2, 1]));
}

#[test]
fn from_biguint_refuses_value_too_wide() {
    assert_eq!(from_biguint(&BigNat::from_u64(256), 1), Err(PolyError::Overflow));
    assert_eq!(from_biguint(&BigNat::from_u64(1), 0), Err(PolyError::Overflow));
    assert_eq!(from_biguint_fixed(&BigNat::from_u64(65536), 2), Err(PolyError::Overflow));
    let padded = BigNat { digits: vec![7, 0, 0, 0] };
    assert_eq!(from_biguint(&padded, 1), Ok(vec![7]));
}

#[test]
fn round_trip_of_normalized_polynomial() {
    for p in [vec![0, 0, 0], vec![255, 255], vec![1, 2, 3, 4, 5], vec![0, 0, 9]] {
        let b = to_biguint(&p).unwrap();
        assert_eq!(from_biguint(&b, p.len()), Ok(p.clone()));
    }
}

#[test]
fn from_hex_decodes_bytes() {
    assert_eq!(from_hex("01ff"), Ok(vec![1, 255]));
    assert_eq!(from_hex("ABcd"), Ok(vec![0xab, 0xcd]));
    assert_eq!(from_hex(""), Ok(vec![]));
    assert_eq!(from_hex("abc"), Err(PolyError::InvalidHex));
    assert_eq!(from_hex("0g"), Err(PolyError::InvalidHex));
}

#[test]
fn dump_shows_value_and_coefficients() {
    assert_eq!(dump(&[1, 0, 0]), Ok("1 ([1, 0, 0])".to_string()));
    assert_eq!(dump(&[255, 1]), Ok("511 ([255, 1])".to_string()));
    assert_eq!(dump(&[-1]), Err(PolyError::NegativeValue));
}

#[test]
fn add_and_sub_pad_the_shorter_operand() {
    assert_eq!(add_fixed(&[1, 2, 3], &[10, 20], 3), Ok(vec![11, 22, 3]));
    assert_eq!(sub_fixed(&[1, 2], &[10, 20, 30], 3), Ok(vec![-9, -18, -30]));
    assert_eq!(add_fixed(&[1, 2, 3], &[10, 20], 2), Err(PolyError::SizeMismatch));
    assert_eq!(sub_fixed(&[1], &[1], 2), Err(PolyError::SizeMismatch));
}

#[test]
fn mul_fixed_literal() {
    assert_eq!(mul_fixed(&[2, 0], &[3, 0], 4), Ok(vec![6, 0, 0, 0]));
}

#[test]
fn mul_fixed_convolves() {
    // (1 + 2x)(3 + 4x + 5x^2) = 3 + 10x + 13x^2 + 10x^3
    assert_eq!(mul_fixed(&[1, 2], &[3, 4, 5], 5), Ok(vec![3, 10, 13, 10, 0]));
    assert_eq!(mul_fixed(&[-1, 2], &[3], 3), Ok(vec![-3, 6, 0]));
    assert_eq!(mul_fixed(&[2, 0], &[3, 0], 3), Err(PolyError::SizeMismatch));
}

#[test]
fn quotient_and_remainder_hints() {
    // 1000 = 142 * 7 + 6
    let lhs = [232, 3];
    let rhs = [7];
    assert_eq!(nondet_quot_fixed(&lhs, &rhs, 2), Ok(vec![142, 0]));
    assert_eq!(nondet_rem_fixed(&lhs, &rhs, 2), Ok(vec![6, 0]));
    assert_eq!(nondet_quot_fixed(&lhs, &rhs, 0), Err(PolyError::Overflow));
    assert_eq!(nondet_quot_fixed(&[-1], &rhs, 2), Err(PolyError::NegativeValue));
    assert_eq!(nondet_rem_fixed(&lhs, &[-7], 2), Err(PolyError::NegativeValue));
}

#[test]
fn division_identity_holds() {
    let cases: [(u64, u64); 5] = [(0, 1), (1000, 7), (65535, 256), (123456789, 1000), (5, 9)];
    for (a, b) in cases {
        let lhs = from_biguint(&BigNat::from_u64(a), 8).unwrap();
        let rhs = from_biguint(&BigNat::from_u64(b), 8).unwrap();
        let q = nondet_quot_fixed(&lhs, &rhs, 8).unwrap();
        let r = nondet_rem_fixed(&lhs, &rhs, 8).unwrap();
        let (q, r) = (poly_value(&q), poly_value(&r));
        assert_eq!(a as i128, q * b as i128 + r);
        assert!(0 <= r && r < b as i128);
    }
}

#[test]
fn inverse_hint_modulo_prime() {
    // 3 * 5 = 15 = 1 (mod 7)
    assert_eq!(nondet_inv_fixed(&[3], &[7], 1), Ok(vec![5]));
    let p: i128 = 251;
    for a in 1..251 {
        let inv = nondet_inv_fixed(&[a], &[251], 1).unwrap();
        assert_eq!((a as i128 * poly_value(&inv)) % p, 1);
    }
    // 65537 = 1 + 256^2
    let m = [1, 0, 1];
    let inv = nondet_inv_fixed(&[2], &m, 3).unwrap();
    assert_eq!((2 * poly_value(&inv)) % 65537, 1);
}

#[test]
fn inverse_hint_refuses_negative_operand() {
    assert_eq!(nondet_inv_fixed(&[-3], &[7], 1), Err(PolyError::NegativeValue));
}

#[test]
fn carry_limbs_of_a_checked_product() {
    // 200 * 3 = 600 = 88 + 2 * 256, so mul - rem denotes zero
    let prod = mul_fixed(&[200], &[3], 2).unwrap();
    let rem = [88, 2];
    let val = sub_fixed(&prod, &rem, 2).unwrap();
    assert_eq!(val, vec![512, -2]);
    assert!(check_carry_chain(&val, 0, 1));
    assert_eq!(eval_constraint(&val, 0, 1), vec![vec![2, 0]]);
}

#[test]
fn carry_limbs_of_literal_product() {
    let prod = mul_fixed(&[2], &[3], 2).unwrap();
    let val = sub_fixed(&prod, &[6, 0], 2).unwrap();
    assert!(check_carry_chain(&val, 0, 1));
    assert_eq!(eval_constraint(&val, 0, 1), vec![vec![0, 0]]);
    let mut bad = val.clone();
    bad[0] += 1;
    assert!(!check_carry_chain(&bad, 0, 1));
}

#[test]
fn carry_limbs_with_offset_and_three_bytes() {
    let val = [512, -2];
    assert!(check_carry_chain(&val, 0x1_0000, 3));
    assert_eq!(
        eval_constraint(&val, 0x1_0000, 3),
        vec![vec![2, 0], vec![0, 0], vec![1, 1], vec![4, 4]]
    );
    assert_eq!(eval_constraint(&val, 0x1ff, 2), vec![vec![0x01, 0xff], vec![2, 1]]);
}

#[test]
fn negative_carries_need_an_offset() {
    // -256 + 1 * 256 = 0: carry -1 out of position 0
    let val = [-256, 1];
    assert!(!check_carry_chain(&val, 0, 1));
    assert!(check_carry_chain(&val, 128, 1));
    assert_eq!(eval_constraint(&val, 128, 1), vec![vec![127, 128]]);
}

#[test]
fn mutated_coefficient_breaks_carry_chain() {
    let val = [512, -2];
    for j in 0..2 {
        for d in [1, -1, 7, 255] {
            let mut bad = val;
            bad[j] += d;
            assert!(!check_carry_chain(&bad, 0x100, 2));
        }
    }
}

#[test]
fn carry_chain_refuses_out_of_range_settings() {
    let val = [512, -2];
    assert!(!check_carry_chain(&val, 0, 0));
    assert!(!check_carry_chain(&val, 0, 4));
    assert!(!check_carry_chain(&val, 255, 1));
    assert!(check_carry_chain(&val, 253, 1));
}

#[test]
fn multiple_of_256_below_top_breaks_carry_chain() {
    // +256 at position 0 of two: not a multiple of 256^2
    let val = [512, -2];
    assert!(check_carry_chain(&val, 0x100, 2));
    assert!(!check_carry_chain(&[768, -2], 0x100, 2));
    assert!(!check_carry_chain(&[512 + 65535, -2], 0x100, 2));
}

#[test]
fn multiple_of_256_at_top_keeps_carry_chain() {
    // +256 at the top position only moves the last carry
    assert!(check_carry_chain(&[512, 254], 0x100, 2));
    assert!(check_carry_chain(&[256], 0, 1));
}
