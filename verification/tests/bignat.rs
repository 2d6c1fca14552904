use dtree::{BigNat, Order};

#[test]
fn small_numbers_round_trip() {
    assert_eq!(BigNat::zero().to_u128(), Some(0));
    assert_eq!(BigNat::from_u64(42).to_u128(), Some(42));
    assert_eq!(BigNat::from_u128(u128::MAX).to_u128(), Some(u128::MAX));
    assert!(BigNat::zero().is_zero());
    assert!(BigNat::from_u128(0).is_zero());
    assert!(!BigNat::from_u64(1).is_zero());
}

#[test]
fn sums_carry_across_limbs() {
    let a = BigNat::from_u64(u64::MAX);
    let b = BigNat::from_u64(1);
    assert_eq!(a.add(&b).to_u128(), Some(1u128 << 64));
    let c = BigNat::from_u128(u128::MAX);
    let sum = c.add(&b);
    assert_eq!(sum.to_u128(), None);
    assert_eq!(sum.limbs()[..3], [0, 0, 1]);
}

#[test]
fn products_are_exact() {
    let a = BigNat::from_u64(u64::MAX);
    assert_eq!(a.mul(&a).to_u128(), Some((u64::MAX as u128) * (u64::MAX as u128)));
    assert_eq!(a.mul_small(3).to_u128(), Some((u64::MAX as u128) * 3));
    assert_eq!(a.mul(&BigNat::zero()).to_u128(), Some(0));
    // (2^128 - 1)^2 = 2^256 - 2^129 + 1
    let big = BigNat::from_u128(u128::MAX);
    let square = big.mul(&big);
    let limbs = square.limbs();
    assert_eq!(limbs[..4], [1, 0, u64::MAX - 1, u64::MAX]);
    assert!(limbs[4..].iter().all(|limb| *limb == 0));
}

#[test]
fn comparison_ignores_leading_zero_limbs() {
    let a = BigNat::from_u128(5);
    let b = BigNat::from_u64(5);
    assert_eq!(a.compare(&b), Order::Equal);
    assert_eq!(BigNat::from_u64(4).compare(&a), Order::Less);
    assert_eq!(a.compare(&BigNat::from_u64(4)), Order::Greater);
    let high = BigNat::from_u128(1u128 << 64);
    assert_eq!(BigNat::from_u64(u64::MAX).compare(&high), Order::Less);
    assert!(BigNat::from_u64(u64::MAX).less_than(&high));
    assert!(!high.less_than(&high));
}
