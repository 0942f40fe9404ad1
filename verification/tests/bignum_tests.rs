use rust_crawler::bignum::{limbs_greater, mul_limb, product_limbs};

#[test]
fn products_carry_into_higher_limbs() {
    let r = mul_limb(&vec![u64::MAX], u64::MAX);
    assert_eq!(r, vec![1, u64::MAX - 1]);
    let p = product_limbs(&vec![u64::MAX, u64::MAX, 2]);
    // (2^64 - 1)^2 * 2 = 2^129 - 2^66 + 2
    assert_eq!(p, vec![2, u64::MAX - 3, 1, 0]);
    assert_eq!(product_limbs(&vec![]), vec![1]);
}

#[test]
fn comparison_goes_by_value() {
    assert!(limbs_greater(&vec![0, 1], &vec![u64::MAX, 0]));
    assert!(!limbs_greater(&vec![5, 1], &vec![5, 1]));
    assert!(!limbs_greater(&vec![4, 1], &vec![5, 1]));
    assert!(limbs_greater(&vec![6, 1], &vec![5, 1]));
}
