use bignum::number::Number;
use std::cmp::Ordering;

#[test]
fn add_positive() {
    let a = Number::new(true, vec![5]);
    let b = Number::new(true, vec![7]);
    let expected = Number::new(true, vec![12]);
    assert_eq!(a.add(b), expected);
}

#[test]
fn add_carry_across_digit() {
    let a = Number::new(true, vec![u64::MAX]);
    let b = Number::new(true, vec![u64::MAX]);
    let expected = Number::new(true, vec![18446744073709551614, 1]);
    assert_eq!(a.add(b), expected);
}

#[test]
fn add_opposite_cancel() {
    let a = Number::new(true, vec![u64::MAX]);
    let b = Number::new(false, vec![u64::MAX]);
    let expected = Number::new(true, vec![0]);
    assert_eq!(a.add(b), expected);
}

#[test]
fn neg_zero_normalizes() {
    let zero = Number::new(true, vec![0]);
    assert_eq!(zero.negate(), Number::new(true, vec![0]));
}

#[test]
fn add_negative_and_positive() {
    let a = Number::new(false, vec![100]);
    let b = Number::new(true, vec![40]);
    let result = a.add(b); // -100 + 40 = -60
    assert_eq!(result, Number::new(false, vec![60]));
}

#[test]
fn subtraction_bigger_smaller() {
    let a = Number::new(true, vec![0, 1]); // 2^64
    let b = Number::new(true, vec![1]); // 1
    let result = a.subtract(b); // 2^64 - 1
    assert_eq!(result, Number::new(true, vec![u64::MAX]));
}

#[test]
fn subtraction_smaller_bigger() {
    let a = Number::new(true, vec![1]); // 1
    let b = Number::new(true, vec![0, 1]); // 2^64
    let result = a.subtract(b); // 1 - 2^64 = -(2^64 - 1)
    assert_eq!(result, Number::new(false, vec![u64::MAX]));
}

#[test]
fn subtraction_negative_and_positive() {
    let a = Number::new(false, vec![50]); // -50
    let b = Number::new(true, vec![20]); // 20
    let result = a.subtract(b); // -50 - 20 = -70
    assert_eq!(result, Number::new(false, vec![70]));
}

#[test]
fn subtraction_positive_and_negative() {
    let a = Number::new(true, vec![20]); // 20
    let b = Number::new(false, vec![50]); // -50
    let result = a.subtract(b); // 20 - (-50) = 70
    assert_eq!(result, Number::new(true, vec![70]));
}

#[test]
fn subtraction_negative_and_negative() {
    let a = Number::new(false, vec![30]); // -30
    let b = Number::new(false, vec![10]); // -10
    let result = a.subtract(b); // -30 - (-10) = -20
    assert_eq!(result, Number::new(false, vec![20]));
}

#[test]
fn subtraction_with_borrow_across_digits() {
    let a = Number::new(true, vec![0, 1]); // 2^64
    let b = Number::new(true, vec![1, 1]); // 2^64 + 1
    let result = a.subtract(b); // (2^64) - (2^64 + 1) = -1
    assert_eq!(result, Number::new(false, vec![1]));
}

#[test]
fn comparison_various() {
    let p = Number::new(true, vec![1]);
    let n = Number::new(false, vec![1]);
    assert_eq!(p.compare(&Number::new(true, vec![0])), Ordering::Greater);
    assert_eq!(n.compare(&Number::new(true, vec![0])), Ordering::Less);
    assert_eq!(n.compare(&p), Ordering::Less);
}

#[test]
fn normalize_is_idempotent() {
    let a = Number::new(false, vec![60]);
    let again = a.normalize();
    assert_eq!(again, Number::new(false, vec![60]));
}

#[test]
fn construction_is_canonical() {
    // trailing zero limbs are stripped
    assert_eq!(Number::new(true, vec![5, 0, 0]), Number::new(true, vec![5]));
    // negative zero becomes the canonical zero
    assert_eq!(Number::new(false, vec![0]), Number::new(true, vec![0]));
    assert_eq!(Number::new(false, vec![0, 0, 0]), Number::new(true, vec![0]));
    // an empty limb list denotes zero
    assert_eq!(Number::new(false, vec![]), Number::new(true, vec![0]));
}

#[test]
fn add_zero_is_identity() {
    let a = Number::new(false, vec![123]);
    let zero = Number::new(true, vec![0]);
    assert_eq!(a.add(zero), Number::new(false, vec![123]));
}

#[test]
fn add_negation_cancels() {
    let a = Number::new(true, vec![7, 9]);
    let b = Number::new(true, vec![7, 9]);
    assert_eq!(a.negate().add(b), Number::new(true, vec![0]));
}

#[test]
fn add_commutes() {
    let a = Number::new(false, vec![1, 2]);
    let b = Number::new(true, vec![3]);
    let c = Number::new(false, vec![1, 2]);
    let d = Number::new(true, vec![3]);
    assert_eq!(a.add(b), d.add(c));
}

#[test]
fn negate_negative_zero_input() {
    let z = Number::new(false, vec![0]);
    assert_eq!(z.negate(), Number::new(true, vec![0]));
}

#[test]
fn subtraction_shorter_subtrahend_with_borrow() {
    let a = Number::new(true, vec![0, 1]); // 2^64
    let b = Number::new(true, vec![5]);
    let result = a.subtract(b); // 2^64 - 5
    assert_eq!(result, Number::new(true, vec![18446744073709551611]));
}

#[test]
fn add_carry_chain_over_several_limbs() {
    let a = Number::new(true, vec![u64::MAX, u64::MAX]);
    let b = Number::new(true, vec![1]);
    assert_eq!(a.add(b), Number::new(true, vec![0, 0, 1]));
}

#[test]
fn add_negative_longer_operand() {
    let a = Number::new(false, vec![0, 1]); // -(2^64)
    let b = Number::new(true, vec![5]);
    assert_eq!(a.add(b), Number::new(false, vec![18446744073709551611]));
}

#[test]
fn compare_is_antisymmetric_and_transitive() {
    let a = Number::new(false, vec![2, 1]);
    let b = Number::new(true, vec![9]);
    let c = Number::new(true, vec![0, 3]);
    assert_eq!(a.compare(&b), Ordering::Less);
    assert_eq!(b.compare(&a), Ordering::Greater);
    assert_eq!(b.compare(&c), Ordering::Less);
    assert_eq!(a.compare(&c), Ordering::Less);
    let b2 = Number::new(true, vec![9]);
    assert_eq!(b.compare(&b2), Ordering::Equal);
}

#[test]
fn cmp_abs_ignores_sign() {
    let a = Number::new(false, vec![9]);
    let b = Number::new(true, vec![3]);
    assert_eq!(a.cmp_abs(&b), Ordering::Greater);
    let c = Number::new(false, vec![4, 2]);
    let d = Number::new(true, vec![4, 2]);
    assert_eq!(c.cmp_abs(&d), Ordering::Equal);
    // more limbs means a larger magnitude, whatever the top limbs
    let e = Number::new(true, vec![0, 1]);
    let f = Number::new(true, vec![5]);
    assert_eq!(e.cmp_abs(&f), Ordering::Greater);
}

#[test]
fn abs_drops_the_sign_in_place() {
    let mut a = Number::new(false, vec![9]);
    a.abs();
    assert_eq!(a, Number::new(true, vec![9]));
}
