use wfst::semiring::{BooleanWeight, Semiring};

#[test]
fn test_boolean_weight() {
    let b_true = BooleanWeight::new(true);
    let b_false = BooleanWeight::new(false);

    // Test plus
    assert_eq!(b_true.plus(&b_true), b_true);
    assert_eq!(b_true.plus(&b_false), b_true);
    assert_eq!(b_false.plus(&b_true), b_true);
    assert_eq!(b_false.plus(&b_false), b_false);

    // Test times
    assert_eq!(b_true.times(&b_true), b_true);
    assert_eq!(b_true.times(&b_false), b_false);
    assert_eq!(b_false.times(&b_true), b_false);
    assert_eq!(b_false.times(&b_false), b_false);
}

#[test]
fn test_boolean_weight_sum() {
    let b_true = BooleanWeight::new(true);
    let b_false = BooleanWeight::new(false);

    println!("LOL : {:?}", b_true.clone() + b_false.clone());
    println!("LOL : {:?}", b_true * b_false);
}

#[test]
fn boolean_weight_identities() {
    let t = BooleanWeight::one();
    let f = BooleanWeight::zero();
    assert!(t.is_one() && !t.is_zero());
    assert!(f.is_zero() && !f.is_one());
    assert_eq!(t + f, t);
    assert_eq!(t * f, f);
    assert_eq!(BooleanWeight::new(true).value(), true);
}
