use simplex_lp::rat::Rat;

#[test]
fn new_reduces_to_lowest_terms() {
    let r = Rat::new(6, 4).unwrap();
    assert_eq!(r.num, 3);
    assert_eq!(r.den, 2);
    let r = Rat::new(-6, 4).unwrap();
    assert_eq!(r.num, -3);
    assert_eq!(r.den, 2);
    let r = Rat::new(6, -4).unwrap();
    assert_eq!(r.num, -3);
    assert_eq!(r.den, 2);
    let r = Rat::new(0, 7).unwrap();
    assert_eq!(r.num, 0);
    assert_eq!(r.den, 1);
}

#[test]
fn new_rejects_zero_denominator() {
    assert_eq!(Rat::new(1, 0), None);
}

#[test]
fn new_rejects_unreducible_extreme() {
    assert_eq!(Rat::new(i64::MIN, 1), None);
    assert!(Rat::new(i64::MIN, 2).is_some());
    assert_eq!(Rat::new(i64::MIN, 2).unwrap().num, -(1i64 << 62));
}

#[test]
fn add_and_sub_are_exact() {
    let a = Rat::new(1, 3).unwrap();
    let b = Rat::new(1, 6).unwrap();
    let s = a.add(b).unwrap();
    assert_eq!((s.num, s.den), (1, 2));
    let d = a.sub(b).unwrap();
    assert_eq!((d.num, d.den), (1, 6));
}

#[test]
fn mul_and_div_are_exact() {
    let a = Rat::new(2, 3).unwrap();
    let b = Rat::new(9, 4).unwrap();
    let p = a.mul(b).unwrap();
    assert_eq!((p.num, p.den), (3, 2));
    let q = a.div(b).unwrap();
    assert_eq!((q.num, q.den), (8, 27));
    let neg = Rat::new(-9, 4).unwrap();
    let q = a.div(neg).unwrap();
    assert_eq!((q.num, q.den), (-8, 27));
}

#[test]
fn arithmetic_out_of_range_is_none() {
    let big = Rat::from_int(i64::MAX);
    assert_eq!(big.mul(big), None);
    assert_eq!(big.add(Rat::from_int(1)), None);
}

#[test]
fn comparisons_are_value_comparisons() {
    let half = Rat::new(1, 2).unwrap();
    let two_quarters = Rat { num: 2, den: 4 };
    let third = Rat::new(1, 3).unwrap();
    assert!(half.eq_value(two_quarters));
    assert!(third.lt(half));
    assert!(third.le(half));
    assert!(!half.lt(two_quarters));
    assert!(half.le(two_quarters));
    assert!(Rat::from_int(-1).is_neg());
    assert!(Rat::from_int(1).is_pos());
    assert!(Rat::zero().is_zero());
}

#[test]
fn negation_flips_the_sign() {
    let a = Rat::new(5, 7).unwrap();
    let n = a.neg();
    assert_eq!((n.num, n.den), (-5, 7));
    assert!(n.neg().eq_value(a));
    assert_eq!(Rat::zero().neg().num, 0);
}
