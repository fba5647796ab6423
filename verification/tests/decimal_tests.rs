use redeem_logic_farming::decimal::Dec;

fn d(m: u64, scale: u32) -> Dec {
    Dec::new(m, scale)
}

// Value equality, ignoring the representation's scale.
fn same_value(a: &Dec, b: &Dec) -> bool {
    a.le(b) && b.le(a)
}

#[test]
fn test_new_parts() {
    let x = d(21213, 4);
    assert_eq!(x.lo, 21213);
    assert_eq!(x.mid, 0);
    assert_eq!(x.hi, 0);
    assert_eq!(x.scale, 4);
    assert!(!x.neg);
    let wide = d(u64::MAX, 0);
    assert_eq!(wide.lo, u32::MAX);
    assert_eq!(wide.mid, u32::MAX);
    assert_eq!(wide.hi, 0);
}

#[test]
fn test_checked_add_exact() {
    let r = d(15, 1).checked_add(&d(225, 2)).unwrap();
    assert_eq!(r, d(375, 2));
}

#[test]
fn test_checked_sub_exact() {
    let r = d(225, 2).checked_sub(&d(15, 1)).unwrap();
    assert_eq!(r, d(75, 2));
    // Crossing zero turns the sign.
    let n = d(15, 1).checked_sub(&d(225, 2)).unwrap();
    assert!(n.neg);
    assert!(same_value(
        &n,
        &Dec { lo: 75, mid: 0, hi: 0, scale: 2, neg: true }
    ));
}

#[test]
fn test_checked_mul_exact() {
    let r = d(15, 1).checked_mul(&d(225, 2)).unwrap();
    assert!(same_value(&r, &d(3375, 3)));
}

#[test]
fn test_checked_mul_overflow() {
    let big = d(u64::MAX, 0);
    let mut acc = big;
    for _ in 0..3 {
        match acc.checked_mul(&big) {
            Some(v) => acc = v,
            None => return,
        }
    }
    panic!("multiplication chain must overflow");
}

#[test]
fn test_checked_div() {
    let r = d(1, 0).checked_div(&d(8, 0)).unwrap();
    assert!(same_value(&r, &d(125, 3)));
    assert!(d(1, 0).checked_div(&d(0, 0)).is_none());
    // An inexact quotient is still within one ulp: 2/3 floored over one
    // million units.
    let t = d(2, 0).checked_div(&d(3, 0)).unwrap();
    let scaled = t.checked_mul(&d(1_000_000, 0)).unwrap();
    assert_eq!(scaled.floor().to_u64(), Some(666_666));
}

#[test]
fn test_sqrt() {
    let r = d(4, 0).sqrt().unwrap();
    assert!(same_value(&r, &d(2, 0)));
    let minus_one = Dec { lo: 1, mid: 0, hi: 0, scale: 0, neg: true };
    assert!(minus_one.sqrt().is_none());
    // sqrt(2) lies strictly between 1.41421356 and 1.41421357.
    let s = d(2, 0).sqrt().unwrap();
    assert!(d(141421356, 8).le(&s));
    assert!(s.le(&d(141421357, 8)));
}

#[test]
fn test_floor_to_u64() {
    assert_eq!(d(37, 1).floor().to_u64(), Some(3));
    assert_eq!(d(30, 1).floor().to_u64(), Some(3));
    assert_eq!(d(0, 0).floor().to_u64(), Some(0));
    let minus_37 = Dec { lo: 37, mid: 0, hi: 0, scale: 1, neg: true };
    // floor(-3.7) == -4, which a u64 cannot hold.
    assert_eq!(minus_37.floor().to_u64(), None);
}

#[test]
fn test_le_min_max() {
    assert!(d(15, 1).le(&d(225, 2)));
    assert!(!d(225, 2).le(&d(15, 1)));
    assert!(d(10, 1).le(&d(1, 0)));
    assert!(d(1, 0).le(&d(10, 1)));
    assert_eq!(d(15, 1).min(d(225, 2)), d(15, 1));
    assert_eq!(d(15, 1).max(d(225, 2)), d(225, 2));
    // Ties keep the receiver's representation.
    assert_eq!(d(10, 1).min(d(1, 0)), d(10, 1));
    assert_eq!(d(10, 1).max(d(1, 0)), d(10, 1));
}

#[test]
fn test_is_zero_is_neg() {
    assert!(d(0, 0).is_zero());
    assert!(d(0, 17).is_zero());
    assert!(!d(1, 28).is_zero());
    assert!(!d(0, 0).is_neg());
    assert!(!d(5, 1).is_neg());
    let minus_five_tenths = Dec { lo: 5, mid: 0, hi: 0, scale: 1, neg: true };
    assert!(minus_five_tenths.is_neg());
    let negative_zero = Dec { lo: 0, mid: 0, hi: 0, scale: 1, neg: true };
    assert!(!negative_zero.is_neg());
    assert!(negative_zero.is_zero());
}
