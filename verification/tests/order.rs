use mpfloat::float::Mpf;
use std::cmp::Ordering;

fn whole(precision: usize, value: i64) -> Mpf {
    let mut v = Mpf::new(precision);
    v.set_from_si(value);
    v
}

fn parts(negative: bool, digits: Vec<u64>, exp: i64) -> Mpf {
    Mpf::from_parts(256, negative, digits, exp).unwrap()
}

const HALF: u64 = 1u64 << 63;

/// A spread of values in rising order, no two equal.
fn rising() -> Vec<Mpf> {
    vec![
        parts(true, vec![3], 5),
        parts(true, vec![1, 1], 2),
        parts(true, vec![1], 2),
        whole(32, -7),
        parts(true, vec![HALF, 2], 1),
        whole(64, -2),
        parts(true, vec![HALF], 0),
        parts(true, vec![1], -3),
        Mpf::new(16),
        parts(false, vec![1], -3),
        parts(false, vec![1, HALF], 0),
        whole(8, 1),
        parts(false, vec![HALF, 2], 1),
        whole(128, 7),
        parts(false, vec![u64::MAX], 1),
        parts(false, vec![1], 2),
        parts(false, vec![7, 0, 1], 2),
        parts(false, vec![2], 9),
    ]
}

#[test]
fn compare_orders_by_number() {
    assert_eq!(whole(32, 7).compare(&whole(32, 2)), Ordering::Greater);
    assert_eq!(whole(32, 2).compare(&whole(32, 7)), Ordering::Less);
    assert_eq!(whole(32, -7).compare(&whole(32, 2)), Ordering::Less);
    assert_eq!(whole(32, -7).compare(&whole(32, -9)), Ordering::Greater);
    assert_eq!(whole(32, 0).compare(&Mpf::new(99)), Ordering::Equal);
    assert_eq!(whole(32, 0).compare(&whole(32, -1)), Ordering::Greater);
    assert_eq!(whole(32, 0).compare(&whole(32, 1)), Ordering::Less);
}

#[test]
fn compare_ignores_precision() {
    assert_eq!(whole(32, 5).compare(&whole(64, 5)), Ordering::Equal);
    assert_eq!(whole(1000, -5).compare(&whole(1, -5)), Ordering::Equal);
    assert!(whole(32, 5) == whole(64, 5));
}

#[test]
fn compare_ignores_trailing_zero_digits() {
    let short = parts(false, vec![5], 2);
    let long = parts(false, vec![0, 0, 5], 2);
    assert_eq!(short.compare(&long), Ordering::Equal);
    assert_eq!(long.compare(&short), Ordering::Equal);
    let more = parts(false, vec![1, 0, 5], 2);
    assert_eq!(short.compare(&more), Ordering::Less);
    assert_eq!(more.compare(&short), Ordering::Greater);
    assert_eq!(short.neg().compare(&more.neg()), Ordering::Greater);
}

#[test]
fn compare_reads_the_exponent_first() {
    let small = parts(false, vec![u64::MAX, u64::MAX], 2);
    let big = parts(false, vec![1], 3);
    assert_eq!(small.compare(&big), Ordering::Less);
    assert_eq!(big.compare(&small), Ordering::Greater);
    assert_eq!(small.neg().compare(&big.neg()), Ordering::Greater);
    let tiny = parts(false, vec![u64::MAX], i64::MIN);
    let huge = parts(false, vec![1], i64::MAX);
    assert_eq!(tiny.compare(&huge), Ordering::Less);
}

#[test]
fn compare_is_a_total_order() {
    let all = rising();
    for (i, a) in all.iter().enumerate() {
        for (j, b) in all.iter().enumerate() {
            assert_eq!(a.compare(b), i.cmp(&j), "values {} and {}", i, j);
            assert_eq!(a.compare(b), b.compare(a).reverse());
            assert_eq!(a == b, a.compare(b) == Ordering::Equal);
            assert_eq!(a < b, i < j);
            assert_eq!(a >= b, i >= j);
        }
    }
}

#[test]
fn equal_values_compare_alike_to_a_third() {
    let a = parts(false, vec![0, 9], 1);
    let b = parts(false, vec![9], 1);
    assert!(a == b);
    for c in rising() {
        assert_eq!(a.compare(&c), b.compare(&c));
    }
}

#[test]
fn floor_ceil_trunc_of_two_and_a_half() {
    let v = parts(false, vec![HALF, 2], 1);
    assert!(v.floor() == whole(32, 2));
    assert!(v.ceil() == whole(32, 3));
    assert!(v.trunc() == whole(32, 2));
    let n = v.neg();
    assert!(n.floor() == whole(32, -3));
    assert!(n.ceil() == whole(32, -2));
    assert!(n.trunc() == whole(32, -2));
    assert_eq!(n.floor().get_prec(), 256);
    assert_eq!(n.ceil().get_prec(), 256);
    assert_eq!(n.trunc().get_prec(), 256);
}

#[test]
fn floor_ceil_trunc_below_one() {
    let v = parts(false, vec![HALF], 0);
    assert!(v.floor().is_zero());
    assert!(v.ceil() == whole(32, 1));
    assert!(v.trunc().is_zero());
    let n = v.neg();
    assert!(n.floor() == whole(32, -1));
    assert!(n.ceil().is_zero());
    assert!(!n.ceil().is_negative());
    assert!(n.trunc().is_zero());
    let far = parts(true, vec![1], -40);
    assert!(far.floor() == whole(32, -1));
    assert!(far.ceil().is_zero());
}

#[test]
fn floor_ceil_trunc_keep_whole_numbers() {
    for value in [-9i64, -1, 0, 1, 12, i64::MAX, i64::MIN] {
        let v = whole(80, value);
        assert!(v.floor() == v);
        assert!(v.ceil() == v);
        assert!(v.trunc() == v);
    }
    let big = parts(false, vec![3, 4], 7);
    assert!(big.floor() == big);
    assert!(big.ceil() == big);
    let padded = parts(true, vec![0, 0, 4], 1);
    assert!(padded.floor() == whole(32, -4));
    assert!(padded.ceil() == whole(32, -4));
}

#[test]
fn rounding_away_carries_into_a_new_digit() {
    let v = parts(false, vec![1, u64::MAX, u64::MAX], 2);
    let up = v.ceil();
    assert_eq!(up.digits(), vec![1u64]);
    assert_eq!(up.exponent(), 3);
    assert!(up == parts(false, vec![1], 3));
    assert!(v.floor() == parts(false, vec![u64::MAX, u64::MAX], 2));
    let down = v.neg().floor();
    assert!(down == parts(true, vec![1], 3));
    let mid = parts(false, vec![HALF, u64::MAX, 6], 2);
    assert!(mid.ceil() == parts(false, vec![0, 7], 2));
}

#[test]
fn rounding_twice_changes_nothing() {
    for v in rising() {
        let f = v.floor();
        assert!(f.floor() == f);
        let c = v.ceil();
        assert!(c.ceil() == c);
        let t = v.trunc();
        assert!(t.trunc() == t);
        let a = v.abs();
        assert!(a.abs() == a);
        assert!(f <= v && v <= c);
        assert!(t.abs() <= v.abs());
    }
}

#[test]
fn compare_si_orders_against_whole_numbers() {
    assert_eq!(whole(32, 5).compare_si(5), Ordering::Equal);
    assert_eq!(whole(32, 5).compare_si(6), Ordering::Less);
    assert_eq!(whole(32, 5).compare_si(-6), Ordering::Greater);
    assert_eq!(parts(true, vec![HALF], 0).compare_si(0), Ordering::Less);
    assert_eq!(parts(false, vec![1], 2).compare_si(i64::MAX), Ordering::Greater);
    assert_eq!(Mpf::new(8).compare_si(i64::MIN), Ordering::Greater);
}
