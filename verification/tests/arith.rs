use mpfloat::float::Mpf;

fn num(precision: usize, value: i64) -> Mpf {
    let mut v = Mpf::new(precision);
    v.set_from_si(value);
    v
}

fn raw(negative: bool, digits: Vec<u64>, exp: i64) -> Mpf {
    Mpf::from_parts(128, negative, digits, exp).unwrap()
}

const TOP: u64 = 1u64 << 63;

#[test]
fn add_of_whole_numbers() {
    assert!(num(32, 7).add(&num(32, 2)).unwrap() == num(32, 9));
    assert!(num(32, -7).add(&num(32, 2)).unwrap() == num(32, -5));
    assert!(num(32, 7).add(&num(32, -9)).unwrap() == num(32, -2));
    assert!(num(32, -7).add(&num(32, -2)).unwrap() == num(32, -9));
    assert!(num(32, 7).add(&num(32, -7)).unwrap().is_zero());
    assert!(num(32, 0).add(&num(32, 5)).unwrap() == num(32, 5));
    assert!(num(32, 5).add(&Mpf::new(8)).unwrap() == num(32, 5));
    assert!(Mpf::new(8).add(&Mpf::new(8)).unwrap().is_zero());
}

#[test]
fn add_carries_into_a_new_digit() {
    let a = raw(false, vec![u64::MAX], 1);
    let s = a.add(&num(32, 1)).unwrap();
    assert!(s == raw(false, vec![1], 2));
    let h = raw(false, vec![TOP], 0);
    assert!(h.add(&h).unwrap() == num(32, 1));
}

#[test]
fn add_of_a_far_smaller_number_keeps_the_greater() {
    let big = raw(false, vec![1], 50);
    let tiny = raw(false, vec![1], -50);
    assert!(big.add(&tiny).unwrap() == big);
    assert!(tiny.add(&big).unwrap() == big);
    assert!(Mpf::new(32).add(&tiny).unwrap() == tiny);
}

#[test]
fn sub_of_whole_numbers() {
    assert!(num(32, 7).sub(&num(32, 2)).unwrap() == num(32, 5));
    assert!(num(32, 2).sub(&num(32, 7)).unwrap() == num(32, -5));
    assert!(num(32, -7).sub(&num(32, 2)).unwrap() == num(32, -9));
    assert!(num(32, -7).sub(&num(32, -9)).unwrap() == num(32, 2));
    assert!(num(32, 7).sub(&num(32, 7)).unwrap().is_zero());
    assert!(Mpf::new(32).sub(&num(32, 3)).unwrap() == num(32, -3));
    let two_and_half = raw(false, vec![TOP, 2], 1);
    assert!(num(32, 3).sub(&two_and_half).unwrap() == raw(false, vec![TOP], 0));
}

#[test]
fn mul_of_whole_numbers() {
    assert!(num(32, 7).mul(&num(32, 6)).unwrap() == num(32, 42));
    assert!(num(32, -7).mul(&num(32, 6)).unwrap() == num(32, -42));
    assert!(num(32, -7).mul(&num(32, -6)).unwrap() == num(32, 42));
    assert!(num(32, 0).mul(&num(32, -6)).unwrap().is_zero());
    assert!(!num(32, 0).mul(&num(32, -6)).unwrap().is_negative());
    let big = raw(false, vec![u64::MAX], 1);
    let sq = big.mul(&big).unwrap();
    assert!(sq == raw(false, vec![1, u64::MAX - 1], 2));
    let half = raw(false, vec![TOP], 0);
    assert!(half.mul(&num(32, 5)).unwrap() == raw(false, vec![TOP, 2], 1));
}

#[test]
fn div_of_whole_numbers() {
    assert!(num(32, 42).div(&num(32, 6)).unwrap() == num(32, 7));
    assert!(num(32, -42).div(&num(32, 6)).unwrap() == num(32, -7));
    assert!(num(32, 42).div(&num(32, -6)).unwrap() == num(32, -7));
    assert!(num(32, 0).div(&num(32, -6)).unwrap().is_zero());
    assert!(num(32, 5).div(&num(32, 2)).unwrap() == raw(false, vec![TOP, 2], 1));
    assert!(num(32, 1).div(&num(32, 2)).unwrap() == raw(false, vec![TOP], 0));
    let third = num(64, 1).div(&num(64, 3)).unwrap();
    assert!(third < raw(false, vec![TOP], 0));
    assert!(third > raw(false, vec![TOP / 2], 0));
    assert!(third.mul(&num(64, 3)).unwrap() < num(64, 1));
    assert_eq!(third.digits()[third.digits().len() - 1], 0x5555_5555_5555_5555);
}

#[test]
fn results_take_the_greater_precision() {
    let a = num(32, 10);
    let b = num(64, 3);
    assert_eq!(a.div(&b).unwrap().get_prec(), 64);
    assert_eq!(b.div(&a).unwrap().get_prec(), 64);
    assert_eq!(a.add(&b).unwrap().get_prec(), 64);
    assert_eq!(a.sub(&b).unwrap().get_prec(), 64);
    assert_eq!(a.mul(&b).unwrap().get_prec(), 64);
    assert_eq!(b.mul(&a).unwrap().get_prec(), 64);
    assert_eq!(a.add(&a).unwrap().get_prec(), 32);
}

#[test]
fn exponents_beyond_the_range_give_none() {
    let huge = raw(false, vec![1, 1], i64::MAX);
    assert!(huge.mul(&huge).is_none());
    assert!(huge.add(&huge).is_some());
    let top = raw(false, vec![u64::MAX], i64::MAX);
    assert!(top.add(&top).is_none());
    let tiny = raw(false, vec![1], i64::MIN);
    assert!(tiny.mul(&tiny).is_none());
    assert!(tiny.div(&huge).is_none());
    assert!(huge.div(&tiny).is_none());
}

#[test]
fn rem_is_floored() {
    assert!(num(32, 7).rem(&num(32, 2)).unwrap() == num(32, 1));
    assert!(num(32, -7).rem(&num(32, 2)).unwrap() == num(32, 1));
    assert!(num(32, 7).rem(&num(32, -2)).unwrap() == num(32, -1));
    assert!(num(32, -7).rem(&num(32, -2)).unwrap() == num(32, -1));
    assert!(num(32, 6).rem(&num(32, 3)).unwrap().is_zero());
    assert!(num(32, 0).rem(&num(32, 3)).unwrap().is_zero());
    let x = raw(false, vec![TOP, 7], 1);
    assert!(x.rem(&num(32, 2)).unwrap() == raw(false, vec![TOP, 1], 1));
}

#[test]
fn rem_completes_the_floored_quotient() {
    for a in [-25i64, -7, -1, 0, 1, 7, 12, 1000] {
        for b in [-9i64, -2, 1, 2, 5, 64] {
            let x = num(64, a);
            let y = num(64, b);
            let q = x.div(&y).unwrap().floor();
            let r = x.rem(&y).unwrap();
            assert!(y.mul(&q).unwrap().add(&r).unwrap() == x);
            let m = a.rem_euclid(b.abs());
            let floored = if b < 0 && m != 0 { m + b } else { m };
            assert!(r == num(64, floored));
        }
    }
}

#[test]
fn reldiff_divides_by_the_first_operand() {
    assert!(num(32, 4).reldiff(&num(32, 2)).unwrap() == raw(false, vec![TOP], 0));
    assert!(num(32, 2).reldiff(&num(32, 4)).unwrap() == num(32, 1));
    assert!(num(32, 0).reldiff(&num(32, -4)).unwrap() == num(32, 4));
    assert!(num(32, 3).reldiff(&num(32, 3)).unwrap().is_zero());
    assert!(num(32, -4).reldiff(&num(32, -2)).unwrap() == raw(true, vec![TOP], 0));
    assert_eq!(num(32, 4).reldiff(&num(96, 2)).unwrap().get_prec(), 96);
}

#[test]
fn sqrt_of_squares_is_exact() {
    assert!(num(64, 4).sqrt() == num(64, 2));
    assert!(num(64, 1).sqrt() == num(64, 1));
    assert!(num(64, 144).sqrt() == num(64, 12));
    assert!(raw(false, vec![1], 3).sqrt() == raw(false, vec![1], 2));
    assert!(raw(false, vec![TOP / 2], 0).sqrt() == raw(false, vec![TOP], 0));
    assert_eq!(num(77, 9).sqrt().get_prec(), 77);
}

#[test]
fn sqrt_of_two_lies_just_below() {
    let r = num(64, 2).sqrt();
    assert!(r > num(64, 1) && r < num(64, 2));
    let sq = r.mul(&r).unwrap();
    assert!(sq < num(64, 2));
    assert!(num(64, 2).sub(&sq).unwrap() < raw(false, vec![3], -1));
    assert_eq!(r.digits()[r.digits().len() - 1], 1);
    assert_eq!(r.digits()[r.digits().len() - 2], 0x6a09_e667_f3bc_c908);
}

#[test]
fn set_prec_keeps_what_fits() {
    let mut v = raw(true, vec![1, 2, 3], 2);
    v.set_prec(300);
    assert_eq!(v.get_prec(), 300);
    assert_eq!(v.digits(), vec![1u64, 2, 3]);
    assert_eq!(v.exponent(), 2);
    assert!(v.is_negative());
    let mut z = Mpf::new(500);
    z.set_prec(1);
    assert_eq!(z.get_prec(), 1);
    assert!(z.is_zero());
}

#[test]
fn set_prec_rounds_to_nearest() {
    let wide = |low: u64| Mpf::from_parts(256, false, vec![9, low, 5, 6, 7], 3).unwrap();
    let mut down = wide(TOP - 1);
    down.set_prec(32);
    assert_eq!(down.digits(), vec![5u64, 6, 7]);
    assert_eq!(down.exponent(), 3);
    let mut up = wide(TOP);
    up.set_prec(32);
    assert_eq!(up.digits(), vec![6u64, 6, 7]);
    assert_eq!(up.get_prec(), 32);
    let mut carry = Mpf::from_parts(256, true, vec![u64::MAX, u64::MAX, u64::MAX, u64::MAX], 1).unwrap();
    carry.set_prec(64);
    assert_eq!(carry.digits(), vec![1u64]);
    assert_eq!(carry.exponent(), 2);
    assert!(carry.is_negative());
    let mut stuck = Mpf::from_parts(256, false, vec![u64::MAX, u64::MAX, u64::MAX, u64::MAX], i64::MAX).unwrap();
    stuck.set_prec(64);
    assert_eq!(stuck.digits(), vec![u64::MAX, u64::MAX, u64::MAX]);
    assert_eq!(stuck.exponent(), i64::MAX);
}

#[test]
fn set_z_and_set_q_take_digits() {
    let mut v = Mpf::new(64);
    v.set_z(true, &vec![5, 0, 0]);
    assert!(v == num(64, -5));
    v.set_z(false, &vec![]);
    assert!(v.is_zero());
    v.set_z(false, &vec![1, 2, 3, 4, 5]);
    assert_eq!(v.digits(), vec![3u64, 4, 5]);
    assert_eq!(v.exponent(), 5);
    assert_eq!(v.get_prec(), 64);
    let mut q = Mpf::new(64);
    assert!(q.set_q(true, &vec![5], &vec![2]));
    assert!(q == raw(true, vec![TOP, 2], 1));
    assert!(q.set_q(false, &vec![0], &vec![7]));
    assert!(q.is_zero());
}

#[test]
fn abs_sub_is_the_magnitude_of_the_difference() {
    assert!(num(32, 7).abs_sub(&num(32, 9)).unwrap() == num(32, 2));
    assert!(num(32, 9).abs_sub(&num(32, 7)).unwrap() == num(32, 2));
    assert!(num(32, -9).abs_sub(&num(32, 7)).unwrap() == num(32, 16));
    assert!(num(32, 4).abs_sub(&num(32, 4)).unwrap().is_zero());
    assert_eq!(num(32, 4).abs_sub(&num(80, 4)).unwrap().get_prec(), 80);
}

#[test]
fn assigning_operations_keep_the_receiver_precision() {
    let mut a = num(32, 10);
    assert!(a.add_assign(&num(640, 3)));
    assert!(a == num(32, 13));
    assert_eq!(a.get_prec(), 32);
    assert!(a.sub_assign(&num(640, 20)));
    assert!(a == num(32, -7));
    assert_eq!(a.get_prec(), 32);
    assert!(a.mul_assign(&num(640, -6)));
    assert!(a == num(32, 42));
    assert_eq!(a.get_prec(), 32);
    assert!(a.div_assign(&num(640, 7)));
    assert!(a == num(32, 6));
    assert_eq!(a.get_prec(), 32);
    let third = num(640, 1).div(&num(640, 3)).unwrap();
    let mut b = num(32, 1);
    assert!(b.div_assign(&num(640, 3)));
    assert_eq!(b.get_prec(), 32);
    assert_eq!(b.digits().len(), 3);
    assert!(b <= third);
    assert_eq!(third.get_prec(), 640);
}

#[test]
fn assigning_operations_leave_the_value_on_overflow() {
    let mut top = raw(false, vec![u64::MAX], i64::MAX);
    let same = top.clone();
    assert!(!top.add_assign(&same));
    assert!(top == same);
    assert!(!top.mul_assign(&same));
    assert!(top == same);
    assert_eq!(top.exponent(), i64::MAX);
}
