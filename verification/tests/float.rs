use mpfloat::error::ParseMpfError;
use mpfloat::float::Mpf;
use mpfloat::rules::{
    check_status, check_text, checked_radix, division_defined, result_precision,
    square_root_defined,
};
use mpfloat::sign::Sign;

fn whole(precision: usize, value: i64) -> Mpf {
    let mut v = Mpf::new(precision);
    v.set_from_si(value);
    v
}

#[test]
fn new_keeps_the_requested_precision() {
    for p in [1usize, 2, 31, 32, 53, 64, 65, 128, 1000, 100_000] {
        let v = Mpf::new(p);
        assert_eq!(v.get_prec(), p);
        assert_eq!(v.sign(), Sign::Zero);
        assert!(v.digits().is_empty());
        assert_eq!(v.exponent(), 0);
    }
}

#[test]
fn zero_has_default_precision() {
    let z = Mpf::zero();
    assert_eq!(z.get_prec(), 32);
    assert!(z.is_zero());
    assert!(!z.is_positive());
    assert!(!z.is_negative());
}

#[test]
fn one_is_one_at_default_precision() {
    let o = Mpf::one();
    assert_eq!(o.get_prec(), 32);
    assert_eq!(o.sign(), Sign::Positive);
    assert_eq!(o.digits(), vec![1u64]);
    assert_eq!(o.exponent(), 1);
}

#[test]
fn set_from_si_stores_sign_and_magnitude() {
    let v = whole(64, -5);
    assert_eq!(v.get_prec(), 64);
    assert_eq!(v.sign(), Sign::Negative);
    assert!(v.is_negative());
    assert_eq!(v.digits(), vec![5u64]);
    assert_eq!(v.exponent(), 1);

    let w = whole(64, 7);
    assert_eq!(w.sign(), Sign::Positive);
    assert_eq!(w.digits(), vec![7u64]);

    let z = whole(64, 0);
    assert_eq!(z.sign(), Sign::Zero);
    assert!(z.digits().is_empty());
    assert_eq!(z.exponent(), 0);
}

#[test]
fn set_from_si_takes_the_extremes() {
    let lo = whole(64, i64::MIN);
    assert_eq!(lo.sign(), Sign::Negative);
    assert_eq!(lo.digits(), vec![1u64 << 63]);
    let hi = whole(64, i64::MAX);
    assert_eq!(hi.sign(), Sign::Positive);
    assert_eq!(hi.digits(), vec![i64::MAX as u64]);
}

#[test]
fn set_from_si_replaces_an_earlier_value() {
    let mut v = whole(40, -9);
    v.set_from_si(3);
    assert_eq!(v.get_prec(), 40);
    assert_eq!(v.sign(), Sign::Positive);
    assert_eq!(v.digits(), vec![3u64]);
}

#[test]
fn neg_flips_the_sign_and_keeps_zero() {
    let v = whole(48, 12);
    let n = v.neg();
    assert_eq!(n.get_prec(), 48);
    assert_eq!(n.sign(), Sign::Negative);
    assert_eq!(n.digits(), vec![12u64]);
    assert_eq!(n.exponent(), 1);
    let back = n.neg();
    assert_eq!(back.sign(), Sign::Positive);
    assert_eq!(back.digits(), vec![12u64]);
    let z = Mpf::new(48).neg();
    assert_eq!(z.sign(), Sign::Zero);
    assert!(!z.is_negative());
}

#[test]
fn abs_clears_the_sign() {
    let v = whole(48, -12);
    let a = v.abs();
    assert_eq!(a.get_prec(), 48);
    assert_eq!(a.sign(), Sign::Positive);
    assert_eq!(a.digits(), vec![12u64]);
    let twice = a.abs();
    assert_eq!(twice.sign(), a.sign());
    assert_eq!(twice.digits(), a.digits());
    assert_eq!(twice.exponent(), a.exponent());
    assert_eq!(Mpf::new(8).abs().sign(), Sign::Zero);
}

#[test]
fn signum_matches_sign() {
    let n = whole(100, -44).signum();
    assert_eq!(n.get_prec(), 100);
    assert_eq!(n.sign(), Sign::Negative);
    assert_eq!(n.digits(), vec![1u64]);
    let p = whole(100, 44).signum();
    assert_eq!(p.sign(), Sign::Positive);
    assert_eq!(p.digits(), vec![1u64]);
    let z = Mpf::new(100).signum();
    assert_eq!(z.get_prec(), 100);
    assert_eq!(z.sign(), Sign::Zero);
}

#[test]
fn clone_copies_precision_and_value() {
    let v = whole(77, -3);
    let mut c = v.clone();
    assert_eq!(c.get_prec(), 77);
    assert_eq!(c.sign(), Sign::Negative);
    assert_eq!(c.digits(), vec![3u64]);
    c.set_from_si(8);
    assert_eq!(v.digits(), vec![3u64]);
    assert_eq!(v.sign(), Sign::Negative);
}

#[test]
fn from_parts_accepts_only_well_formed_parts() {
    assert!(Mpf::from_parts(0, false, vec![], 0).is_none());
    assert!(Mpf::from_parts(32, true, vec![], 0).is_none());
    assert!(Mpf::from_parts(32, false, vec![], 1).is_none());
    assert!(Mpf::from_parts(32, false, vec![1, 0], 2).is_none());
    assert!(Mpf::from_parts(32, false, vec![1, 2, 3, 4], 4).is_none());
    assert!(Mpf::from_parts(65, false, vec![1, 2, 3, 4], 4).is_some());
    let v = Mpf::from_parts(32, true, vec![0, 9], -3).unwrap();
    assert_eq!(v.get_prec(), 32);
    assert_eq!(v.sign(), Sign::Negative);
    assert_eq!(v.digits(), vec![0u64, 9]);
    assert_eq!(v.exponent(), -3);
}

#[test]
fn set_keeps_the_destination_precision() {
    let wide = Mpf::from_parts(256, true, vec![1, 2, 3, 4, 5, 6], 2).unwrap();
    let mut narrow = Mpf::new(32);
    narrow.set(&wide);
    assert_eq!(narrow.get_prec(), 32);
    assert_eq!(narrow.sign(), Sign::Negative);
    assert_eq!(narrow.digits(), vec![4u64, 5, 6]);
    assert_eq!(narrow.exponent(), 2);

    let mut roomy = Mpf::new(512);
    roomy.set(&wide);
    assert_eq!(roomy.get_prec(), 512);
    assert_eq!(roomy.digits(), vec![1u64, 2, 3, 4, 5, 6]);
    assert_eq!(roomy.exponent(), 2);

    let mut cleared = whole(32, 5);
    cleared.set(&Mpf::new(64));
    assert_eq!(cleared.get_prec(), 32);
    assert_eq!(cleared.sign(), Sign::Zero);
}

#[test]
fn result_precision_is_the_greater() {
    let a = whole(32, 10);
    let b = whole(64, 3);
    assert_eq!(result_precision(&a, &b), 64);
    assert_eq!(result_precision(&b, &a), 64);
    assert_eq!(result_precision(&a, &a), 32);
}

#[test]
fn division_needs_a_divisor_other_than_zero() {
    assert!(!division_defined(&Mpf::new(32)));
    assert!(!division_defined(&whole(32, 0)));
    assert!(division_defined(&whole(32, 2)));
    assert!(division_defined(&whole(32, -2)));
}

#[test]
fn square_root_needs_a_positive_operand() {
    assert!(!square_root_defined(&whole(64, -5)));
    assert!(!square_root_defined(&Mpf::new(64)));
    assert!(square_root_defined(&whole(64, 4)));
}

#[test]
fn sign_of_a_size_field() {
    assert_eq!(Sign::of_size(0), Sign::Zero);
    assert_eq!(Sign::of_size(3), Sign::Positive);
    assert_eq!(Sign::of_size(-3), Sign::Negative);
    assert_eq!(Sign::of_size(i32::MIN), Sign::Negative);
    assert_eq!(Sign::Negative.signum(), -1);
    assert_eq!(Sign::Zero.signum(), 0);
    assert_eq!(Sign::Positive.signum(), 1);
}

#[test]
fn parse_error_describes_itself() {
    let e = ParseMpfError::new();
    assert_eq!(e.description(), "invalid rational number");
}

#[test]
fn text_with_a_zero_byte_is_refused() {
    assert!(check_text("3.14").is_ok());
    assert!(check_text("").is_ok());
    assert!(check_text("-1e5").is_ok());
    assert!(check_text("3.\u{0}14").is_err());
    assert!(check_text("\u{0}").is_err());
    assert!(check_text("12\u{0}").is_err());
}

#[test]
fn only_status_zero_is_success() {
    assert!(check_status(0).is_ok());
    assert!(check_status(-1).is_err());
    assert!(check_status(1).is_err());
    assert!(check_status(i32::MIN).is_err());
}

#[test]
fn radix_must_fit_a_signed_integer() {
    assert_eq!(checked_radix(10), Some(10));
    assert_eq!(checked_radix(0), Some(0));
    assert_eq!(checked_radix(62), Some(62));
    assert_eq!(checked_radix(i32::MAX as u32), Some(i32::MAX));
    assert_eq!(checked_radix(i32::MAX as u32 + 1), None);
    assert_eq!(checked_radix(u32::MAX), None);
}
