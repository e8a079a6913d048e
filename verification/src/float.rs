//! The floating-point value: a sign, a magnitude held as base-2^64 digits, a
//! digit exponent, and the precision that its storage retains.

use vstd::prelude::*;
use std::cmp::Ordering;
use vstd::arithmetic::div_mod::lemma_fundamental_div_mod_converse;
use crate::digits::add_digits;
use crate::digits::compare_aligned;
use crate::digits::divide;
use crate::digits::has_nonzero_below;
use crate::digits::increment;
use crate::digits::lemma_count_bound;
use crate::digits::lemma_digit_count;
use crate::digits::lemma_magnitude_bound;
use crate::digits::lemma_magnitude_lower_bound;
use crate::digits::lemma_magnitude_single;
use crate::digits::lemma_magnitude_split;
use crate::digits::lemma_magnitude_zero;
use crate::digits::lemma_pow64_positive;
use crate::digits::lemma_window;
use crate::digits::magnitude;
use crate::digits::multiply;
use crate::digits::pow64;
use crate::digits::square_root;
use crate::digits::sub_digits;
use crate::digits::take_window;
use crate::digits::top_digits;
use crate::rules::joint_precision;
use crate::sign::Sign;
use crate::value::digit_capacity;
use crate::value::lemma_difference_cases;
use crate::value::lemma_rounded;
use crate::value::lemma_whole_part;
use crate::value::MpfView;

verus! {

/// A floating-point number of chosen precision.
pub struct Mpf {
    prec: usize,
    negative: bool,
    limbs: Vec<u64>,
    exp: i64,
}

impl View for Mpf {
    type V = MpfView;

    closed spec fn view(&self) -> MpfView {
        MpfView {
            prec: self.prec as nat,
            negative: self.negative,
            digits: self.limbs@,
            exp: self.exp as int,
        }
    }
}

/// The digit capacity of storage of `prec` bits, as a machine integer.
fn capacity(prec: usize) -> (n: usize)
    requires
        prec >= 1,
    ensures
        n as nat == digit_capacity(prec as nat),
{
    (prec - 1) / 64 + 3
}

impl Mpf {
    #[verifier::type_invariant]
    spec fn inv(&self) -> bool {
        self@.well_formed()
    }

    /// Zero, with storage for `precision` bits.
    pub fn new(precision: usize) -> (r: Mpf)
        requires
            precision >= 1,
        ensures
            r@ == MpfView::zero(precision as nat),
    {
        Mpf { prec: precision, negative: false, limbs: Vec::new(), exp: 0 }
    }

    /// Zero, at the default precision of 32 bits.
    pub fn zero() -> (r: Mpf)
        ensures
            r@ == MpfView::zero(32),
    {
        Mpf::new(32)
    }

    /// One, at the default precision of 32 bits.
    pub fn one() -> (r: Mpf)
        ensures
            r@ == MpfView::of_int(32, 1),
    {
        let mut r = Mpf::new(32);
        r.set_from_si(1);
        r
    }

    /// The precision in bits.
    pub fn get_prec(&self) -> (p: usize)
        ensures
            p as nat == self@.prec,
            p >= 1,
    {
        proof {
            use_type_invariant(self);
        }
        self.prec
    }

    /// The value with the given sign, digits and exponent at `precision`, or
    /// `None` where these are not the parts of a well-formed value.
    pub fn from_parts(precision: usize, negative: bool, digits: Vec<u64>, exp: i64) -> (r: Option<
        Mpf,
    >)
        ensures
            r.is_some() <==> (MpfView {
                prec: precision as nat,
                negative,
                digits: digits@,
                exp: exp as int,
            }).well_formed(),
            r.is_some() ==> r.unwrap()@ == (MpfView {
                prec: precision as nat,
                negative,
                digits: digits@,
                exp: exp as int,
            }),
    {
        if precision == 0 {
            return None;
        }
        let n: usize = digits.len();
        if n > capacity(precision) {
            return None;
        }
        if n == 0 {
            if negative || exp != 0 {
                return None;
            }
        } else if digits[n - 1] == 0 {
            return None;
        }
        Some(Mpf { prec: precision, negative, limbs: digits, exp })
    }

    /// A copy of the magnitude's digits, least significant first.
    pub fn digits(&self) -> (d: Vec<u64>)
        ensures
            d@ == self@.digits,
    {
        let d = self.limbs.clone();
        assert(d@ =~= self.limbs@);
        d
    }

    /// The number of digits before the radix point.
    pub fn exponent(&self) -> (e: i64)
        ensures
            e as int == self@.exp,
    {
        self.exp
    }

    /// Stores the value of `other`, keeping the precision: where `other`
    /// holds more digits than this storage can, the least significant ones
    /// are dropped.
    pub fn set(&mut self, other: &Mpf)
        ensures
            final(self)@ == other@.with_precision(old(self)@.prec),
    {
        proof {
            use_type_invariant(&*self);
            use_type_invariant(other);
        }
        let prec: usize = self.prec;
        let n: usize = other.limbs.len();
        let keep: usize = capacity(prec);
        let start: usize = if n > keep {
            n - keep
        } else {
            0
        };
        let mut limbs: Vec<u64> = Vec::new();
        let mut i: usize = start;
        while i < n
            invariant
                start <= i <= n,
                n == other.limbs@.len(),
                limbs@ == other.limbs@.subrange(start as int, i as int),
            decreases n - i,
        {
            limbs.push(other.limbs[i]);
            assert(limbs@ =~= other.limbs@.subrange(start as int, i + 1));
            i = i + 1;
        }
        assert(limbs@ =~= top_digits(other.limbs@, digit_capacity(prec as nat)));
        *self = Mpf { prec, negative: other.negative, limbs, exp: other.exp };
    }

    /// Resizes the storage to `precision` bits. Where the value has more
    /// digits than the new storage holds, it is rounded to the nearest value
    /// that fits, a tie going away from zero; its sign stays, and zero stays
    /// zero.
    pub fn set_prec(&mut self, precision: usize)
        requires
            precision >= 1,
        ensures
            final(self)@.is_rounding_of(old(self)@, precision as nat),
    {
        proof {
            use_type_invariant(&*self);
        }
        let n: usize = self.limbs.len();
        let keep: usize = capacity(precision);
        if n <= keep {
            let limbs = self.limbs.clone();
            assert(limbs@ =~= self.limbs@);
            *self = Mpf { prec: precision, negative: self.negative, limbs, exp: self.exp };
            return ;
        }
        let start: usize = n - keep;
        let mut kept: Vec<u64> = Vec::new();
        let mut i: usize = start;
        while i < n
            invariant
                start <= i <= n,
                n == self.limbs@.len(),
                kept@ == self.limbs@.subrange(start as int, i as int),
            decreases n - i,
        {
            kept.push(self.limbs[i]);
            assert(kept@ =~= self.limbs@.subrange(start as int, i + 1));
            i = i + 1;
        }
        assert(kept@ =~= self.limbs@.skip(start as int));
        if self.limbs[start - 1] < 0x8000_0000_0000_0000 {
            *self = Mpf { prec: precision, negative: self.negative, limbs: kept, exp: self.exp };
            return ;
        }
        let (more, carry) = increment(&kept);
        proof {
            lemma_magnitude_bound(more@);
            lemma_magnitude_bound(kept@);
        }
        if !carry {
            *self = Mpf { prec: precision, negative: self.negative, limbs: more, exp: self.exp };
        } else if self.exp < i64::MAX {
            let mut top: Vec<u64> = Vec::new();
            top.push(1);
            assert(top@ =~= seq![1u64]);
            *self = Mpf { prec: precision, negative: self.negative, limbs: top, exp: self.exp + 1 };
        } else {
            *self = Mpf { prec: precision, negative: self.negative, limbs: kept, exp: self.exp };
        }
    }

    /// Stores the whole number `±magnitude(digits)`, given by its sign and its
    /// digits in base 2^64, least significant first, keeping the precision.
    pub fn set_z(&mut self, negative: bool, digits: &Vec<u64>)
        requires
            digits@.len() <= i64::MAX,
        ensures
            final(self)@.is_integer(old(self)@.prec, negative, digits@),
    {
        proof {
            use_type_invariant(&*self);
            lemma_magnitude_bound(digits@);
            lemma_count_bound(magnitude(digits@), digits@.len());
        }
        match Mpf::from_magnitude(self.prec, negative, digits, 0) {
            Some(v) => {
                proof {
                    use_type_invariant(&v);
                }
                *self = v;
            },
            None => vstd::pervasive::unreached(),
        }
    }

    /// Stores the quotient of two whole numbers, each given by its digits in
    /// base 2^64, least significant first: both are stored at this precision
    /// and then divided. The denominator is not zero. Returns whether the
    /// quotient's exponent fits the machine's range; where it does not, the
    /// value is unchanged.
    pub fn set_q(&mut self, negative: bool, numerator: &Vec<u64>, denominator: &Vec<u64>) -> (done:
        bool)
        requires
            numerator@.len() <= i64::MAX,
            denominator@.len() <= i64::MAX,
            magnitude(denominator@) > 0,
        ensures
            exists|n: MpfView, d: MpfView| #[trigger]
                n.is_integer(old(self)@.prec, negative, numerator@) && #[trigger] d.is_integer(
                    old(self)@.prec,
                    false,
                    denominator@,
                ) && if done {
                    final(self)@.is_quotient_of(n, d)
                } else {
                    final(self)@ == old(self)@ && !MpfView::representable(
                        n.quotient_count(d),
                        n.quotient_unit(d),
                    )
                },
    {
        proof {
            use_type_invariant(&*self);
        }
        let mut n = Mpf::new(self.prec);
        n.set_z(negative, numerator);
        let mut d = Mpf::new(self.prec);
        d.set_z(false, denominator);
        proof {
            assert(d@.digits.len() > 0);
        }
        match n.div(&d) {
            Some(v) => {
                proof {
                    use_type_invariant(&v);
                }
                *self = v;
                true
            },
            None => false,
        }
    }

    /// Stores the whole number `value`, keeping the precision.
    pub fn set_from_si(&mut self, value: i64)
        ensures
            final(self)@ == MpfView::of_int(old(self)@.prec, value as int),
    {
        proof {
            use_type_invariant(&*self);
        }
        let prec: usize = self.prec;
        if value == 0 {
            *self = Mpf { prec, negative: false, limbs: Vec::new(), exp: 0 };
        } else {
            let digit: u64 = if value == i64::MIN {
                0x8000_0000_0000_0000u64
            } else if value < 0 {
                (-value) as u64
            } else {
                value as u64
            };
            let mut limbs: Vec<u64> = Vec::new();
            limbs.push(digit);
            assert(limbs@ =~= seq![digit]);
            *self = Mpf { prec, negative: value < 0, limbs, exp: 1 };
        }
    }

    /// The sign, read off the stored digits and polarity.
    pub fn sign(&self) -> (s: Sign)
        ensures
            s == self@.sign(),
    {
        if self.limbs.len() == 0 {
            Sign::Zero
        } else if self.negative {
            Sign::Negative
        } else {
            Sign::Positive
        }
    }

    /// Whether the value is zero.
    pub fn is_zero(&self) -> (b: bool)
        ensures
            b == (self@.sign() == Sign::Zero),
    {
        self.limbs.len() == 0
    }

    /// Whether the value is above zero.
    pub fn is_positive(&self) -> (b: bool)
        ensures
            b == (self@.sign() == Sign::Positive),
    {
        self.limbs.len() != 0 && !self.negative
    }

    /// Whether the value is below zero.
    pub fn is_negative(&self) -> (b: bool)
        ensures
            b == (self@.sign() == Sign::Negative),
    {
        self.limbs.len() != 0 && self.negative
    }

    /// Orders two values by the numbers they stand for, whatever their
    /// precisions.
    pub fn compare(&self, other: &Mpf) -> (r: Ordering)
        ensures
            (r == Ordering::Less) == (self@.difference(other@) < 0),
            (r == Ordering::Equal) == (self@.difference(other@) == 0),
            (r == Ordering::Greater) == (self@.difference(other@) > 0),
    {
        proof {
            use_type_invariant(self);
            use_type_invariant(other);
            lemma_difference_cases(self@, other@);
        }
        let ua: i64 = self.sign().signum();
        let ub: i64 = other.sign().signum();
        if ua < ub {
            return Ordering::Less;
        }
        if ua > ub {
            return Ordering::Greater;
        }
        if ua == 0 {
            return Ordering::Equal;
        }
        let m: i8 = if self.exp > other.exp {
            1
        } else if self.exp < other.exp {
            -1
        } else {
            compare_aligned(&self.limbs, &other.limbs)
        };
        let d: i8 = if ua > 0 {
            m
        } else {
            -m
        };
        assert(self@.difference(other@) * self@.sign().unit() == self@.difference(other@) * ua)
            by (nonlinear_arith)
            requires
                self@.sign().unit() == ua,
        ;
        assert((d < 0) == (self@.difference(other@) < 0) && (d > 0) == (self@.difference(other@)
            > 0)) by (nonlinear_arith)
            requires
                ua == 1 || ua == -1,
                ua == 1 ==> d == m,
                ua == -1 ==> d == -m,
                (m > 0) == (self@.difference(other@) * ua > 0),
                (m < 0) == (self@.difference(other@) * ua < 0),
        ;
        if d < 0 {
            Ordering::Less
        } else if d > 0 {
            Ordering::Greater
        } else {
            Ordering::Equal
        }
    }

    /// Orders the value against a whole number.
    pub fn compare_si(&self, other: i64) -> (r: Ordering)
        ensures
            (r == Ordering::Less) == (self@.difference(MpfView::of_i64(64, other)) < 0),
            (r == Ordering::Equal) == (self@.difference(MpfView::of_i64(64, other)) == 0),
            (r == Ordering::Greater) == (self@.difference(MpfView::of_i64(64, other)) > 0),
    {
        let mut whole = Mpf::new(64);
        whole.set_from_si(other);
        self.compare(&whole)
    }

    /// The value with the opposite sign, at the same precision.
    pub fn neg(&self) -> (r: Mpf)
        ensures
            r@ == self@.negated(),
    {
        proof {
            use_type_invariant(self);
        }
        let limbs = self.limbs.clone();
        assert(limbs@ =~= self.limbs@);
        Mpf {
            prec: self.prec,
            negative: !self.negative && self.limbs.len() != 0,
            limbs,
            exp: self.exp,
        }
    }

    /// The magnitude of the value, at the same precision.
    pub fn abs(&self) -> (r: Mpf)
        ensures
            r@ == self@.absolute(),
    {
        proof {
            use_type_invariant(self);
        }
        let limbs = self.limbs.clone();
        assert(limbs@ =~= self.limbs@);
        Mpf { prec: self.prec, negative: false, limbs, exp: self.exp }
    }

    /// The number `±magnitude(digits) * 2^(64 * scale)` cut to `prec` bits of
    /// storage, or `None` where its exponent leaves the machine's range.
    fn from_magnitude(prec: usize, negative: bool, digits: &Vec<u64>, scale: i128) -> (r: Option<
        Mpf,
    >)
        requires
            prec >= 1,
            -0x4000_0000_0000_0000_0000_0000 <= scale <= 0x4000_0000_0000_0000_0000_0000,
        ensures
            r.is_some() <==> MpfView::representable(
                if negative {
                    -(magnitude(digits@) as int)
                } else {
                    magnitude(digits@) as int
                },
                scale as int,
            ),
            r.is_some() ==> r.unwrap()@.prec == prec && r.unwrap()@.is_truncation(
                if negative {
                    -(magnitude(digits@) as int)
                } else {
                    magnitude(digits@) as int
                },
                scale as int,
            ),
    {
        let mut n: usize = digits.len();
        while n > 0 && digits[n - 1] == 0
            invariant
                n <= digits@.len(),
                forall|k: int| n <= k < digits@.len() ==> digits@[k] == 0,
            decreases n,
        {
            n = n - 1;
        }
        let ghost top = digits@.take(n as int);
        let ghost size = magnitude(digits@);
        proof {
            lemma_magnitude_split(digits@, n as nat);
            lemma_magnitude_zero(digits@.skip(n as int));
            assert(pow64(n as nat) * 0 == 0) by (nonlinear_arith);
            assert(magnitude(top) == size);
        }
        if n == 0 {
            return Some(Mpf::new(prec));
        }
        proof {
            lemma_magnitude_lower_bound(top);
            lemma_magnitude_bound(top);
            lemma_pow64_positive((n - 1) as nat);
            lemma_digit_count(size, n as nat);
        }
        let exp: i128 = scale + n as i128;
        if exp < -0x8000_0000_0000_0000 || exp > 0x7fff_ffff_ffff_ffff {
            return None;
        }
        let keep: usize = capacity(prec);
        let start: usize = if n > keep {
            n - keep
        } else {
            0
        };
        let mut limbs: Vec<u64> = Vec::new();
        let mut i: usize = start;
        while i < n
            invariant
                start <= i <= n,
                n <= digits@.len(),
                limbs@ == digits@.subrange(start as int, i as int),
            decreases n - i,
        {
            limbs.push(digits[i]);
            assert(limbs@ =~= digits@.subrange(start as int, i + 1));
            i = i + 1;
        }
        proof {
            assert(limbs@ =~= top.skip(start as int));
            lemma_magnitude_split(top, start as nat);
            lemma_magnitude_bound(top.take(start as int));
            lemma_pow64_positive(start as nat);
            let p = pow64(start as nat) as int;
            let high = magnitude(limbs@) as int;
            let low = magnitude(top.take(start as int)) as int;
            assert(p * high == high * p) by (nonlinear_arith);
            lemma_fundamental_div_mod_converse(size as int, p, high, low);
        }
        Some(Mpf { prec, negative, limbs, exp: exp as i64 })
    }

    /// The sum, or with `subtract` the difference, of the two values as
    /// counted in their sum unit, cut to the greater of the two precisions.
    fn combine(&self, other: &Mpf, subtract: bool) -> (r: Option<Mpf>)
        ensures
            ({
                let count = if subtract {
                    self@.minus_count(other@)
                } else {
                    self@.sum_count(other@)
                };
                &&& r.is_some() <==> MpfView::representable(count, self@.sum_unit(other@))
                &&& r.is_some() ==> r.unwrap()@.prec == joint_precision(self@, other@)
                    && r.unwrap()@.is_truncation(count, self@.sum_unit(other@))
            }),
    {
        proof {
            use_type_invariant(self);
            use_type_invariant(other);
        }
        let prec: usize = if self.prec >= other.prec {
            self.prec
        } else {
            other.prec
        };
        let keep: usize = capacity(prec);
        let len: usize = keep + 1;
        let la: usize = self.limbs.len();
        let lb: usize = other.limbs.len();
        let top: i64 = if la == 0 {
            other.exp
        } else if lb == 0 {
            self.exp
        } else if self.exp >= other.exp {
            self.exp
        } else {
            other.exp
        };
        let unit: i128 = top as i128 - keep as i128 - 1;
        let offset_a: i128 = self.exp as i128 - la as i128 - unit;
        let offset_b: i128 = other.exp as i128 - lb as i128 - unit;
        let x = take_window(&self.limbs, offset_a, len);
        let y = take_window(&other.limbs, offset_b, len);
        let ghost mx = magnitude(x@) as int;
        let ghost my = magnitude(y@) as int;
        let ghost count = if subtract {
            self@.minus_count(other@)
        } else {
            self@.sum_count(other@)
        };
        let minus: bool = other.negative != subtract;
        proof {
            assert(unit == self@.sum_unit(other@));
            assert(offset_a == self@.scale() - unit);
            assert(offset_b == other@.scale() - unit);
            lemma_window(self.limbs@, offset_a as int, len as nat);
            lemma_window(other.limbs@, offset_b as int, len as nat);
            assert(self@.count_at(unit as int) == if self.negative {
                -mx
            } else {
                mx
            });
            assert(other@.count_at(unit as int) == if other.negative {
                -my
            } else {
                my
            });
            assert(count == (if self.negative {
                -mx
            } else {
                mx
            }) + (if minus {
                -my
            } else {
                my
            }));
        }
        if self.negative == minus {
            let d = add_digits(&x, &y);
            assert(count == if minus {
                -(magnitude(d@) as int)
            } else {
                magnitude(d@) as int
            });
            Mpf::from_magnitude(prec, minus, &d, unit)
        } else {
            let (d, below) = sub_digits(&x, &y);
            if below {
                let (e, _) = sub_digits(&y, &x);
                assert(count == if minus {
                    -(magnitude(e@) as int)
                } else {
                    magnitude(e@) as int
                });
                Mpf::from_magnitude(prec, minus, &e, unit)
            } else {
                assert(count == if self.negative {
                    -(magnitude(d@) as int)
                } else {
                    magnitude(d@) as int
                });
                Mpf::from_magnitude(prec, self.negative, &d, unit)
            }
        }
    }

    /// The sum, at the greater of the two precisions: the operands are
    /// counted in their sum unit, and the sum of the counts is cut to the
    /// digits that the result holds. `None` where the sum's exponent leaves
    /// the machine's range.
    pub fn add(&self, other: &Mpf) -> (r: Option<Mpf>)
        ensures
            r.is_some() <==> MpfView::representable(
                self@.sum_count(other@),
                self@.sum_unit(other@),
            ),
            r.is_some() ==> r.unwrap()@.prec == joint_precision(self@, other@)
                && r.unwrap()@.is_truncation(self@.sum_count(other@), self@.sum_unit(other@)),
    {
        self.combine(other, false)
    }

    /// The difference, at the greater of the two precisions: the operands
    /// are counted in their sum unit, and the difference of the counts is cut
    /// to the digits that the result holds. `None` where the difference's
    /// exponent leaves the machine's range.
    pub fn sub(&self, other: &Mpf) -> (r: Option<Mpf>)
        ensures
            r.is_some() <==> MpfView::representable(
                self@.minus_count(other@),
                self@.sum_unit(other@),
            ),
            r.is_some() ==> r.unwrap()@.prec == joint_precision(self@, other@)
                && r.unwrap()@.is_truncation(self@.minus_count(other@), self@.sum_unit(other@)),
    {
        self.combine(other, true)
    }

    /// The product, at the greater of the two precisions: the exact product
    /// cut to the digits that the result holds. `None` where the product's
    /// exponent leaves the machine's range.
    pub fn mul(&self, other: &Mpf) -> (r: Option<Mpf>)
        ensures
            r.is_some() <==> MpfView::representable(
                self@.mantissa() * other@.mantissa(),
                self@.scale() + other@.scale(),
            ),
            r.is_some() ==> r.unwrap()@.prec == joint_precision(self@, other@)
                && r.unwrap()@.is_truncation(
                self@.mantissa() * other@.mantissa(),
                self@.scale() + other@.scale(),
            ),
    {
        proof {
            use_type_invariant(self);
            use_type_invariant(other);
        }
        let prec: usize = if self.prec >= other.prec {
            self.prec
        } else {
            other.prec
        };
        let product = multiply(&self.limbs, &other.limbs);
        let scale: i128 = (self.exp as i128 - self.limbs.len() as i128) + (other.exp as i128
            - other.limbs.len() as i128);
        let negative: bool = self.negative != other.negative;
        proof {
            let x = magnitude(self.limbs@) as int;
            let y = magnitude(other.limbs@) as int;
            assert((-x) * y == -(x * y) && x * (-y) == -(x * y) && (-x) * (-y) == x * y)
                by (nonlinear_arith);
            assert(x * y >= 0) by (nonlinear_arith)
                requires
                    x >= 0,
                    y >= 0,
            ;
            assert(self.limbs@.len() == 0 ==> x == 0);
            assert(other.limbs@.len() == 0 ==> y == 0);
            assert(0 * y == 0 && x * 0 == 0) by (nonlinear_arith);
        }
        let zero: bool = self.limbs.len() == 0 || other.limbs.len() == 0;
        Mpf::from_magnitude(prec, negative && !zero, &product, scale)
    }

    /// The quotient, at the greater of the two precisions: the quotient as
    /// counted in the operands' quotient unit, cut to the digits that the
    /// result holds. `None` where the quotient's exponent leaves the machine's
    /// range. The divisor is not zero.
    pub fn div(&self, other: &Mpf) -> (r: Option<Mpf>)
        requires
            other@.sign() != Sign::Zero,
        ensures
            r.is_some() <==> MpfView::representable(
                self@.quotient_count(other@),
                self@.quotient_unit(other@),
            ),
            r.is_some() ==> r.unwrap()@.prec == joint_precision(self@, other@)
                && r.unwrap()@.is_truncation(
                self@.quotient_count(other@),
                self@.quotient_unit(other@),
            ),
    {
        proof {
            use_type_invariant(self);
            use_type_invariant(other);
            lemma_magnitude_lower_bound(other.limbs@);
            lemma_pow64_positive((other.limbs@.len() - 1) as nat);
        }
        let prec: usize = if self.prec >= other.prec {
            self.prec
        } else {
            other.prec
        };
        let la: usize = self.limbs.len();
        let lb: usize = other.limbs.len();
        let shift: usize = capacity(prec) + 1 + lb;
        let dividend = take_window(&self.limbs, shift as i128, la + shift);
        proof {
            lemma_window(self.limbs@, shift as int, (la + shift) as nat);
        }
        let quotient = divide(&dividend, &other.limbs);
        let scale: i128 = (self.exp as i128 - la as i128) - (other.exp as i128 - lb as i128)
            - shift as i128;
        let negative: bool = self.negative != other.negative;
        proof {
            assert(shift == self@.quotient_shift(other@));
            assert(magnitude(quotient@) as int == (magnitude(self.limbs@) * pow64(
                shift as nat,
            )) as int / (magnitude(other.limbs@) as int));
        }
        Mpf::from_magnitude(prec, negative, &quotient, scale)
    }

    /// Adds `other` to this value in place: the sum is made at the greater
    /// of the two precisions and then stored at this value's own. Returns
    /// whether the sum's exponent fits the machine's range; where it does not,
    /// the value is unchanged.
    pub fn add_assign(&mut self, other: &Mpf) -> (done: bool)
        ensures
            done <==> MpfView::representable(
                old(self)@.sum_count(other@),
                old(self)@.sum_unit(other@),
            ),
            done ==> exists|s: MpfView| #[trigger]
                s.is_sum_of(old(self)@, other@) && final(self)@ == s.with_precision(
                    old(self)@.prec,
                ),
            !done ==> final(self)@ == old(self)@,
    {
        match self.add(other) {
            Some(v) => {
                proof {
                    use_type_invariant(&v);
                    assert(v@.is_sum_of(self@, other@));
                }
                self.set(&v);
                true
            },
            None => false,
        }
    }

    /// Subtracts `other` from this value in place: the difference is made at
    /// the greater of the two precisions and then stored at this value's own.
    /// Returns whether the difference's exponent fits the machine's range;
    /// where it does not, the value is unchanged.
    pub fn sub_assign(&mut self, other: &Mpf) -> (done: bool)
        ensures
            done <==> MpfView::representable(
                old(self)@.minus_count(other@),
                old(self)@.sum_unit(other@),
            ),
            done ==> exists|s: MpfView| #[trigger]
                s.is_minus_of(old(self)@, other@) && final(self)@ == s.with_precision(
                    old(self)@.prec,
                ),
            !done ==> final(self)@ == old(self)@,
    {
        match self.sub(other) {
            Some(v) => {
                proof {
                    use_type_invariant(&v);
                    assert(v@.is_minus_of(self@, other@));
                }
                self.set(&v);
                true
            },
            None => false,
        }
    }

    /// Multiplies this value by `other` in place: the product is made at the
    /// greater of the two precisions and then stored at this value's own.
    /// Returns whether the product's exponent fits the machine's range; where
    /// it does not, the value is unchanged.
    pub fn mul_assign(&mut self, other: &Mpf) -> (done: bool)
        ensures
            done <==> MpfView::representable(
                old(self)@.mantissa() * other@.mantissa(),
                old(self)@.scale() + other@.scale(),
            ),
            done ==> exists|s: MpfView| #[trigger]
                s.is_product_of(old(self)@, other@) && final(self)@ == s.with_precision(
                    old(self)@.prec,
                ),
            !done ==> final(self)@ == old(self)@,
    {
        match self.mul(other) {
            Some(v) => {
                proof {
                    use_type_invariant(&v);
                    assert(v@.is_product_of(self@, other@));
                }
                self.set(&v);
                true
            },
            None => false,
        }
    }

    /// Divides this value by `other` in place: the quotient is made at the
    /// greater of the two precisions and then stored at this value's own.
    /// Returns whether the quotient's exponent fits the machine's range; where
    /// it does not, the value is unchanged. The divisor is not zero.
    pub fn div_assign(&mut self, other: &Mpf) -> (done: bool)
        requires
            other@.sign() != Sign::Zero,
        ensures
            done <==> MpfView::representable(
                old(self)@.quotient_count(other@),
                old(self)@.quotient_unit(other@),
            ),
            done ==> exists|s: MpfView| #[trigger]
                s.is_quotient_of(old(self)@, other@) && final(self)@ == s.with_precision(
                    old(self)@.prec,
                ),
            !done ==> final(self)@ == old(self)@,
    {
        match self.div(other) {
            Some(v) => {
                proof {
                    use_type_invariant(&v);
                    assert(v@.is_quotient_of(self@, other@));
                }
                self.set(&v);
                true
            },
            None => false,
        }
    }

    /// The square root, at the value's precision: the root as counted in the
    /// value's root unit, cut to the digits that the result holds. The value
    /// is above zero.
    pub fn sqrt(self) -> (r: Mpf)
        requires
            self@.sign() == Sign::Positive,
        ensures
            r@.prec == self@.prec,
            exists|root: nat| #[trigger]
                self@.has_root_count(root) && r@.is_truncation(root as int, self@.root_unit()),
    {
        proof {
            use_type_invariant(&self);
        }
        let la: usize = self.limbs.len();
        let even: usize = 2 * (capacity(self.prec) + 1);
        let scale: i128 = self.exp as i128 - la as i128;
        let lifted: i128 = scale - even as i128 + 0x4000_0000_0000_0000_0000_0000;
        let odd: bool = lifted % 2 != 0;
        let shift: usize = if odd {
            even + 1
        } else {
            even
        };
        let unit: i128 = (scale - shift as i128 + 0x4000_0000_0000_0000_0000_0000) / 2
            - 0x2000_0000_0000_0000_0000_0000;
        proof {
            assert(shift == self@.root_shift());
            assert(unit == self@.root_unit());
        }
        let radicand = take_window(&self.limbs, shift as i128, la + shift);
        proof {
            lemma_window(self.limbs@, shift as int, (la + shift) as nat);
        }
        let root = square_root(&radicand);
        proof {
            assert(self@.has_root_count(magnitude(root@)));
            lemma_magnitude_bound(root@);
            lemma_count_bound(magnitude(root@), root@.len());
        }
        match Mpf::from_magnitude(self.prec, false, &root, unit) {
            Some(r) => r,
            None => vstd::pervasive::unreached(),
        }
    }

    /// The magnitude of the difference of the two values, at the greater of
    /// the two precisions. `None` where the difference's exponent leaves the
    /// machine's range.
    pub fn abs_sub(&self, other: &Mpf) -> (r: Option<Mpf>)
        ensures
            r.is_some() <==> MpfView::representable(
                self@.minus_count(other@),
                self@.sum_unit(other@),
            ),
            r.is_some() ==> exists|d: MpfView| #[trigger]
                d.is_minus_of(self@, other@) && r.unwrap()@ == d.absolute(),
    {
        match self.sub(other) {
            Some(d) => {
                proof {
                    use_type_invariant(&d);
                    assert(d@.is_minus_of(self@, other@));
                }
                Some(d.abs())
            },
            None => None,
        }
    }

    /// The floored remainder `self - other * floor(self / other)`, each step
    /// made as the operation of that name makes it. `None` where a step's
    /// exponent leaves the machine's range. The divisor is not zero.
    pub fn rem(&self, other: &Mpf) -> (r: Option<Mpf>)
        requires
            other@.sign() != Sign::Zero,
        ensures
            r.is_some() ==> exists|q: MpfView, f: MpfView, p: MpfView| #[trigger]
                MpfView::remainder_steps(self@, other@, q, f, p) && r.unwrap()@.is_minus_of(
                    self@,
                    p,
                ),
            r.is_none() ==> {
                ||| !MpfView::representable(
                    self@.quotient_count(other@),
                    self@.quotient_unit(other@),
                )
                ||| exists|q: MpfView, f: MpfView| #[trigger]
                    MpfView::floored_quotient(self@, other@, q, f) && !MpfView::representable(
                        other@.mantissa() * f.mantissa(),
                        other@.scale() + f.scale(),
                    )
                ||| exists|q: MpfView, f: MpfView, p: MpfView| #[trigger]
                    MpfView::remainder_steps(self@, other@, q, f, p) && !MpfView::representable(
                        self@.minus_count(p),
                        self@.sum_unit(p),
                    )
            },
    {
        let q = match self.div(other) {
            Some(q) => q,
            None => {
                return None;
            },
        };
        let f = q.floor();
        proof {
            use_type_invariant(&q);
            use_type_invariant(&f);
            assert(MpfView::floored_quotient(self@, other@, q@, f@));
        }
        let p = match other.mul(&f) {
            Some(p) => p,
            None => {
                return None;
            },
        };
        proof {
            use_type_invariant(&p);
            assert(MpfView::remainder_steps(self@, other@, q@, f@, p@));
        }
        match self.sub(&p) {
            Some(v) => {
                proof {
                    use_type_invariant(&v);
                }
                Some(v)
            },
            None => None,
        }
    }

    /// The relative difference `|self - other| / self`, or `|self - other|`
    /// where `self` is zero, at the greater of the two precisions. `None`
    /// where a step's exponent leaves the machine's range.
    pub fn reldiff(&self, other: &Mpf) -> (r: Option<Mpf>)
        ensures
            r.is_some() ==> r.unwrap()@.prec == joint_precision(self@, other@) && exists|
                d: MpfView,
            | #[trigger]
                d.is_minus_of(self@, other@) && if self@.sign() == Sign::Zero {
                    r.unwrap()@ == d.absolute()
                } else {
                    r.unwrap()@.is_quotient_of(d.absolute(), self@)
                },
            r.is_none() ==> {
                ||| !MpfView::representable(self@.minus_count(other@), self@.sum_unit(other@))
                ||| exists|d: MpfView| #[trigger]
                    d.is_minus_of(self@, other@) && self@.sign() != Sign::Zero
                        && !MpfView::representable(
                        d.absolute().quotient_count(self@),
                        d.absolute().quotient_unit(self@),
                    )
            },
    {
        let d = match self.sub(other) {
            Some(d) => d,
            None => {
                return None;
            },
        };
        let m = d.abs();
        proof {
            use_type_invariant(&d);
            assert(d@.is_minus_of(self@, other@));
        }
        if self.is_zero() {
            Some(m)
        } else {
            match m.div(self) {
                Some(v) => {
                    proof {
                        use_type_invariant(&v);
                    }
                    Some(v)
                },
                None => None,
            }
        }
    }

    /// The whole number next to the value in the direction of zero, or, where
    /// `away` holds and the value is no whole number, in the other direction.
    fn to_whole(&self, away: bool) -> (r: Mpf)
        ensures
            r@.prec == self@.prec,
            r@.is_whole(self@.rounded(away)),
    {
        proof {
            use_type_invariant(self);
            lemma_whole_part(self@);
            assert(pow64(0) == 1);
        }
        let n: usize = self.limbs.len();
        if n == 0 {
            let r = Mpf::new(self.prec);
            assert(r@.in_units(0) == 0) by (nonlinear_arith)
                requires
                    r@.in_units(0) == 0 * pow64(0),
            ;
            return r;
        }
        if self.exp <= 0 {
            let mut r = Mpf::new(self.prec);
            if away {
                r.set_from_si(if self.negative {
                    -1
                } else {
                    1
                });
                proof {
                    let one = seq![1u64];
                    lemma_magnitude_single(1);
                    assert(r@.digits =~= one);
                    assert(r@.in_units(0) == r@.mantissa()) by (nonlinear_arith)
                        requires
                            r@.in_units(0) == r@.mantissa() * pow64(0),
                            pow64(0) == 1,
                    ;
                }
            } else {
                assert(r@.in_units(0) == 0) by (nonlinear_arith)
                    requires
                        r@.in_units(0) == 0 * pow64(0),
                ;
            }
            return r;
        }
        if self.exp >= n as i64 {
            let r = self.clone();
            proof {
                let m = magnitude(self.limbs@);
                let p = pow64(self@.scale() as nat);
                assert((-(m as int)) * p == -(m * p)) by (nonlinear_arith);
            }
            return r;
        }
        let k: usize = n - self.exp as usize;
        let mut high: Vec<u64> = Vec::new();
        let mut i: usize = k;
        while i < n
            invariant
                k <= i <= n,
                n == self.limbs@.len(),
                high@ == self.limbs@.subrange(k as int, i as int),
            decreases n - i,
        {
            high.push(self.limbs[i]);
            assert(high@ =~= self.limbs@.subrange(k as int, i + 1));
            i = i + 1;
        }
        assert(high@ =~= self.limbs@.skip(k as int));
        let bump: bool = away && has_nonzero_below(&self.limbs, k);
        if !bump {
            let r = Mpf { prec: self.prec, negative: self.negative, limbs: high, exp: self.exp };
            proof {
                let m = magnitude(high@) as int;
                assert(m * 1 == m && (-m) * 1 == -m) by (nonlinear_arith);
            }
            return r;
        }
        let (more, carry) = increment(&high);
        if carry {
            let mut top: Vec<u64> = Vec::new();
            top.push(1);
            let r = Mpf { prec: self.prec, negative: self.negative, limbs: top, exp: self.exp + 1 };
            proof {
                let one = seq![1u64];
                assert(top@ =~= one);
                lemma_magnitude_single(1);
                lemma_magnitude_bound(high@);
                let p = pow64(self.exp as nat) as int;
                assert(1 * p == p && (-1) * p == -p) by (nonlinear_arith);
            }
            r
        } else {
            let r = Mpf { prec: self.prec, negative: self.negative, limbs: more, exp: self.exp };
            proof {
                let m = magnitude(more@) as int;
                assert(m * 1 == m && (-m) * 1 == -m) by (nonlinear_arith);
            }
            r
        }
    }

    /// The whole number next to the value in the direction of zero, at the
    /// value's precision.
    pub fn trunc(&self) -> (r: Mpf)
        ensures
            r@.prec == self@.prec,
            r@.is_whole(self@.trunc_int()),
    {
        proof {
            use_type_invariant(self);
            lemma_rounded(self@);
        }
        self.to_whole(false)
    }

    /// The greatest whole number that is not above the value, at the value's
    /// precision.
    pub fn floor(&self) -> (r: Mpf)
        ensures
            r@.prec == self@.prec,
            r@.is_whole(self@.floor_int()),
    {
        proof {
            use_type_invariant(self);
            lemma_rounded(self@);
        }
        self.to_whole(self.negative)
    }

    /// The least whole number that is not below the value, at the value's
    /// precision.
    pub fn ceil(&self) -> (r: Mpf)
        ensures
            r@.prec == self@.prec,
            r@.is_whole(self@.ceil_int()),
    {
        proof {
            use_type_invariant(self);
            lemma_rounded(self@);
        }
        self.to_whole(!self.negative)
    }

    /// -1, 0 or 1 as the value is below, at or above zero, at the value's
    /// precision.
    pub fn signum(&self) -> (r: Mpf)
        ensures
            r@ == MpfView::of_int(self@.prec, self@.sign().unit()),
    {
        proof {
            use_type_invariant(self);
        }
        let mut r = Mpf::new(self.prec);
        r.set_from_si(self.sign().signum());
        r
    }
}

impl PartialEq for Mpf {
    /// Whether two values stand for the same number, whatever their
    /// precisions.
    fn eq(&self, other: &Mpf) -> (r: bool) {
        match self.compare(other) {
            Ordering::Equal => true,
            _ => false,
        }
    }
}

impl vstd::std_specs::cmp::PartialEqSpecImpl for Mpf {
    open spec fn obeys_eq_spec() -> bool {
        true
    }

    open spec fn eq_spec(&self, other: &Mpf) -> bool {
        self@.difference(other@) == 0
    }
}

impl Eq for Mpf {

}

impl PartialOrd for Mpf {
    /// The order of two values by the numbers they stand for.
    fn partial_cmp(&self, other: &Mpf) -> (r: Option<Ordering>) {
        Some(self.compare(other))
    }
}

impl vstd::std_specs::cmp::PartialOrdSpecImpl for Mpf {
    open spec fn obeys_partial_cmp_spec() -> bool {
        true
    }

    open spec fn partial_cmp_spec(&self, other: &Mpf) -> Option<Ordering> {
        if self@.difference(other@) < 0 {
            Some(Ordering::Less)
        } else if self@.difference(other@) == 0 {
            Some(Ordering::Equal)
        } else {
            Some(Ordering::Greater)
        }
    }
}

impl Clone for Mpf {
    /// A copy with storage of its own, of the same precision and value.
    fn clone(&self) -> (r: Mpf)
        ensures
            r@ == self@,
    {
        proof {
            use_type_invariant(self);
        }
        let limbs = self.limbs.clone();
        assert(limbs@ =~= self.limbs@);
        Mpf { prec: self.prec, negative: self.negative, limbs, exp: self.exp }
    }
}

} // verus!
