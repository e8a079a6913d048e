//! What a floating-point value is, in contracts: the number that its sign,
//! digits and exponent stand for, and how two such numbers compare.

use vstd::prelude::*;
use vstd::arithmetic::div_mod::lemma_fundamental_div_mod;
use vstd::arithmetic::div_mod::lemma_fundamental_div_mod_converse;
use crate::digits::aligned;
use crate::digits::digit_count;
use crate::digits::is_root;
use crate::digits::lemma_magnitude_bound;
use crate::digits::lemma_magnitude_lower_bound;
use crate::digits::lemma_magnitude_split;
use crate::digits::lemma_pow64_adds;
use crate::digits::lemma_pow64_monotone;
use crate::digits::lemma_pow64_positive;
use crate::digits::magnitude;
use crate::digits::pow64;
use crate::digits::top_digits;
use crate::rules::joint_precision;
use crate::sign::Sign;

verus! {

/// What a value is, in contracts.
///
/// The number stood for is `±magnitude(digits) * 2^(64 * (exp - digits.len()))`:
/// the digits are written least significant first, and `exp` counts how many of
/// them lie before the radix point.
pub struct MpfView {
    /// Bits of mantissa that the storage retains.
    pub prec: nat,
    /// Whether the number is below zero.
    pub negative: bool,
    /// The magnitude's digits in base 2^64, least significant first.
    pub digits: Seq<u64>,
    /// The number of digits before the radix point.
    pub exp: int,
}

/// The number of digits that storage of `prec` bits holds at most: enough for
/// `prec` bits wherever they start within a digit, and two guard digits.
pub open spec fn digit_capacity(prec: nat) -> nat
    recommends
        prec >= 1,
{
    ((prec - 1) / 64 + 3) as nat
}

impl MpfView {
    /// The invariant of every value: a positive precision, no more digits
    /// than the precision allows, a leading digit that is not zero, and one
    /// way only to write zero.
    pub open spec fn well_formed(self) -> bool {
        &&& self.prec >= 1
        &&& self.prec <= usize::MAX
        &&& self.digits.len() <= digit_capacity(self.prec)
        &&& self.digits.len() > 0 ==> self.digits.last() != 0
        &&& self.digits.len() == 0 ==> !self.negative && self.exp == 0
        &&& i64::MIN <= self.exp <= i64::MAX
    }

    /// The sign of the number.
    pub open spec fn sign(self) -> Sign {
        if self.digits.len() == 0 {
            Sign::Zero
        } else if self.negative {
            Sign::Negative
        } else {
            Sign::Positive
        }
    }

    /// The signed whole number `±magnitude(digits)`.
    pub open spec fn mantissa(self) -> int {
        if self.negative {
            -(magnitude(self.digits) as int)
        } else {
            magnitude(self.digits) as int
        }
    }

    /// The power of 2^64 by which the mantissa is scaled.
    pub open spec fn scale(self) -> int {
        self.exp - self.digits.len()
    }

    /// The scale of the finer of two numbers.
    pub open spec fn common_unit(self, other: MpfView) -> int {
        if self.scale() <= other.scale() {
            self.scale()
        } else {
            other.scale()
        }
    }

    /// The number as a whole count of units of `2^(64 * unit)`, for a unit
    /// no coarser than the number's own scale.
    pub open spec fn in_units(self, unit: int) -> int
        recommends
            unit <= self.scale(),
    {
        self.mantissa() * pow64((self.scale() - unit) as nat)
    }

    /// The number minus `other`, as a whole count of their common unit: below
    /// zero, zero or above zero as the number is below, equal to or above
    /// `other`.
    pub open spec fn difference(self, other: MpfView) -> int {
        self.in_units(self.common_unit(other)) - other.in_units(self.common_unit(other))
    }

    /// The unit in which the number's whole part is counted: the number's
    /// own scale where it has digits after the radix point, else one.
    pub open spec fn whole_unit(self) -> int {
        if self.scale() < 0 {
            self.scale()
        } else {
            0
        }
    }

    /// How many of those units make one.
    pub open spec fn units_per_one(self) -> int {
        pow64((-self.whole_unit()) as nat) as int
    }

    /// The greatest whole number that is not above the number.
    pub open spec fn floor_int(self) -> int {
        self.in_units(self.whole_unit()) / self.units_per_one()
    }

    /// The least whole number that is not below the number.
    pub open spec fn ceil_int(self) -> int {
        -((-self.in_units(self.whole_unit())) / self.units_per_one())
    }

    /// The whole number next to the number in the direction of zero.
    pub open spec fn trunc_int(self) -> int {
        if self.negative {
            self.ceil_int()
        } else {
            self.floor_int()
        }
    }

    /// Whether the number is the whole number `n`, written without digits
    /// after the radix point.
    pub open spec fn is_whole(self, n: int) -> bool {
        self.scale() >= 0 && self.in_units(0) == n
    }

    /// The magnitude as a count of the units of the whole part.
    pub open spec fn magnitude_in_units(self) -> nat {
        magnitude(self.digits) * pow64((self.scale() - self.whole_unit()) as nat)
    }

    /// The whole part of the magnitude.
    pub open spec fn whole_part(self) -> nat {
        (self.magnitude_in_units() as int / self.units_per_one()) as nat
    }

    /// Whether the number is no whole number.
    pub open spec fn has_fraction(self) -> bool {
        self.magnitude_in_units() as int % self.units_per_one() != 0
    }

    /// The whole part of the magnitude, one more where `away` holds and the
    /// number is no whole number, with the number's sign.
    pub open spec fn rounded(self, away: bool) -> int {
        let n = self.whole_part() + if away && self.has_fraction() {
            1int
        } else {
            0int
        };
        if self.negative {
            -n
        } else {
            n
        }
    }

    /// The number as a whole count of units of `2^(64 * unit)`; where the
    /// unit is coarser than the number's scale, what lies below one unit is
    /// dropped.
    pub open spec fn count_at(self, unit: int) -> int {
        let size = if self.scale() >= unit {
            magnitude(self.digits) * pow64((self.scale() - unit) as nat)
        } else {
            magnitude(self.digits) / pow64((unit - self.scale()) as nat)
        };
        if self.negative {
            -(size as int)
        } else {
            size as int
        }
    }

    /// The unit in which a sum or a difference of two numbers is counted:
    /// below the greater exponent of the operands other than zero by the
    /// digits that the result holds and one guard digit.
    pub open spec fn sum_unit(self, other: MpfView) -> int {
        let top = if self.digits.len() == 0 {
            other.exp
        } else if other.digits.len() == 0 {
            self.exp
        } else if self.exp >= other.exp {
            self.exp
        } else {
            other.exp
        };
        top - digit_capacity(joint_precision(self, other)) - 1
    }

    /// The sum of two numbers, counted in their sum unit.
    pub open spec fn sum_count(self, other: MpfView) -> int {
        self.count_at(self.sum_unit(other)) + other.count_at(self.sum_unit(other))
    }

    /// The first number minus the second, counted in their sum unit.
    pub open spec fn minus_count(self, other: MpfView) -> int {
        self.count_at(self.sum_unit(other)) - other.count_at(self.sum_unit(other))
    }

    /// By how many digits a dividend is moved up before it is divided, so
    /// that the quotient has more digits than the result holds.
    pub open spec fn quotient_shift(self, other: MpfView) -> nat {
        digit_capacity(joint_precision(self, other)) + 1 + other.digits.len()
    }

    /// The unit in which the quotient of two numbers is counted.
    pub open spec fn quotient_unit(self, other: MpfView) -> int {
        self.scale() - other.scale() - self.quotient_shift(other)
    }

    /// The quotient of two numbers, counted in their quotient unit, what
    /// lies below one unit dropped.
    pub open spec fn quotient_count(self, other: MpfView) -> int
        recommends
            magnitude(other.digits) > 0,
    {
        let size = (magnitude(self.digits) * pow64(self.quotient_shift(other))) as int / (
        magnitude(other.digits) as int);
        if self.negative != other.negative {
            -size
        } else {
            size
        }
    }

    /// By how many digits a number is moved up before its square root is
    /// taken: twice the digits that the result holds and two more, and one
    /// more where that leaves the unit of the moved number odd.
    pub open spec fn root_shift(self) -> nat {
        let even = 2 * (digit_capacity(self.prec) + 1);
        if (self.scale() - even) % 2 == 0 {
            even
        } else {
            even + 1
        }
    }

    /// The unit in which the square root is counted: half the unit of the
    /// moved number.
    pub open spec fn root_unit(self) -> int {
        (self.scale() - self.root_shift()) / 2
    }

    /// Whether `root` is the square root of the number, counted in the root
    /// unit, what lies below one unit dropped.
    pub open spec fn has_root_count(self, root: nat) -> bool {
        is_root(root, magnitude(self.digits) * pow64(self.root_shift()))
    }

    /// Whether the number is the whole number `±magnitude(digits)` cut to the
    /// digits that storage of `prec` bits holds.
    pub open spec fn is_integer(self, prec: nat, negative: bool, digits: Seq<u64>) -> bool {
        &&& self.well_formed()
        &&& self.prec == prec
        &&& self.is_truncation(
            if negative {
                -(magnitude(digits) as int)
            } else {
                magnitude(digits) as int
            },
            0,
        )
    }

    /// Whether the number is `v` rounded to storage of `prec` bits: `v` itself
    /// where it has no more digits than that storage holds; else its most
    /// significant digits, with one added at the last kept place where the
    /// first dropped digit is at least half the base. Where that addition
    /// carries past the first digit, the number is the power of the base
    /// above, or, where the exponent cannot grow, the digits as they were.
    pub open spec fn is_rounding_of(self, v: MpfView, prec: nat) -> bool {
        let n = v.digits.len();
        let cap = digit_capacity(prec);
        let kept = v.digits.skip(n - cap);
        let cut = MpfView { prec, digits: kept, ..v };
        if n <= cap {
            self == (MpfView { prec, ..v })
        } else if v.digits[n - cap - 1] < 0x8000_0000_0000_0000 {
            self == cut
        } else if magnitude(kept) + 1 < pow64(cap) {
            &&& self.prec == prec
            &&& self.negative == v.negative
            &&& self.exp == v.exp
            &&& self.digits.len() == cap
            &&& magnitude(self.digits) == magnitude(kept) + 1
        } else if v.exp < i64::MAX {
            self == (MpfView { prec, digits: seq![1u64], exp: v.exp + 1, ..v })
        } else {
            self == cut
        }
    }

    /// Whether the number is what dividing `a` by `b` gives.
    pub open spec fn is_quotient_of(self, a: MpfView, b: MpfView) -> bool {
        &&& self.well_formed()
        &&& self.prec == joint_precision(a, b)
        &&& self.is_truncation(a.quotient_count(b), a.quotient_unit(b))
    }

    /// Whether the number is what multiplying `a` by `b` gives.
    pub open spec fn is_product_of(self, a: MpfView, b: MpfView) -> bool {
        &&& self.well_formed()
        &&& self.prec == joint_precision(a, b)
        &&& self.is_truncation(a.mantissa() * b.mantissa(), a.scale() + b.scale())
    }

    /// Whether the number is what adding `a` and `b` gives.
    pub open spec fn is_sum_of(self, a: MpfView, b: MpfView) -> bool {
        &&& self.well_formed()
        &&& self.prec == joint_precision(a, b)
        &&& self.is_truncation(a.sum_count(b), a.sum_unit(b))
    }

    /// Whether the number is what subtracting `b` from `a` gives.
    pub open spec fn is_minus_of(self, a: MpfView, b: MpfView) -> bool {
        &&& self.well_formed()
        &&& self.prec == joint_precision(a, b)
        &&& self.is_truncation(a.minus_count(b), a.sum_unit(b))
    }

    /// Whether the number is the floor of `v`, at the precision of `v`.
    pub open spec fn is_floor_of(self, v: MpfView) -> bool {
        &&& self.well_formed()
        &&& self.prec == v.prec
        &&& self.is_whole(v.floor_int())
    }

    /// Whether `q` is the quotient of `a` by `b` and `f` its floor.
    pub open spec fn floored_quotient(a: MpfView, b: MpfView, q: MpfView, f: MpfView) -> bool {
        q.is_quotient_of(a, b) && f.is_floor_of(q)
    }

    /// Whether `q` is the quotient of `a` by `b`, `f` its floor and `p` the
    /// product of `b` and `f`: the steps to the remainder `a - p`.
    pub open spec fn remainder_steps(
        a: MpfView,
        b: MpfView,
        q: MpfView,
        f: MpfView,
        p: MpfView,
    ) -> bool {
        q.is_quotient_of(a, b) && f.is_floor_of(q) && p.is_product_of(b, f)
    }

    /// Whether the number is `m * 2^(64 * scale)` cut to the digits that
    /// storage of its precision holds: the sign and the exponent of that
    /// number, and its most significant digits.
    pub open spec fn is_truncation(self, m: int, scale: int) -> bool {
        let size = if m < 0 {
            (-m) as nat
        } else {
            m as nat
        };
        let count = digit_count(size);
        let kept = if count <= digit_capacity(self.prec) {
            count
        } else {
            digit_capacity(self.prec)
        };
        if m == 0 {
            self.digits.len() == 0 && !self.negative && self.exp == 0
        } else {
            &&& self.negative == (m < 0)
            &&& self.digits.len() == kept
            &&& self.exp == scale + count
            &&& magnitude(self.digits) == size / pow64((count - kept) as nat)
        }
    }

    /// Whether the exponent of the number `m * 2^(64 * scale)` fits the
    /// machine's exponent range.
    pub open spec fn representable(m: int, scale: int) -> bool {
        let size = if m < 0 {
            (-m) as nat
        } else {
            m as nat
        };
        m == 0 || i64::MIN <= scale + digit_count(size) <= i64::MAX
    }

    /// Zero at precision `prec`.
    pub open spec fn zero(prec: nat) -> MpfView {
        MpfView { prec, negative: false, digits: Seq::empty(), exp: 0 }
    }

    /// The whole number `n` at precision `prec`.
    pub open spec fn of_int(prec: nat, n: int) -> MpfView
        recommends
            -0x8000_0000_0000_0000 <= n < 0x1_0000_0000_0000_0000,
    {
        if n == 0 {
            MpfView::zero(prec)
        } else {
            MpfView {
                prec,
                negative: n < 0,
                digits: seq![(if n < 0 { -n } else { n }) as u64],
                exp: 1,
            }
        }
    }

    /// The number cut down to what storage of `prec` bits holds: the sign,
    /// the exponent and the most significant digits stay, the digits beyond
    /// the capacity are dropped.
    pub open spec fn with_precision(self, prec: nat) -> MpfView {
        MpfView { prec, digits: top_digits(self.digits, digit_capacity(prec)), ..self }
    }

    /// The machine integer `n` at precision `prec`.
    pub open spec fn of_i64(prec: nat, n: i64) -> MpfView {
        MpfView::of_int(prec, n as int)
    }

    /// The same magnitude with the opposite sign; zero stays zero.
    pub open spec fn negated(self) -> MpfView {
        MpfView { negative: !self.negative && self.digits.len() > 0, ..self }
    }

    /// The same magnitude, not below zero.
    pub open spec fn absolute(self) -> MpfView {
        MpfView { negative: false, ..self }
    }
}

/// Of two numbers other than zero, the one with the greater exponent has the
/// greater magnitude.
pub proof fn lemma_magnitude_by_exponent(a: MpfView, b: MpfView)
    requires
        a.well_formed(),
        b.well_formed(),
        a.digits.len() > 0,
        b.digits.len() > 0,
        a.exp > b.exp,
    ensures
        magnitude(a.digits) * pow64((a.scale() - a.common_unit(b)) as nat) > magnitude(b.digits)
            * pow64((b.scale() - a.common_unit(b)) as nat),
{
    let u = a.common_unit(b);
    let x = (a.scale() - u) as nat;
    let y = (b.scale() - u) as nat;
    let la = a.digits.len();
    let lb = b.digits.len();
    let ma = magnitude(a.digits);
    let mb = magnitude(b.digits);
    lemma_magnitude_lower_bound(a.digits);
    lemma_magnitude_bound(b.digits);
    lemma_pow64_adds((la - 1) as nat, x);
    lemma_pow64_adds(lb, y);
    lemma_pow64_monotone(lb + y, (la - 1) as nat + x);
    lemma_pow64_positive(x);
    lemma_pow64_positive(y);
    let low = pow64((la - 1) as nat);
    let high = pow64(lb);
    let px = pow64(x);
    let py = pow64(y);
    assert(ma * px >= low * px) by (nonlinear_arith)
        requires
            ma >= low,
    ;
    assert(mb * py < high * py) by (nonlinear_arith)
        requires
            mb < high,
            py >= 1,
    ;
}

/// How the difference of two numbers follows from their signs, their
/// exponents and their digits.
pub proof fn lemma_difference_cases(a: MpfView, b: MpfView)
    requires
        a.well_formed(),
        b.well_formed(),
    ensures
        a.sign().unit() < b.sign().unit() ==> a.difference(b) < 0,
        a.sign().unit() > b.sign().unit() ==> a.difference(b) > 0,
        a.sign() == Sign::Zero && b.sign() == Sign::Zero ==> a.difference(b) == 0,
        a.sign() == b.sign() && a.sign() != Sign::Zero && a.exp > b.exp ==> a.difference(b)
            * a.sign().unit() > 0,
        a.sign() == b.sign() && a.sign() != Sign::Zero && a.exp < b.exp ==> a.difference(b)
            * a.sign().unit() < 0,
        a.sign() == b.sign() && a.sign() != Sign::Zero && a.exp == b.exp ==> a.difference(b)
            * a.sign().unit() == aligned(a.digits, b.digits.len()) - aligned(
            b.digits,
            a.digits.len(),
        ),
{
    let u = a.common_unit(b);
    let x = (a.scale() - u) as nat;
    let y = (b.scale() - u) as nat;
    let ma = magnitude(a.digits);
    let mb = magnitude(b.digits);
    let px = pow64(x);
    let py = pow64(y);
    lemma_pow64_positive(x);
    lemma_pow64_positive(y);
    if a.digits.len() > 0 {
        lemma_magnitude_lower_bound(a.digits);
        lemma_pow64_positive((a.digits.len() - 1) as nat);
    }
    if b.digits.len() > 0 {
        lemma_magnitude_lower_bound(b.digits);
        lemma_pow64_positive((b.digits.len() - 1) as nat);
    }
    assert(a.digits.len() == 0 ==> ma == 0);
    assert(b.digits.len() == 0 ==> mb == 0);
    assert(ma >= 1 ==> ma * px >= 1) by (nonlinear_arith)
        requires
            px >= 1,
    ;
    assert(mb >= 1 ==> mb * py >= 1) by (nonlinear_arith)
        requires
            py >= 1,
    ;
    assert(0 * px == 0 && 0 * py == 0) by (nonlinear_arith);
    assert((-(ma as int)) * px == -(ma * px)) by (nonlinear_arith);
    assert((-(mb as int)) * py == -(mb * py)) by (nonlinear_arith);
    let d = a.difference(b);
    assert(d == a.mantissa() * px - b.mantissa() * py);
    if a.sign() == b.sign() && a.sign() != Sign::Zero {
        let s = a.sign().unit();
        assert(d * s == ma * px - mb * py) by (nonlinear_arith)
            requires
                s == 1 && d == ma * px - mb * py || s == -1 && d == -(ma * px) + mb * py,
        ;
        if a.exp > b.exp {
            lemma_magnitude_by_exponent(a, b);
        } else if a.exp < b.exp {
            lemma_magnitude_by_exponent(b, a);
            assert(b.common_unit(a) == u);
        } else {
            assert(1 * ma == ma && 1 * mb == mb && ma * 1 == ma && mb * 1 == mb)
                by (nonlinear_arith);
            assert(pow64(0) == 1);
        }
    }
}

/// The whole part and the fraction of a number, read off its digits and
/// its exponent.
pub proof fn lemma_whole_part(v: MpfView)
    requires
        v.well_formed(),
    ensures
        v.digits.len() == 0 ==> v.whole_part() == 0 && !v.has_fraction(),
        v.digits.len() > 0 && v.exp >= v.digits.len() ==> v.whole_part() == magnitude(v.digits)
            * pow64(v.scale() as nat) && !v.has_fraction(),
        v.digits.len() > 0 && v.exp <= 0 ==> v.whole_part() == 0 && v.has_fraction(),
        0 < v.exp < v.digits.len() ==> v.whole_part() == magnitude(
            v.digits.skip(v.digits.len() - v.exp),
        ) && v.has_fraction() == (magnitude(v.digits.take(v.digits.len() - v.exp)) != 0),
{
    let n = v.digits.len();
    let m = magnitude(v.digits);
    let x = (v.scale() - v.whole_unit()) as nat;
    let p = v.units_per_one();
    let total = v.magnitude_in_units() as int;
    lemma_pow64_positive((-v.whole_unit()) as nat);
    assert(pow64(0) == 1);
    if n == 0 || v.exp >= n {
        assert(p == 1);
        assert(m * pow64(x) == total);
        if n == 0 {
            assert(0 * pow64(x) == 0) by (nonlinear_arith);
        }
        lemma_fundamental_div_mod_converse(total, 1, total, 0);
    } else {
        assert(m * 1 == m) by (nonlinear_arith);
        assert(total == m);
        if v.exp <= 0 {
            lemma_magnitude_bound(v.digits);
            lemma_magnitude_lower_bound(v.digits);
            lemma_pow64_positive((n - 1) as nat);
            lemma_pow64_monotone(n, (n - v.exp) as nat);
            lemma_fundamental_div_mod_converse(total, p, 0, total);
        } else {
            let k = (n - v.exp) as nat;
            lemma_magnitude_split(v.digits, k);
            lemma_magnitude_bound(v.digits.take(k as int));
            let low = magnitude(v.digits.take(k as int)) as int;
            let high = magnitude(v.digits.skip(k as int)) as int;
            assert(p * high == high * p) by (nonlinear_arith);
            lemma_fundamental_div_mod_converse(total, p, high, low);
        }
    }
}

/// Floor, ceiling and truncation by the whole part of the magnitude: the
/// floor of a number below zero and the ceiling of one above zero go away
/// from zero, the others toward it.
pub proof fn lemma_rounded(v: MpfView)
    requires
        v.well_formed(),
    ensures
        v.floor_int() == v.rounded(v.negative),
        v.ceil_int() == v.rounded(!v.negative),
        v.trunc_int() == v.rounded(false),
{
    let p = v.units_per_one();
    let total = v.magnitude_in_units() as int;
    let q = total / p;
    let r = total % p;
    let e = pow64((v.scale() - v.whole_unit()) as nat);
    let m = magnitude(v.digits);
    lemma_pow64_positive((-v.whole_unit()) as nat);
    lemma_fundamental_div_mod(total, p);
    assert(total == p * q + r);
    assert(0 <= r < p);
    assert(p * q == q * p) by (nonlinear_arith);
    assert((-(m as int)) * e == -(m * e)) by (nonlinear_arith);
    assert(q >= 0) by (nonlinear_arith)
        requires
            total == p * q + r,
            total >= 0,
            r < p,
            p >= 1,
    ;
    if r == 0 {
        assert(-total == (-q) * p + 0) by (nonlinear_arith)
            requires
                total == q * p,
        ;
        lemma_fundamental_div_mod_converse(-total, p, -q, 0);
    } else {
        assert(-total == (-q - 1) * p + (p - r)) by (nonlinear_arith)
            requires
                total == q * p + r,
        ;
        lemma_fundamental_div_mod_converse(-total, p, -q - 1, p - r);
    }
}

/// A whole number is its own floor, ceiling and truncation.
pub proof fn lemma_whole_is_fixed(v: MpfView, n: int)
    requires
        v.well_formed(),
        v.is_whole(n),
    ensures
        v.floor_int() == n,
        v.ceil_int() == n,
        v.trunc_int() == n,
{
    assert(pow64(0) == 1);
    lemma_fundamental_div_mod_converse(n, 1, n, 0);
    lemma_fundamental_div_mod_converse(-n, 1, -n, 0);
}

/// A number counted in a finer unit is the count in the coarser unit times
/// the number of finer units in a coarser one.
pub proof fn lemma_in_units_change(v: MpfView, unit: int, finer: int)
    requires
        finer <= unit <= v.scale(),
    ensures
        v.in_units(finer) == v.in_units(unit) * pow64((unit - finer) as nat),
{
    let x = (v.scale() - unit) as nat;
    let y = (unit - finer) as nat;
    lemma_pow64_adds(x, y);
    assert(x + y == (v.scale() - finer) as nat);
    let m = v.mantissa();
    let px = pow64(x);
    let py = pow64(y);
    assert(m * (px * py) == (m * px) * py) by (nonlinear_arith);
}

/// The difference of two numbers counted in a unit finer than their common
/// one is their difference times the number of finer units in the common
/// one.
pub proof fn lemma_difference_in_units(a: MpfView, b: MpfView, finer: int)
    requires
        finer <= a.common_unit(b),
    ensures
        a.in_units(finer) - b.in_units(finer) == a.difference(b) * pow64(
            (a.common_unit(b) - finer) as nat,
        ),
        pow64((a.common_unit(b) - finer) as nat) >= 1,
{
    let u = a.common_unit(b);
    lemma_in_units_change(a, u, finer);
    lemma_in_units_change(b, u, finer);
    let p = pow64((u - finer) as nat);
    lemma_pow64_positive((u - finer) as nat);
    let x = a.in_units(u);
    let y = b.in_units(u);
    assert(x * p - y * p == (x - y) * p) by (nonlinear_arith);
}

/// A number counted in a unit no coarser than its own scale loses nothing:
/// in a sum or a difference, that holds of the operand with the greater
/// exponent, and of the other as far as its digits lie in the sum unit.
pub proof fn lemma_count_exact(v: MpfView, unit: int)
    requires
        unit <= v.scale(),
    ensures
        v.count_at(unit) == v.in_units(unit),
{
    let m = magnitude(v.digits) as int;
    let p = pow64((v.scale() - unit) as nat) as int;
    assert((-m) * p == -(m * p)) by (nonlinear_arith);
}

/// In a sum or a difference of two numbers other than zero, the one with
/// the greater exponent is counted in full.
pub proof fn lemma_sum_unit_keeps_greater(a: MpfView, b: MpfView)
    requires
        a.well_formed(),
        b.well_formed(),
        a.digits.len() > 0,
        b.digits.len() == 0 || a.exp >= b.exp,
    ensures
        a.sum_unit(b) < a.scale(),
        b.sum_unit(a) < a.scale(),
        a.count_at(a.sum_unit(b)) == a.in_units(a.sum_unit(b)),
{
    lemma_count_exact(a, a.sum_unit(b));
}

/// Cutting loses nothing where the number has no more digits than the
/// storage holds: the value then stands for `m * 2^(64 * scale)` itself.
pub proof fn lemma_truncation_exact(r: MpfView, m: int, scale: int)
    requires
        r.is_truncation(m, scale),
        digit_count(
            if m < 0 {
                (-m) as nat
            } else {
                m as nat
            },
        ) <= digit_capacity(r.prec),
    ensures
        r.mantissa() == m,
        m != 0 ==> r.scale() == scale,
{
    assert(pow64(0) == 1);
    if m == 0 {
        assert(r.digits.len() == 0);
    } else {
        let size = if m < 0 {
            -m
        } else {
            m
        };
        lemma_fundamental_div_mod_converse(size, 1, size, 0);
    }
}

/// The remainder identity, where the subtraction that ends the remainder
/// cuts nothing: for `p`, the divisor times the floored quotient, and `r`,
/// what subtracting `p` from `a` gives, `a` is `p` plus `r`.
pub proof fn lemma_remainder_identity(a: MpfView, p: MpfView, r: MpfView)
    requires
        r.is_minus_of(a, p),
        a.sum_unit(p) <= a.scale(),
        a.sum_unit(p) <= p.scale(),
        digit_count(
            if a.minus_count(p) < 0 {
                (-a.minus_count(p)) as nat
            } else {
                a.minus_count(p) as nat
            },
        ) <= digit_capacity(r.prec),
    ensures
        a.in_units(a.sum_unit(p)) == p.in_units(a.sum_unit(p)) + r.mantissa(),
        r.digits.len() > 0 ==> r.scale() == a.sum_unit(p),
{
    let u = a.sum_unit(p);
    lemma_count_exact(a, u);
    lemma_count_exact(p, u);
    lemma_truncation_exact(r, a.minus_count(p), u);
}

/// Every number equals itself.
pub proof fn lemma_order_reflexive(a: MpfView)
    ensures
        a.difference(a) == 0,
{
}

/// Swapping the operands turns the order round: if the first is below the
/// second, the second is above the first, and two numbers are equal in one
/// order exactly when they are equal in the other.
pub proof fn lemma_order_antisymmetric(a: MpfView, b: MpfView)
    ensures
        a.difference(b) == -b.difference(a),
{
    assert(a.common_unit(b) == b.common_unit(a));
}

/// The order is transitive, and so is equality: from the first not above
/// the second and the second not above the third, the first is not above the
/// third, and it equals the third only if all three are equal.
pub proof fn lemma_order_transitive(a: MpfView, b: MpfView, c: MpfView)
    requires
        a.difference(b) <= 0,
        b.difference(c) <= 0,
    ensures
        a.difference(c) <= 0,
        a.difference(c) == 0 <==> a.difference(b) == 0 && b.difference(c) == 0,
{
    let ab = a.common_unit(b);
    let w = if ab <= c.scale() {
        ab
    } else {
        c.scale()
    };
    lemma_difference_in_units(a, b, w);
    lemma_difference_in_units(b, c, w);
    lemma_difference_in_units(a, c, w);
    let p = pow64((a.common_unit(b) - w) as nat);
    let q = pow64((b.common_unit(c) - w) as nat);
    let r = pow64((a.common_unit(c) - w) as nat);
    let x = a.difference(b);
    let y = b.difference(c);
    let z = a.difference(c);
    assert(z * r == x * p + y * q);
    assert(z <= 0 && (z == 0 <==> x == 0 && y == 0)) by (nonlinear_arith)
        requires
            z * r == x * p + y * q,
            x <= 0,
            y <= 0,
            p >= 1,
            q >= 1,
            r >= 1,
    ;
}

/// Any two numbers are ordered: the first is below, equal to or above the
/// second, and only one of the three.
pub proof fn lemma_order_total(a: MpfView, b: MpfView)
    ensures
        a.difference(b) < 0 || a.difference(b) == 0 || b.difference(a) < 0,
        a.difference(b) < 0 ==> !(b.difference(a) < 0),
{
    lemma_order_antisymmetric(a, b);
}

/// Two ways of writing one whole number are equal.
pub proof fn lemma_whole_equal(a: MpfView, b: MpfView, n: int)
    requires
        a.is_whole(n),
        b.is_whole(n),
    ensures
        a.difference(b) == 0,
{
    lemma_difference_in_units(a, b, 0);
    let p = pow64(a.common_unit(b) as nat);
    let d = a.difference(b);
    assert(d == 0) by (nonlinear_arith)
        requires
            d * p == 0,
            p >= 1,
    ;
}

/// Rounding to a whole number is idempotent: where `once` is the floor of
/// `v` and `twice` the floor of `once`, the two are equal; the same holds of
/// the ceiling and of the truncation.
pub proof fn lemma_rounding_idempotent(v: MpfView, once: MpfView, twice: MpfView)
    requires
        once.well_formed(),
    ensures
        once.is_whole(v.floor_int()) && twice.is_whole(once.floor_int()) ==> twice.difference(once)
            == 0,
        once.is_whole(v.ceil_int()) && twice.is_whole(once.ceil_int()) ==> twice.difference(once)
            == 0,
        once.is_whole(v.trunc_int()) && twice.is_whole(once.trunc_int()) ==> twice.difference(once)
            == 0,
{
    if once.is_whole(v.floor_int()) && twice.is_whole(once.floor_int()) {
        lemma_whole_is_fixed(once, v.floor_int());
        lemma_whole_equal(twice, once, v.floor_int());
    }
    if once.is_whole(v.ceil_int()) && twice.is_whole(once.ceil_int()) {
        lemma_whole_is_fixed(once, v.ceil_int());
        lemma_whole_equal(twice, once, v.ceil_int());
    }
    if once.is_whole(v.trunc_int()) && twice.is_whole(once.trunc_int()) {
        lemma_whole_is_fixed(once, v.trunc_int());
        lemma_whole_equal(twice, once, v.trunc_int());
    }
}

/// Taking the magnitude is idempotent, and negating twice gives the number
/// back.
pub proof fn lemma_absolute_idempotent(v: MpfView)
    requires
        v.well_formed(),
    ensures
        v.absolute().absolute() == v.absolute(),
        v.negated().negated() == v,
        v.absolute().sign() != Sign::Negative,
{
}

} // verus!
