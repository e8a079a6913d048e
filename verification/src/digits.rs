//! Digit strings in base 2^64, least significant digit first, and the natural
//! numbers they stand for.

use vstd::prelude::*;
use vstd::arithmetic::div_mod::lemma_fundamental_div_mod_converse;

verus! {

/// The base of the digits: 2^64.
pub open spec fn radix() -> nat {
    0x1_0000_0000_0000_0000
}

/// The `k`-th power of the base.
pub open spec fn pow64(k: nat) -> nat
    decreases k,
{
    if k == 0 {
        1
    } else {
        radix() * pow64((k - 1) as nat)
    }
}

/// The natural number that a digit string stands for.
pub open spec fn magnitude(digits: Seq<u64>) -> nat
    decreases digits.len(),
{
    if digits.len() == 0 {
        0
    } else {
        magnitude(digits.drop_last()) + (digits.last() as nat) * pow64(
            (digits.len() - 1) as nat,
        )
    }
}

/// The `n` most significant digits of `digits`, or all of them where there
/// are no more than `n`.
pub open spec fn top_digits(digits: Seq<u64>, n: nat) -> Seq<u64> {
    if digits.len() > n {
        digits.skip(digits.len() - n)
    } else {
        digits
    }
}

/// Every power of the base is at least one.
pub proof fn lemma_pow64_positive(k: nat)
    ensures
        pow64(k) >= 1,
    decreases k,
{
    if k > 0 {
        lemma_pow64_positive((k - 1) as nat);
        let p = pow64((k - 1) as nat);
        assert(radix() * p >= 1) by (nonlinear_arith)
            requires
                p >= 1,
                radix() >= 1,
        ;
    }
}

/// Powers of the base multiply by adding the exponents.
pub proof fn lemma_pow64_adds(a: nat, b: nat)
    ensures
        pow64(a + b) == pow64(a) * pow64(b),
    decreases a,
{
    if a == 0 {
        assert(pow64(0) == 1);
        assert(1 * pow64(b) == pow64(b)) by (nonlinear_arith);
    } else {
        lemma_pow64_adds((a - 1) as nat, b);
        let r = radix();
        let x = pow64((a - 1) as nat);
        let y = pow64(b);
        assert(pow64(a + b) == r * pow64((a + b - 1) as nat));
        assert((a - 1) as nat + b == (a + b - 1) as nat);
        assert(r * (x * y) == (r * x) * y) by (nonlinear_arith);
    }
}

/// The powers of the base do not fall as the exponent grows.
pub proof fn lemma_pow64_monotone(a: nat, b: nat)
    requires
        a <= b,
    ensures
        pow64(a) <= pow64(b),
{
    lemma_pow64_adds(a, (b - a) as nat);
    lemma_pow64_positive((b - a) as nat);
    lemma_pow64_positive(a);
    let x = pow64(a);
    let y = pow64((b - a) as nat);
    assert(a + (b - a) as nat == b);
    assert(x <= x * y) by (nonlinear_arith)
        requires
            y >= 1,
            x >= 1,
    ;
}

/// A single digit stands for itself.
pub proof fn lemma_magnitude_single(x: u64)
    ensures
        magnitude(seq![x]) == x,
{
    let one = seq![x];
    assert(one.len() == 1);
    assert(one.last() == x);
    assert(one.drop_last().len() == 0);
    assert(magnitude(one.drop_last()) == 0);
    assert(pow64(0) == 1);
    assert(magnitude(one) == magnitude(one.drop_last()) + (x as nat) * pow64(0));
    assert((x as nat) * 1 == x) by (nonlinear_arith);
}

/// A digit string of `n` digits stands for a number below the `n`-th power
/// of the base.
pub proof fn lemma_magnitude_bound(digits: Seq<u64>)
    ensures
        magnitude(digits) < pow64(digits.len()),
    decreases digits.len(),
{
    if digits.len() > 0 {
        lemma_magnitude_bound(digits.drop_last());
        let p = pow64((digits.len() - 1) as nat);
        let t = digits.last() as nat;
        let r = radix();
        assert(t + 1 <= r);
        assert(p + t * p <= r * p) by (nonlinear_arith)
            requires
                t + 1 <= r,
        ;
    }
}

/// A digit string whose most significant digit is not zero stands for a
/// number that is at least the power of the base at that digit's place.
pub proof fn lemma_magnitude_lower_bound(digits: Seq<u64>)
    requires
        digits.len() > 0,
        digits.last() != 0,
    ensures
        magnitude(digits) >= pow64((digits.len() - 1) as nat),
{
    let p = pow64((digits.len() - 1) as nat);
    let t = digits.last() as nat;
    assert(t * p >= p) by (nonlinear_arith)
        requires
            t >= 1,
    ;
}

/// A digit string stands for zero exactly when all its digits are zero.
pub proof fn lemma_magnitude_zero(digits: Seq<u64>)
    ensures
        magnitude(digits) == 0 <==> (forall|i: int| 0 <= i < digits.len() ==> digits[i] == 0),
    decreases digits.len(),
{
    if digits.len() > 0 {
        let init = digits.drop_last();
        lemma_magnitude_zero(init);
        let p = pow64((digits.len() - 1) as nat);
        let t = digits.last() as nat;
        lemma_pow64_positive((digits.len() - 1) as nat);
        assert(t * p == 0 <==> t == 0) by (nonlinear_arith)
            requires
                p >= 1,
        ;
        if magnitude(digits) == 0 {
            assert forall|i: int| 0 <= i < digits.len() implies digits[i] == 0 by {
                if i < digits.len() - 1 {
                    assert(init[i] == digits[i]);
                }
            }
        }
        if forall|i: int| 0 <= i < digits.len() ==> digits[i] == 0 {
            assert forall|i: int| 0 <= i < init.len() implies init[i] == 0 by {
                assert(init[i] == digits[i]);
            }
            assert(digits[digits.len() - 1] == 0);
        }
    }
}

/// A digit string cut at place `k` stands for the number of its lower part
/// plus the number of its upper part times the `k`-th power of the base.
pub proof fn lemma_magnitude_split(digits: Seq<u64>, k: nat)
    requires
        k <= digits.len(),
    ensures
        magnitude(digits) == magnitude(digits.take(k as int)) + pow64(k) * magnitude(
            digits.skip(k as int),
        ),
    decreases digits.len(),
{
    if k == digits.len() {
        assert(digits.take(k as int) =~= digits);
        assert(digits.skip(k as int).len() == 0);
        assert(pow64(k) * 0 == 0) by (nonlinear_arith);
    } else {
        let init = digits.drop_last();
        lemma_magnitude_split(init, k);
        assert(init.take(k as int) =~= digits.take(k as int));
        let high = digits.skip(k as int);
        assert(init.skip(k as int) =~= high.drop_last());
        assert(high.last() == digits.last());
        let t = digits.last() as nat;
        let m = magnitude(high.drop_last());
        let pk = pow64(k);
        let ph = pow64((high.len() - 1) as nat);
        lemma_pow64_adds(k, (high.len() - 1) as nat);
        assert(k + (high.len() - 1) as nat == (digits.len() - 1) as nat);
        assert(pk * (m + t * ph) == pk * m + t * (pk * ph)) by (nonlinear_arith);
    }
}

/// Of two digit strings of one length that agree above place `i` and differ
/// at it, the one with the lesser digit there stands for the lesser number.
pub proof fn lemma_magnitude_order(x: Seq<u64>, y: Seq<u64>, i: int)
    requires
        x.len() == y.len(),
        0 <= i < x.len(),
        x[i] < y[i],
        forall|k: int| i < k < x.len() ==> x[k] == y[k],
    ensures
        magnitude(x) < magnitude(y),
    decreases x.len(),
{
    let p = pow64((x.len() - 1) as nat);
    if i == x.len() - 1 {
        lemma_magnitude_bound(x.drop_last());
        let s = x.last() as nat;
        let t = y.last() as nat;
        assert(p + s * p <= t * p) by (nonlinear_arith)
            requires
                s + 1 <= t,
        ;
    } else {
        lemma_magnitude_order(x.drop_last(), y.drop_last(), i);
        assert(x.last() == y.last());
    }
}

/// The number of `digits`, in units small enough for a digit string of
/// `len` digits that starts at the same place: where `digits` is the
/// shorter, its number is scaled up by the missing places.
pub open spec fn aligned(digits: Seq<u64>, len: nat) -> nat {
    if len > digits.len() {
        magnitude(digits) * pow64((len - digits.len()) as nat)
    } else {
        magnitude(digits)
    }
}

/// A longer digit string against a shorter one that starts at the same
/// place: the upper part of the longer decides, and where it equals the
/// shorter, the lower part is the difference.
pub proof fn lemma_aligned_order(long: Seq<u64>, short: Seq<u64>)
    requires
        long.len() >= short.len(),
    ensures
        ({
            let k = long.len() - short.len();
            let high = magnitude(long.skip(k));
            let low = magnitude(long.take(k));
            let a = aligned(long, short.len());
            let b = aligned(short, long.len());
            &&& high < magnitude(short) ==> a < b
            &&& high > magnitude(short) ==> a > b
            &&& high == magnitude(short) ==> a - b == low
        }),
{
    let k = (long.len() - short.len()) as nat;
    let p = pow64(k);
    let mh = magnitude(long.skip(k as int));
    let ml = magnitude(long.take(k as int));
    let ms = magnitude(short);
    lemma_magnitude_split(long, k);
    lemma_magnitude_bound(long.take(k as int));
    lemma_pow64_positive(k);
    assert(ml < p);
    assert(aligned(long, short.len()) == ml + p * mh);
    assert(aligned(short, long.len()) == ms * p) by {
        if k == 0 {
            assert(ms * 1 == ms) by (nonlinear_arith);
        }
    }
    if mh < ms {
        assert(ml + p * mh < ms * p) by (nonlinear_arith)
            requires
                ml < p,
                mh + 1 <= ms,
        ;
    } else if mh > ms {
        assert(ml + p * mh > ms * p) by (nonlinear_arith)
            requires
                mh >= ms + 1,
                p >= 1,
        ;
    } else {
        assert(p * mh == ms * p) by (nonlinear_arith)
            requires
                mh == ms,
        ;
    }
}

/// Two digit strings that start at the same place, by their upper parts of
/// the common length.
pub proof fn lemma_aligned_by_tops(a: Seq<u64>, b: Seq<u64>)
    ensures
        ({
            let common = if a.len() <= b.len() {
                a.len()
            } else {
                b.len()
            };
            let ha = magnitude(a.skip(a.len() - common));
            let hb = magnitude(b.skip(b.len() - common));
            let x = aligned(a, b.len());
            let y = aligned(b, a.len());
            &&& ha < hb ==> x < y
            &&& ha > hb ==> x > y
            &&& ha == hb && a.len() >= b.len() ==> x - y == magnitude(a.take(a.len() - b.len()))
            &&& ha == hb && b.len() >= a.len() ==> y - x == magnitude(b.take(b.len() - a.len()))
        }),
{
    if a.len() >= b.len() {
        lemma_aligned_order(a, b);
        assert(b.skip(0) =~= b);
        if a.len() == b.len() {
            assert(a.skip(0) =~= a);
            assert(a.take(0).len() == 0);
            assert(b.take(0).len() == 0);
        }
    } else {
        lemma_aligned_order(b, a);
        assert(a.skip(0) =~= a);
    }
}

/// Whether one of the `n` least significant digits is not zero.
pub fn has_nonzero_below(digits: &Vec<u64>, n: usize) -> (r: bool)
    requires
        n <= digits@.len(),
    ensures
        r == (magnitude(digits@.take(n as int)) != 0),
{
    let mut i: usize = 0;
    while i < n
        invariant
            i <= n <= digits@.len(),
            forall|k: int| 0 <= k < i ==> digits@[k] == 0,
        decreases n - i,
    {
        if digits[i] != 0 {
            proof {
                lemma_magnitude_zero(digits@.take(n as int));
                assert(digits@.take(n as int)[i as int] != 0);
            }
            return true;
        }
        i = i + 1;
    }
    proof {
        lemma_magnitude_zero(digits@.take(n as int));
    }
    false
}

/// Compares the numbers of two digit strings that start at the same place:
/// -1, 0 or 1 as the first is below, equal to or above the second.
pub fn compare_aligned(a: &Vec<u64>, b: &Vec<u64>) -> (r: i8)
    ensures
        -1 <= r <= 1,
        (r < 0) == (aligned(a@, b@.len()) < aligned(b@, a@.len())),
        (r > 0) == (aligned(a@, b@.len()) > aligned(b@, a@.len())),
{
    let la: usize = a.len();
    let lb: usize = b.len();
    let common: usize = if la <= lb {
        la
    } else {
        lb
    };
    let ghost ha = a@.skip(la - common);
    let ghost hb = b@.skip(lb - common);
    let mut j: usize = 0;
    while j < common
        invariant
            j <= common,
            common <= la,
            common <= lb,
            common == la || common == lb,
            la == a@.len(),
            lb == b@.len(),
            ha == a@.skip(la - common),
            hb == b@.skip(lb - common),
            forall|k: int| common - j <= k < common ==> ha[k] == hb[k],
        decreases common - j,
    {
        let x: u64 = a[la - 1 - j];
        let y: u64 = b[lb - 1 - j];
        assert(ha[common - 1 - j] == x);
        assert(hb[common - 1 - j] == y);
        if x < y {
            proof {
                lemma_magnitude_order(ha, hb, common - 1 - j);
                lemma_aligned_by_tops(a@, b@);
            }
            return -1;
        }
        if x > y {
            proof {
                lemma_magnitude_order(hb, ha, common - 1 - j);
                lemma_aligned_by_tops(a@, b@);
            }
            return 1;
        }
        j = j + 1;
    }
    assert(ha =~= hb);
    proof {
        lemma_aligned_by_tops(a@, b@);
    }
    if la > lb {
        if has_nonzero_below(a, la - lb) {
            1
        } else {
            0
        }
    } else if lb > la {
        if has_nonzero_below(b, lb - la) {
            -1
        } else {
            0
        }
    } else {
        assert(a@.take(0).len() == 0);
        0
    }
}

/// Adds one to the number of a digit string: the digits of the sum at the
/// same places, and whether a one is carried out of the last place.
pub fn increment(digits: &Vec<u64>) -> (r: (Vec<u64>, bool))
    ensures
        r.0@.len() == digits@.len(),
        magnitude(r.0@) + (if r.1 {
            pow64(digits@.len())
        } else {
            0
        }) == magnitude(digits@) + 1,
        !r.1 && digits@.len() > 0 && digits@.last() != 0 ==> r.0@.last() != 0,
{
    let n: usize = digits.len();
    let mut out: Vec<u64> = Vec::new();
    let mut carry: bool = true;
    let mut i: usize = 0;
    assert(digits@.take(0).len() == 0);
    while i < n
        invariant
            i <= n,
            n == digits@.len(),
            out@.len() == i,
            magnitude(out@) + (if carry {
                pow64(i as nat)
            } else {
                0
            }) == magnitude(digits@.take(i as int)) + 1,
            !carry && i > 0 ==> out@[i - 1] != 0 || digits@[i - 1] == 0,
        decreases n - i,
    {
        let x: u64 = digits[i];
        let ghost before = out@;
        let y: u64 = if carry {
            if x == u64::MAX {
                0
            } else {
                carry = false;
                x + 1
            }
        } else {
            x
        };
        out.push(y);
        proof {
            let p = pow64(i as nat);
            assert(out@.drop_last() =~= before);
            assert(digits@.take(i + 1).drop_last() =~= digits@.take(i as int));
            assert(digits@.take(i + 1).last() == x);
            assert(pow64((i + 1) as nat) == radix() * p);
            assert(magnitude(out@) == magnitude(before) + (y as nat) * p);
            assert(magnitude(digits@.take(i + 1)) == magnitude(digits@.take(i as int)) + (
            x as nat) * p);
            assert((x as nat + 1) * p == (x as nat) * p + p) by (nonlinear_arith);
            assert(0 * p == 0) by (nonlinear_arith);
            assert(radix() * p == (radix() - 1) * p + p) by (nonlinear_arith);
        }
        i = i + 1;
    }
    assert(digits@.take(n as int) =~= digits@);
    (out, carry)
}

/// The number of digits that `n` takes in base 2^64; zero takes none.
pub open spec fn digit_count(n: nat) -> nat
    decreases n,
{
    if n == 0 {
        0
    } else {
        1 + digit_count(n / radix())
    }
}

/// A number from the `(len - 1)`-th power of the base up to, not including,
/// the `len`-th takes `len` digits.
pub proof fn lemma_digit_count(n: nat, len: nat)
    requires
        len > 0 ==> pow64((len - 1) as nat) <= n,
        n < pow64(len),
    ensures
        digit_count(n) == len,
    decreases len,
{
    assert(pow64(0) == 1);
    if len > 0 {
        lemma_pow64_positive((len - 1) as nat);
        let r = radix();
        let p = pow64((len - 1) as nat);
        assert(n / r < p) by (nonlinear_arith)
            requires
                n < r * p,
                r > 0,
        ;
        if len > 1 {
            let q = pow64((len - 2) as nat);
            assert(p == r * q);
            assert(n / r >= q) by (nonlinear_arith)
                requires
                    n >= r * q,
                    r > 0,
            ;
        }
        lemma_digit_count(n / r, (len - 1) as nat);
    }
}

/// A number below the `len`-th power of the base takes `len` digits at most.
pub proof fn lemma_count_bound(n: nat, len: nat)
    requires
        n < pow64(len),
    ensures
        digit_count(n) <= len,
    decreases len,
{
    assert(pow64(0) == 1);
    if len > 0 && n > 0 {
        let r = radix();
        let p = pow64((len - 1) as nat);
        assert(n / r < p) by (nonlinear_arith)
            requires
                n < r * p,
                r > 0,
        ;
        lemma_count_bound(n / r, (len - 1) as nat);
    }
}

/// Replacing the digit at place `k` changes the number by the difference of
/// the digits times the `k`-th power of the base.
pub proof fn lemma_magnitude_update(digits: Seq<u64>, k: int, v: u64)
    requires
        0 <= k < digits.len(),
    ensures
        magnitude(digits.update(k, v)) + (digits[k] as nat) * pow64(k as nat) == magnitude(digits)
            + (v as nat) * pow64(k as nat),
    decreases digits.len(),
{
    let after = digits.update(k, v);
    if k == digits.len() - 1 {
        assert(after.drop_last() =~= digits.drop_last());
    } else {
        lemma_magnitude_update(digits.drop_last(), k, v);
        assert(after.drop_last() =~= digits.drop_last().update(k, v));
    }
}

/// The product of the numbers of two digit strings, as a digit string with
/// as many digits as the two together.
pub fn multiply(a: &Vec<u64>, b: &Vec<u64>) -> (r: Vec<u64>)
    requires
        a@.len() + b@.len() <= usize::MAX,
    ensures
        r@.len() == a@.len() + b@.len(),
        magnitude(r@) == magnitude(a@) * magnitude(b@),
{
    let la: usize = a.len();
    let lb: usize = b.len();
    let ghost mb = magnitude(b@);
    let mut acc: Vec<u64> = Vec::new();
    let mut n: usize = 0;
    while n < la + lb
        invariant
            n <= la + lb,
            la + lb <= usize::MAX,
            acc@.len() == n,
            forall|k: int| 0 <= k < n ==> acc@[k] == 0,
        decreases la + lb - n,
    {
        acc.push(0);
        n = n + 1;
    }
    proof {
        lemma_magnitude_zero(acc@);
        assert(a@.take(0).len() == 0);
        assert(0 * mb == 0) by (nonlinear_arith);
    }
    let mut i: usize = 0;
    while i < la
        invariant
            i <= la,
            la == a@.len(),
            lb == b@.len(),
            la + lb <= usize::MAX,
            mb == magnitude(b@),
            acc@.len() == la + lb,
            magnitude(acc@) == magnitude(a@.take(i as int)) * mb,
            forall|k: int| i + lb <= k < la + lb ==> acc@[k] == 0,
        decreases la - i,
    {
        let x: u64 = a[i];
        let ghost base = magnitude(a@.take(i as int)) * mb;
        let ghost pi = pow64(i as nat);
        let mut carry: u64 = 0;
        let mut j: usize = 0;
        proof {
            assert(b@.take(0).len() == 0);
            assert((x as nat) * 0 * pi == 0) by (nonlinear_arith);
            assert(0 * pow64(i as nat) == 0) by (nonlinear_arith);
        }
        while j < lb
            invariant
                j <= lb,
                i < la,
                la == a@.len(),
                lb == b@.len(),
                la + lb <= usize::MAX,
                x == a@[i as int],
                pi == pow64(i as nat),
                acc@.len() == la + lb,
                magnitude(acc@) + (carry as nat) * pow64((i + j) as nat) == base + (x as nat)
                    * magnitude(b@.take(j as int)) * pi,
                forall|k: int| i + lb <= k < la + lb ==> acc@[k] == 0,
            decreases lb - j,
        {
            let y: u64 = b[j];
            let old_digit: u64 = acc[i + j];
            let ghost before = acc@;
            assert((x as u128) * (y as u128) <= 0xffff_ffff_ffff_ffff * 0xffff_ffff_ffff_ffff)
                by (nonlinear_arith)
                requires
                    x <= 0xffff_ffff_ffff_ffff,
                    y <= 0xffff_ffff_ffff_ffff,
            ;
            let t: u128 = (x as u128) * (y as u128) + (old_digit as u128) + (carry as u128);
            let low: u128 = t & 0xffff_ffff_ffff_ffff;
            let high: u128 = t >> 64;
            assert(low <= 0xffff_ffff_ffff_ffff && high <= 0xffff_ffff_ffff_ffff && t == high
                * 0x1_0000_0000_0000_0000 + low) by (bit_vector)
                requires
                    low == t & 0xffff_ffff_ffff_ffff,
                    high == t >> 64,
            ;
            acc.set(i + j, low as u64);
            carry = high as u64;
            proof {
                let p = pow64((i + j) as nat);
                let pj = pow64(j as nat);
                let bj = magnitude(b@.take(j as int));
                lemma_magnitude_update(before, (i + j) as int, low as u64);
                lemma_pow64_adds(i as nat, j as nat);
                assert(pow64((i + j + 1) as nat) == radix() * p);
                assert(b@.take(j + 1).drop_last() =~= b@.take(j as int));
                assert(b@.take(j + 1).last() == y);
                assert(magnitude(b@.take(j + 1)) == bj + (y as nat) * pj);
                let xn = x as nat;
                let yn = y as nat;
                let on = old_digit as nat;
                let ln = low as nat;
                let hn = high as nat;
                assert(ln * p + hn * (radix() * p) == (xn * yn) * p + on * p + (t - xn * yn - on)
                    * p) by (nonlinear_arith)
                    requires
                        t == hn * radix() + ln,
                ;
                assert(xn * (bj + yn * pj) * pi == xn * bj * pi + (xn * yn) * p)
                    by (nonlinear_arith)
                    requires
                        p == pi * pj,
                ;
            }
            j = j + 1;
        }
        let ghost before = acc@;
        acc.set(i + lb, carry);
        proof {
            lemma_magnitude_update(before, (i + lb) as int, carry);
            assert(b@.take(lb as int) =~= b@);
            assert(a@.take(i + 1).drop_last() =~= a@.take(i as int));
            assert(a@.take(i + 1).last() == x);
            let ai = magnitude(a@.take(i as int));
            let xn = x as nat;
            assert(0 * pow64((i + lb) as nat) == 0) by (nonlinear_arith);
            assert((ai + xn * pi) * mb == ai * mb + xn * mb * pi) by (nonlinear_arith);
        }
        i = i + 1;
    }
    assert(a@.take(la as int) =~= a@);
    acc
}

/// The `len` digits of a digit string that is moved up by `offset` places
/// (down, where `offset` is below zero): zeros come in where the string has
/// no digit, and digits that fall below place zero are dropped.
pub open spec fn window(digits: Seq<u64>, offset: int, len: nat) -> Seq<u64> {
    Seq::new(
        len,
        |k: int|
            if 0 <= k - offset < digits.len() {
                digits[k - offset]
            } else {
                0u64
            },
    )
}

/// The number of a window that takes in the top of the digit string: the
/// string's number times the power of the base by which it is moved up, or
/// divided by the power by which it is moved down, the remainder dropped.
pub proof fn lemma_window(digits: Seq<u64>, offset: int, len: nat)
    requires
        digits.len() > 0 ==> digits.len() + offset <= len,
    ensures
        offset >= 0 ==> magnitude(window(digits, offset, len)) == magnitude(digits) * pow64(
            offset as nat,
        ),
        offset < 0 ==> magnitude(window(digits, offset, len)) == magnitude(digits) / pow64(
            (-offset) as nat,
        ),
{
    let x = window(digits, offset, len);
    let n = digits.len();
    let m = magnitude(digits);
    let shift = if offset >= 0 {
        offset as nat
    } else {
        (-offset) as nat
    };
    let p = pow64(shift);
    lemma_pow64_positive(shift);
    if n == 0 {
        lemma_magnitude_zero(x);
        assert(0 * p == 0) by (nonlinear_arith);
        lemma_fundamental_div_mod_converse(0, p as int, 0, 0);
    } else if offset >= 0 {
        let low = x.take(offset);
        let rest = x.skip(offset);
        lemma_magnitude_split(x, offset as nat);
        lemma_magnitude_zero(low);
        lemma_magnitude_split(rest, n);
        assert(rest.take(n as int) =~= digits);
        lemma_magnitude_zero(rest.skip(n as int));
        assert(pow64(n) * 0 == 0) by (nonlinear_arith);
        assert(p * m == m * p) by (nonlinear_arith);
    } else if shift >= n {
        lemma_magnitude_zero(x);
        lemma_magnitude_bound(digits);
        lemma_pow64_monotone(n, shift);
        lemma_fundamental_div_mod_converse(m as int, p as int, 0, m as int);
    } else {
        let k = (n - shift) as nat;
        lemma_magnitude_split(x, k);
        assert(x.take(k as int) =~= digits.skip(shift as int));
        lemma_magnitude_zero(x.skip(k as int));
        assert(pow64(k) * 0 == 0) by (nonlinear_arith);
        lemma_magnitude_split(digits, shift);
        lemma_magnitude_bound(digits.take(shift as int));
        let high = magnitude(digits.skip(shift as int)) as int;
        let low = magnitude(digits.take(shift as int)) as int;
        assert(p * high == high * p) by (nonlinear_arith);
        lemma_fundamental_div_mod_converse(m as int, p as int, high, low);
    }
}

/// The sum of the numbers of two digit strings of one length, with one more
/// digit for the carry.
pub fn add_digits(x: &Vec<u64>, y: &Vec<u64>) -> (r: Vec<u64>)
    requires
        x@.len() == y@.len(),
    ensures
        r@.len() == x@.len() + 1,
        magnitude(r@) == magnitude(x@) + magnitude(y@),
{
    let n: usize = x.len();
    let mut out: Vec<u64> = Vec::new();
    let mut carry: u64 = 0;
    let mut i: usize = 0;
    proof {
        assert(x@.take(0).len() == 0);
        assert(y@.take(0).len() == 0);
        assert(0 * pow64(0) == 0) by (nonlinear_arith);
    }
    while i < n
        invariant
            i <= n,
            n == x@.len(),
            n == y@.len(),
            out@.len() == i,
            carry <= 1,
            magnitude(out@) + (carry as nat) * pow64(i as nat) == magnitude(x@.take(i as int))
                + magnitude(y@.take(i as int)),
        decreases n - i,
    {
        let a: u64 = x[i];
        let b: u64 = y[i];
        let t: u128 = (a as u128) + (b as u128) + (carry as u128);
        let low: u128 = t & 0xffff_ffff_ffff_ffff;
        let high: u128 = t >> 64;
        assert(low <= 0xffff_ffff_ffff_ffff && high <= 1 && t == high * 0x1_0000_0000_0000_0000
            + low) by (bit_vector)
            requires
                low == t & 0xffff_ffff_ffff_ffff,
                high == t >> 64,
                t <= 0x1_ffff_ffff_ffff_ffff,
        ;
        let ghost before = out@;
        let ghost old_carry = carry as nat;
        out.push(low as u64);
        carry = high as u64;
        proof {
            let p = pow64(i as nat);
            assert(out@.drop_last() =~= before);
            assert(x@.take(i + 1).drop_last() =~= x@.take(i as int));
            assert(y@.take(i + 1).drop_last() =~= y@.take(i as int));
            assert(x@.take(i + 1).last() == a);
            assert(y@.take(i + 1).last() == b);
            assert(pow64((i + 1) as nat) == radix() * p);
            let an = a as nat;
            let bn = b as nat;
            let ln = low as nat;
            let hn = high as nat;
            assert(magnitude(out@) == magnitude(before) + ln * p);
            assert(magnitude(x@.take(i + 1)) == magnitude(x@.take(i as int)) + an * p);
            assert(magnitude(y@.take(i + 1)) == magnitude(y@.take(i as int)) + bn * p);
            assert(ln * p + hn * (radix() * p) == an * p + bn * p + old_carry * p)
                by (nonlinear_arith)
                requires
                    an + bn + old_carry == hn * radix() + ln,
            ;
        }
        i = i + 1;
    }
    let ghost before = out@;
    out.push(carry);
    proof {
        assert(out@.drop_last() =~= before);
        assert(x@.take(n as int) =~= x@);
        assert(y@.take(n as int) =~= y@);
    }
    out
}

/// The difference of the numbers of two digit strings of one length, and
/// whether it is below zero; where it is, the digits are those of the
/// difference plus the power of the base at the strings' length.
pub fn sub_digits(x: &Vec<u64>, y: &Vec<u64>) -> (r: (Vec<u64>, bool))
    requires
        x@.len() == y@.len(),
    ensures
        r.0@.len() == x@.len(),
        magnitude(r.0@) + magnitude(y@) == magnitude(x@) + (if r.1 {
            pow64(x@.len())
        } else {
            0
        }),
        r.1 == (magnitude(x@) < magnitude(y@)),
{
    let n: usize = x.len();
    let mut out: Vec<u64> = Vec::new();
    let mut borrow: u64 = 0;
    let mut i: usize = 0;
    proof {
        assert(x@.take(0).len() == 0);
        assert(y@.take(0).len() == 0);
        assert(0 * pow64(0) == 0) by (nonlinear_arith);
    }
    while i < n
        invariant
            i <= n,
            n == x@.len(),
            n == y@.len(),
            out@.len() == i,
            borrow <= 1,
            magnitude(out@) + magnitude(y@.take(i as int)) == magnitude(x@.take(i as int)) + (
            borrow as nat) * pow64(i as nat),
        decreases n - i,
    {
        let a: u64 = x[i];
        let b: u64 = y[i];
        let t: u128 = 0x1_0000_0000_0000_0000 + (a as u128) - (b as u128) - (borrow as u128);
        let low: u128 = t & 0xffff_ffff_ffff_ffff;
        let high: u128 = t >> 64;
        assert(low <= 0xffff_ffff_ffff_ffff && high <= 1 && t == high * 0x1_0000_0000_0000_0000
            + low) by (bit_vector)
            requires
                low == t & 0xffff_ffff_ffff_ffff,
                high == t >> 64,
                t <= 0x1_ffff_ffff_ffff_ffff,
        ;
        let ghost before = out@;
        let ghost old_borrow = borrow as nat;
        out.push(low as u64);
        borrow = 1 - high as u64;
        proof {
            let p = pow64(i as nat);
            assert(out@.drop_last() =~= before);
            assert(x@.take(i + 1).drop_last() =~= x@.take(i as int));
            assert(y@.take(i + 1).drop_last() =~= y@.take(i as int));
            assert(x@.take(i + 1).last() == a);
            assert(y@.take(i + 1).last() == b);
            assert(pow64((i + 1) as nat) == radix() * p);
            let an = a as nat;
            let bn = b as nat;
            let ln = low as nat;
            let nb = borrow as nat;
            assert(magnitude(out@) == magnitude(before) + ln * p);
            assert(magnitude(x@.take(i + 1)) == magnitude(x@.take(i as int)) + an * p);
            assert(magnitude(y@.take(i + 1)) == magnitude(y@.take(i as int)) + bn * p);
            assert(ln * p + bn * p + old_borrow * p == an * p + nb * (radix() * p))
                by (nonlinear_arith)
                requires
                    ln + bn + old_borrow == an + nb * radix(),
            ;
        }
        i = i + 1;
    }
    proof {
        assert(x@.take(n as int) =~= x@);
        assert(y@.take(n as int) =~= y@);
        lemma_magnitude_bound(out@);
        lemma_magnitude_bound(x@);
        lemma_magnitude_bound(y@);
        assert(1 * pow64(n as nat) == pow64(n as nat)) by (nonlinear_arith);
        assert(0 * pow64(n as nat) == 0) by (nonlinear_arith);
    }
    (out, borrow == 1)
}

/// The window of `len` digits on a digit string that is moved by `offset`
/// places.
pub fn take_window(digits: &Vec<u64>, offset: i128, len: usize) -> (r: Vec<u64>)
    requires
        -0x4000_0000_0000_0000_0000_0000 <= offset <= 0x4000_0000_0000_0000_0000_0000,
    ensures
        r@ == window(digits@, offset as int, len as nat),
{
    let n: usize = digits.len();
    let mut out: Vec<u64> = Vec::new();
    let mut i: usize = 0;
    while i < len
        invariant
            i <= len,
            n == digits@.len(),
            -0x4000_0000_0000_0000_0000_0000 <= offset <= 0x4000_0000_0000_0000_0000_0000,
            out@ == window(digits@, offset as int, i as nat),
        decreases len - i,
    {
        let at: i128 = i as i128 - offset;
        let d: u64 = if 0 <= at && at < n as i128 {
            digits[at as usize]
        } else {
            0
        };
        out.push(d);
        assert(out@ =~= window(digits@, offset as int, (i + 1) as nat));
        i = i + 1;
    }
    out
}

/// Whether the number of the first digit string is not above that of the
/// second.
pub fn not_above(x: &Vec<u64>, y: &Vec<u64>) -> (r: bool)
    ensures
        r == (magnitude(x@) <= magnitude(y@)),
{
    let len: usize = if x.len() >= y.len() {
        x.len()
    } else {
        y.len()
    };
    let xp = take_window(x, 0, len);
    let yp = take_window(y, 0, len);
    proof {
        lemma_window(x@, 0, len as nat);
        lemma_window(y@, 0, len as nat);
        assert(pow64(0) == 1);
        assert(magnitude(x@) * 1 == magnitude(x@) && magnitude(y@) * 1 == magnitude(y@))
            by (nonlinear_arith);
    }
    let (_, below) = sub_digits(&yp, &xp);
    !below
}

/// The quotient of the numbers of two digit strings, the remainder dropped,
/// found digit by digit from the top, each digit by halving: the work grows
/// with the cube of the length.
pub fn divide(n: &Vec<u64>, d: &Vec<u64>) -> (q: Vec<u64>)
    requires
        magnitude(d@) > 0,
        n@.len() + d@.len() <= usize::MAX,
    ensures
        q@.len() == n@.len(),
        magnitude(q@) == magnitude(n@) / magnitude(d@),
{
    let len: usize = n.len();
    let ghost total = magnitude(n@) as int;
    let ghost by = magnitude(d@) as int;
    let mut q: Vec<u64> = Vec::new();
    let mut i: usize = 0;
    while i < len
        invariant
            i <= len,
            q@.len() == i,
            forall|k: int| 0 <= k < i ==> q@[k] == 0,
        decreases len - i,
    {
        q.push(0);
        i = i + 1;
    }
    proof {
        lemma_magnitude_zero(q@);
        lemma_magnitude_bound(n@);
        let p = pow64(len as nat) as int;
        assert(0 * by == 0) by (nonlinear_arith);
        lemma_pow64_positive(len as nat);
        assert(p <= p * by) by (nonlinear_arith)
            requires
                p >= 1,
                by >= 1,
        ;
        assert((0 + p) * by == p * by);
    }
    let mut pos: usize = len;
    while pos > 0
        invariant
            pos <= len,
            len == n@.len(),
            len + d@.len() <= usize::MAX,
            q@.len() == len,
            total == magnitude(n@),
            by == magnitude(d@),
            by > 0,
            forall|k: int| 0 <= k < pos ==> q@[k] == 0,
            magnitude(q@) * by <= total,
            total < (magnitude(q@) + pow64(pos as nat)) * by,
        decreases pos,
    {
        pos = pos - 1;
        let ghost unit = pow64(pos as nat) as int;
        let mut cur: u64 = 0;
        let mut bit: u32 = 64;
        let ghost mut gap: int = 0x1_0000_0000_0000_0000;
        assert(pow64((pos + 1) as nat) == radix() * pow64(pos as nat));
        while bit > 0
            invariant
                bit <= 64,
                pos < len,
                len == n@.len(),
                len + d@.len() <= usize::MAX,
                q@.len() == len,
                total == magnitude(n@),
                by == magnitude(d@),
                unit == pow64(pos as nat),
                q@[pos as int] == cur,
                forall|k: int| 0 <= k < pos ==> q@[k] == 0,
                bit == 64 ==> gap == 0x1_0000_0000_0000_0000,
                bit < 64 ==> gap == (1u64 << bit),
                cur + gap <= 0x1_0000_0000_0000_0000,
                magnitude(q@) * by <= total,
                total < (magnitude(q@) + gap * unit) * by,
            decreases bit,
        {
            bit = bit - 1;
            let step: u64 = 1u64 << bit;
            assert(bit == 63 ==> step == 0x8000_0000_0000_0000) by (bit_vector)
                requires
                    step == 1u64 << bit,
            ;
            assert(bit < 63 ==> (1u64 << ((bit + 1) as u32)) == 2 * step && step
                <= 0x4000_0000_0000_0000) by (bit_vector)
                requires
                    step == 1u64 << bit,
                    bit < 64,
            ;
            assert(gap == 2 * step);
            let ghost before = q@;
            let ghost was = magnitude(q@) as int;
            let next: u64 = cur + step;
            q.set(pos, next);
            let product = multiply(&q, d);
            proof {
                lemma_magnitude_update(before, pos as int, next);
                assert((cur as nat) * pow64(pos as nat) + step * unit == (next as nat) * pow64(
                    pos as nat,
                )) by (nonlinear_arith)
                    requires
                        next == cur + step,
                        unit == pow64(pos as nat),
                ;
                assert(magnitude(q@) == was + step * unit);
                assert(was + step * unit + step * unit == was + gap * unit) by (nonlinear_arith)
                    requires
                        gap == 2 * step,
                ;
            }
            if not_above(&product, n) {
                cur = next;
            } else {
                q.set(pos, cur);
                proof {
                    assert(q@ =~= before);
                }
            }
            proof {
                gap = step as int;
            }
        }
        proof {
            assert((1u64 << 0u32) == 1) by (bit_vector);
            assert(gap == 1);
            assert(1 * unit == unit) by (nonlinear_arith);
        }
    }
    proof {
        assert(pow64(0) == 1);
        let m = magnitude(q@) as int;
        assert((m + 1) * by == m * by + by) by (nonlinear_arith);
        lemma_fundamental_div_mod_converse(total, by, m, total - m * by);
    }
    q
}

/// Whether `root` is the whole part of the square root of `n`.
pub open spec fn is_root(root: nat, n: nat) -> bool {
    root * root <= n && n < (root + 1) * (root + 1)
}

/// The whole part of the square root of the number of a digit string, found
/// digit by digit from the top, each digit by halving: the work grows with
/// the cube of the length.
pub fn square_root(n: &Vec<u64>) -> (q: Vec<u64>)
    requires
        2 * n@.len() <= usize::MAX,
    ensures
        q@.len() == n@.len(),
        is_root(magnitude(q@), magnitude(n@)),
{
    let len: usize = n.len();
    let ghost total = magnitude(n@) as int;
    let mut q: Vec<u64> = Vec::new();
    let mut i: usize = 0;
    while i < len
        invariant
            i <= len,
            q@.len() == i,
            forall|k: int| 0 <= k < i ==> q@[k] == 0,
        decreases len - i,
    {
        q.push(0);
        i = i + 1;
    }
    proof {
        lemma_magnitude_zero(q@);
        lemma_magnitude_bound(n@);
        let p = pow64(len as nat) as int;
        lemma_pow64_positive(len as nat);
        assert(p <= p * p) by (nonlinear_arith)
            requires
                p >= 1,
        ;
        assert((0 + p) * (0 + p) == p * p);
        assert(0 * 0 == 0);
    }
    let mut pos: usize = len;
    while pos > 0
        invariant
            pos <= len,
            len == n@.len(),
            2 * len <= usize::MAX,
            q@.len() == len,
            total == magnitude(n@),
            forall|k: int| 0 <= k < pos ==> q@[k] == 0,
            magnitude(q@) * magnitude(q@) <= total,
            total < (magnitude(q@) + pow64(pos as nat)) * (magnitude(q@) + pow64(pos as nat)),
        decreases pos,
    {
        pos = pos - 1;
        let ghost unit = pow64(pos as nat) as int;
        let mut cur: u64 = 0;
        let mut bit: u32 = 64;
        let ghost mut gap: int = 0x1_0000_0000_0000_0000;
        assert(pow64((pos + 1) as nat) == radix() * pow64(pos as nat));
        while bit > 0
            invariant
                bit <= 64,
                pos < len,
                len == n@.len(),
                2 * len <= usize::MAX,
                q@.len() == len,
                total == magnitude(n@),
                unit == pow64(pos as nat),
                q@[pos as int] == cur,
                forall|k: int| 0 <= k < pos ==> q@[k] == 0,
                bit == 64 ==> gap == 0x1_0000_0000_0000_0000,
                bit < 64 ==> gap == (1u64 << bit),
                cur + gap <= 0x1_0000_0000_0000_0000,
                magnitude(q@) * magnitude(q@) <= total,
                total < (magnitude(q@) + gap * unit) * (magnitude(q@) + gap * unit),
            decreases bit,
        {
            bit = bit - 1;
            let step: u64 = 1u64 << bit;
            assert(bit == 63 ==> step == 0x8000_0000_0000_0000) by (bit_vector)
                requires
                    step == 1u64 << bit,
            ;
            assert(bit < 63 ==> (1u64 << ((bit + 1) as u32)) == 2 * step && step
                <= 0x4000_0000_0000_0000) by (bit_vector)
                requires
                    step == 1u64 << bit,
                    bit < 64,
            ;
            assert(gap == 2 * step);
            let ghost before = q@;
            let ghost was = magnitude(q@) as int;
            let next: u64 = cur + step;
            q.set(pos, next);
            let product = multiply(&q, &q);
            proof {
                lemma_magnitude_update(before, pos as int, next);
                assert((cur as nat) * pow64(pos as nat) + step * unit == (next as nat) * pow64(
                    pos as nat,
                )) by (nonlinear_arith)
                    requires
                        next == cur + step,
                        unit == pow64(pos as nat),
                ;
                assert(magnitude(q@) == was + step * unit);
                assert(was + step * unit + step * unit == was + gap * unit) by (nonlinear_arith)
                    requires
                        gap == 2 * step,
                ;
            }
            if not_above(&product, n) {
                cur = next;
            } else {
                q.set(pos, cur);
                proof {
                    assert(q@ =~= before);
                }
            }
            proof {
                gap = step as int;
            }
        }
        proof {
            assert((1u64 << 0u32) == 1) by (bit_vector);
            assert(gap == 1);
            assert(1 * unit == unit) by (nonlinear_arith);
        }
    }
    proof {
        assert(pow64(0) == 1);
    }
    q
}

} // verus!
