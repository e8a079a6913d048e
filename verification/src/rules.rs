//! The rules that every operation on two values follows, whatever computes
//! the digits: the precision of the result, and the operands on which an
//! operation is defined.

use vstd::prelude::*;
use vstd::string::StringSliceAdditionalSpecFns;
use crate::error::ParseMpfError;
use crate::float::Mpf;
use crate::value::MpfView;
use crate::sign::Sign;

verus! {

/// The precision of the result of an operation on two values: the greater of
/// the operands' precisions.
pub open spec fn joint_precision(a: MpfView, b: MpfView) -> nat {
    if a.prec >= b.prec {
        a.prec
    } else {
        b.prec
    }
}

/// The precision at which the sum, difference, product, quotient or relative
/// difference of `a` and `b` is made.
pub fn result_precision(a: &Mpf, b: &Mpf) -> (p: usize)
    ensures
        p as nat == joint_precision(a@, b@),
        p >= 1,
{
    let pa: usize = a.get_prec();
    let pb: usize = b.get_prec();
    if pa >= pb {
        pa
    } else {
        pb
    }
}

/// Whether a quotient or a remainder by `divisor` is defined: the divisor is
/// not zero.
pub fn division_defined(divisor: &Mpf) -> (b: bool)
    ensures
        b == (divisor@.sign() != Sign::Zero),
{
    !divisor.is_zero()
}

/// Whether the square root of `operand` is defined: the operand is above
/// zero.
pub fn square_root_defined(operand: &Mpf) -> (b: bool)
    ensures
        b == (operand@.sign() == Sign::Positive),
{
    operand.is_positive()
}

/// Whether a text can be handed on for conversion: it holds no zero byte.
pub fn check_text(text: &str) -> (r: Result<(), ParseMpfError>)
    ensures
        r.is_ok() <==> !text.spec_bytes().contains(0u8),
{
    let bytes = text.as_bytes();
    let n: usize = bytes.len();
    let mut i: usize = 0;
    while i < n
        invariant
            i <= n,
            n == bytes@.len(),
            bytes@ == text.spec_bytes(),
            forall|k: int| 0 <= k < i ==> bytes@[k] != 0u8,
        decreases n - i,
    {
        if bytes[i] == 0 {
            assert(text.spec_bytes()[i as int] == 0u8);
            return Err(ParseMpfError::new());
        }
        i = i + 1;
    }
    Ok(())
}

/// What a conversion answers for the status that reading the digits ended
/// with: success for zero, the parse error for anything else.
pub fn check_status(status: i32) -> (r: Result<(), ParseMpfError>)
    ensures
        r.is_ok() <==> status == 0,
{
    if status == 0 {
        Ok(())
    } else {
        Err(ParseMpfError::new())
    }
}

/// The radix as a signed machine integer, where it fits one.
pub fn checked_radix(radix: u32) -> (r: Option<i32>)
    ensures
        r.is_some() <==> radix <= i32::MAX,
        r.is_some() ==> r.unwrap() == radix,
{
    if radix <= 0x7fff_ffff {
        Some(radix as i32)
    } else {
        None
    }
}

/// The joint precision does not depend on the order of the operands, is the
/// precision of one of them, and is below neither.
pub proof fn lemma_joint_precision(a: MpfView, b: MpfView)
    ensures
        joint_precision(a, b) == joint_precision(b, a),
        joint_precision(a, b) == a.prec || joint_precision(a, b) == b.prec,
        joint_precision(a, b) >= a.prec,
        joint_precision(a, b) >= b.prec,
{
}

} // verus!
