//! The grammar of a number written in a radix from 2 to 62: an optional
//! minus sign, digits with an optional radix point among them, and an optional
//! exponent, which is a marker, an optional sign and decimal digits.

use vstd::prelude::*;
use vstd::string::StringSliceAdditionalSpecFns;
use crate::error::ParseMpfError;

verus! {

/// The value of a byte as a digit, or 255 where it is none: `0` to `9`, then
/// the letters for ten and above. Up to radix 36 a letter counts the same in
/// either case; above it the capitals come first.
pub open spec fn digit_value(c: u8, radix: int) -> int {
    if 48 <= c <= 57 {
        c - 48
    } else if 65 <= c <= 90 {
        c - 55
    } else if 97 <= c <= 122 {
        if radix <= 36 {
            c - 87
        } else {
            c - 61
        }
    } else {
        255
    }
}

/// Whether a byte is a digit of the radix.
pub open spec fn is_digit(c: u8, radix: int) -> bool {
    digit_value(c, radix) < radix
}

/// Whether a byte marks the exponent: `@` in every radix, and `e` or `E`
/// where these are no digits, up to radix 10.
pub open spec fn is_marker(c: u8, radix: int) -> bool {
    c == 64 || (radix <= 10 && (c == 101 || c == 69))
}

/// The place after the digits that start at place `from`.
pub open spec fn digits_end(s: Seq<u8>, from: int, radix: int) -> int
    decreases s.len() - from,
{
    if 0 <= from < s.len() && is_digit(s[from], radix) {
        digits_end(s, from + 1, radix)
    } else {
        from
    }
}

/// Whether what starts at place `from` is an exponent that ends the text: a
/// marker, an optional sign, and one decimal digit or more.
pub open spec fn is_exponent(s: Seq<u8>, from: int, radix: int) -> bool {
    let signed = from + 1 < s.len() && (s[from + 1] == 43 || s[from + 1] == 45);
    let start = if signed {
        from + 2
    } else {
        from + 1
    };
    &&& 0 <= from < s.len()
    &&& is_marker(s[from], radix)
    &&& digits_end(s, start, 10) > start
    &&& digits_end(s, start, 10) == s.len()
}

/// Whether the text is a number in the radix.
pub open spec fn is_number(s: Seq<u8>, radix: int) -> bool {
    let start: int = if s.len() > 0 && s[0] == 45 {
        1
    } else {
        0
    };
    let whole_end = digits_end(s, start, radix);
    let pointed = whole_end < s.len() && s[whole_end] == 46;
    let end = if pointed {
        digits_end(s, whole_end + 1, radix)
    } else {
        whole_end
    };
    let count = if pointed {
        end - start - 1
    } else {
        end - start
    };
    &&& 2 <= radix <= 62
    &&& count >= 1
    &&& end == s.len() || is_exponent(s, end, radix)
}

/// Whether a byte is a digit of the radix.
fn digit_in(c: u8, radix: i32) -> (r: bool)
    requires
        2 <= radix <= 62,
    ensures
        r == is_digit(c, radix as int),
{
    let value: i32 = if 48 <= c && c <= 57 {
        c as i32 - 48
    } else if 65 <= c && c <= 90 {
        c as i32 - 55
    } else if 97 <= c && c <= 122 {
        if radix <= 36 {
            c as i32 - 87
        } else {
            c as i32 - 61
        }
    } else {
        255
    };
    value < radix
}

/// The place after the digits that start at place `from`.
fn skip_digits(bytes: &[u8], from: usize, radix: i32) -> (r: usize)
    requires
        2 <= radix <= 62,
        from <= bytes@.len(),
    ensures
        r == digits_end(bytes@, from as int, radix as int),
        from <= r <= bytes@.len(),
{
    let n: usize = bytes.len();
    let mut i: usize = from;
    while i < n && digit_in(bytes[i], radix)
        invariant
            from <= i <= n,
            n == bytes@.len(),
            2 <= radix <= 62,
            digits_end(bytes@, from as int, radix as int) == digits_end(
                bytes@,
                i as int,
                radix as int,
            ),
        decreases n - i,
    {
        i = i + 1;
    }
    i
}

/// Checks a text against the grammar of numbers in the radix.
pub fn check_number(text: &str, radix: i32) -> (r: Result<(), ParseMpfError>)
    ensures
        r.is_ok() <==> is_number(text.spec_bytes(), radix as int),
{
    if radix < 2 || radix > 62 {
        return Err(ParseMpfError::new());
    }
    let bytes = text.as_bytes();
    let n: usize = bytes.len();
    let start: usize = if n > 0 && bytes[0] == 45 {
        1
    } else {
        0
    };
    let whole_end: usize = skip_digits(bytes, start, radix);
    let pointed: bool = whole_end < n && bytes[whole_end] == 46;
    let end: usize = if pointed {
        skip_digits(bytes, whole_end + 1, radix)
    } else {
        whole_end
    };
    let count: usize = if pointed {
        end - start - 1
    } else {
        end - start
    };
    if count < 1 {
        return Err(ParseMpfError::new());
    }
    if end == n {
        return Ok(());
    }
    let c: u8 = bytes[end];
    let marker: bool = c == 64 || (radix <= 10 && (c == 101 || c == 69));
    if !marker {
        return Err(ParseMpfError::new());
    }
    let signed: bool = end + 1 < n && (bytes[end + 1] == 43 || bytes[end + 1] == 45);
    let from: usize = if signed {
        end + 2
    } else {
        end + 1
    };
    let last: usize = skip_digits(bytes, from, 10);
    if last > from && last == n {
        Ok(())
    } else {
        Err(ParseMpfError::new())
    }
}

} // verus!
