//! The error of a failed text conversion.

use vstd::prelude::*;

verus! {

/// Marks a text that is not a number in the requested radix, or that holds a
/// zero byte. It carries nothing beyond the fact of the failure.
#[derive(Debug, Clone, Copy)]
pub struct ParseMpfError {
    _priv: (),
}

impl ParseMpfError {
    /// The one value of this type.
    pub fn new() -> (e: ParseMpfError)
        ensures
            e == ParseMpfError::invalid(),
    {
        ParseMpfError { _priv: () }
    }

    /// The one value of this type, in contracts.
    pub closed spec fn invalid() -> ParseMpfError {
        ParseMpfError { _priv: () }
    }

    /// A short text for the failure.
    pub fn description(&self) -> (text: &'static str)
        ensures
            text@ == "invalid rational number"@,
    {
        "invalid rational number"
    }
}

} // verus!
