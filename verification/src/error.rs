//! The ways in which decoding can fail.

use vstd::prelude::*;

verus! {

/// Why a byte string was not accepted as a bencoded value.
#[derive(Clone, Copy, Debug, PartialEq, Eq, Structural)]
pub enum Error {
    IO,
    EOF,
    ParseInt,
    ParseBytes,
    ParseString,
    ParseList,
    ParseDict,
    InvalidChar(u8),
    ExpectedChar(u8),
    DepthLimit,
    ItemLimit,
}

impl Error {
    /// Whether the failure is a premature end of the input. Only this one is
    /// reported as an unexpected end of file; every other failure counts as
    /// invalid data.
    pub fn is_end_of_input(&self) -> (r: bool)
        ensures
            r == (*self == Error::EOF),
    {
        match self {
            Error::EOF => true,
            _ => false,
        }
    }

    /// The byte that the failure names, if it names one.
    pub fn byte(&self) -> (r: Option<u8>)
        ensures
            r == match *self {
                Error::InvalidChar(b) => Some(b),
                Error::ExpectedChar(b) => Some(b),
                _ => None,
            },
    {
        match self {
            Error::InvalidChar(b) => Some(*b),
            Error::ExpectedChar(b) => Some(*b),
            _ => None,
        }
    }
}

} // verus!
