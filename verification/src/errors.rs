//! The errors of the string types.
use vstd::prelude::*;

verus! {

/// The error returned when memory for a string could not be reserved: the requested capacity is
/// larger than a string can hold, or the allocator refused the request.
#[derive(Debug, Clone, Copy, PartialEq, Eq, Hash)]
pub struct ReserveError;

/// `core::fmt::Error`, the error of a formatting trait.
#[verifier::external_type_specification]
#[verifier::external_body]
pub struct ExFmtError(core::fmt::Error);

/// Why a sequence of UTF-16 code units could not be decoded.
#[derive(Debug, Clone, Copy, PartialEq, Eq, Hash)]
pub enum FromUtf16ErrorKind {
    /// A surrogate code unit without its partner.
    LoneSurrogate,
    /// A byte slice with an odd number of bytes, which cannot hold whole code units.
    OddBytes,
}

/// An error that can occur when converting a sequence of UTF-16 code units to a string.
///
/// This error can be caused by either a lone surrogate in the sequence, or, for the UTF-16LE and
/// UTF-16BE conversions, a byte slice with an odd number of bytes.
#[derive(Debug, Clone, Copy, PartialEq, Eq, Hash)]
pub struct FromUtf16Error {
    pub kind: FromUtf16ErrorKind,
}

impl FromUtf16Error {
    /// The message that describes the error.
    pub fn message(&self) -> (r: &'static str)
        ensures
            self.kind == FromUtf16ErrorKind::LoneSurrogate ==> r@
                == "invalid utf-16: lone surrogate found"@,
            self.kind == FromUtf16ErrorKind::OddBytes ==> r@
                == "invalid utf-16: odd number of bytes"@,
    {
        match self.kind {
            FromUtf16ErrorKind::LoneSurrogate => "invalid utf-16: lone surrogate found",
            FromUtf16ErrorKind::OddBytes => "invalid utf-16: odd number of bytes",
        }
    }
}

/// An error that can occur when converting a value to an immutable string.
///
/// This error can be caused by either a reserve error when allocating memory, or a formatting
/// error when converting the value to a string.
#[derive(Debug, Clone, Copy, PartialEq, Eq, Hash)]
pub enum ToLeanStrError {
    /// An error occurred while trying to allocate memory.
    Reserve(ReserveError),
    /// A formatting error occurred during conversion.
    Fmt(core::fmt::Error),
}

/// An error that can occur when converting a value to a mutable string.
///
/// This error can be caused by either a reserve error when allocating memory, or a formatting
/// error when converting the value to a string.
#[derive(Debug, Clone, Copy, PartialEq, Eq, Hash)]
pub enum ToLeanStringError {
    /// An error occurred while trying to allocate memory.
    Reserve(ReserveError),
    /// A formatting error occurred during conversion.
    Fmt(core::fmt::Error),
}

impl From<ReserveError> for ToLeanStrError {
    fn from(value: ReserveError) -> (r: Self) {
        ToLeanStrError::Reserve(value)
    }
}

impl vstd::std_specs::convert::FromSpecImpl<ReserveError> for ToLeanStrError {
    open spec fn obeys_from_spec() -> bool {
        true
    }

    open spec fn from_spec(v: ReserveError) -> Self {
        ToLeanStrError::Reserve(v)
    }
}

impl From<core::fmt::Error> for ToLeanStrError {
    fn from(value: core::fmt::Error) -> (r: Self) {
        ToLeanStrError::Fmt(value)
    }
}

impl vstd::std_specs::convert::FromSpecImpl<core::fmt::Error> for ToLeanStrError {
    open spec fn obeys_from_spec() -> bool {
        true
    }

    open spec fn from_spec(v: core::fmt::Error) -> Self {
        ToLeanStrError::Fmt(v)
    }
}

impl From<ReserveError> for ToLeanStringError {
    fn from(value: ReserveError) -> (r: Self) {
        ToLeanStringError::Reserve(value)
    }
}

impl vstd::std_specs::convert::FromSpecImpl<ReserveError> for ToLeanStringError {
    open spec fn obeys_from_spec() -> bool {
        true
    }

    open spec fn from_spec(v: ReserveError) -> Self {
        ToLeanStringError::Reserve(v)
    }
}

impl From<core::fmt::Error> for ToLeanStringError {
    fn from(value: core::fmt::Error) -> (r: Self) {
        ToLeanStringError::Fmt(value)
    }
}

impl vstd::std_specs::convert::FromSpecImpl<core::fmt::Error> for ToLeanStringError {
    open spec fn obeys_from_spec() -> bool {
        true
    }

    open spec fn from_spec(v: core::fmt::Error) -> Self {
        ToLeanStringError::Fmt(v)
    }
}

} // verus!
