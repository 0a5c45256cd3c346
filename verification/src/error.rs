use vstd::prelude::*;

verus! {

/// Why a request was refused.
#[derive(Debug, Clone, Copy, PartialEq, Eq, Structural)]
pub enum ExPoppyError {
    /// The capacity is zero, the rate is not strictly between zero and one, or
    /// the filter has no bits or no hash rounds.
    InvalidParameter,
    /// The format version is not one the engine implements.
    UnsupportedVersion(u8),
    /// The variant tag names no known variant of the format version.
    InvalidVariant(u8),
    /// The bytes do not start as a filter file starts.
    InvalidFormat,
    /// The header disagrees with the bytes that follow it.
    CorruptFormat,
}

impl ExPoppyError {
    /// A short description of the error, without the offending value.
    pub fn message(&self) -> (text: &'static str)
        ensures
            text@ == match *self {
                ExPoppyError::InvalidParameter => "invalid capacity or false positive rate"@,
                ExPoppyError::UnsupportedVersion(_) => "unsupported format version"@,
                ExPoppyError::InvalidVariant(_) => "invalid variant tag"@,
                ExPoppyError::InvalidFormat => "not a filter file"@,
                ExPoppyError::CorruptFormat => "corrupt filter file"@,
            },
    {
        match self {
            ExPoppyError::InvalidParameter => "invalid capacity or false positive rate",
            ExPoppyError::UnsupportedVersion(_) => "unsupported format version",
            ExPoppyError::InvalidVariant(_) => "invalid variant tag",
            ExPoppyError::InvalidFormat => "not a filter file",
            ExPoppyError::CorruptFormat => "corrupt filter file",
        }
    }
}

} // verus!
