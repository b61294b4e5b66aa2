//! The error taxonomy shared by every fallible operation of the crate.

use vstd::prelude::*;

verus! {

/// Why an operation failed.
///
/// Every fallible function of this crate reports one of these kinds; there
/// is no local recovery, all errors propagate to the caller unchanged.
#[derive(Clone, Copy, Debug, PartialEq, Eq, Structural)]
pub enum AdsError {
    /// A symbol, struct field or data-type name is absent from the directory.
    NotFound,
    /// A truncated or invalid-UTF-8 blob record, or invalid array-range
    /// syntax in a declared type name (missing `..`, unparsable bound,
    /// lower bound above upper bound).
    MalformedSchema,
    /// A path requests more array accessors than the declared type supports,
    /// or tries to index into the middle of a combined `[a..b,c..d]` bracket.
    OutOfBounds,
    /// The value variant supplied for encoding does not match the declared
    /// primitive type tag.
    TypeMismatch,
    /// A wrong array start index, an array longer than its declared range,
    /// or a duplicate/unknown struct field.
    InvalidArgument,
    /// A direct struct write, or a primitive tag the device marks as not
    /// supported.
    Unsupported,
    /// Decode-time data that does not fit the declared type: wrong buffer
    /// length, missing string terminator, out-of-range boolean byte, or a
    /// reserved/unrecognised primitive tag.
    MalformedData,
}

impl AdsError {
    /// A short human-readable name for the error kind.
    pub fn describe(&self) -> (r: &'static str)
        ensures
            r@ == self.spec_describe(),
    {
        match self {
            AdsError::NotFound => "not found",
            AdsError::MalformedSchema => "malformed schema",
            AdsError::OutOfBounds => "out of bounds",
            AdsError::TypeMismatch => "type mismatch",
            AdsError::InvalidArgument => "invalid argument",
            AdsError::Unsupported => "unsupported",
            AdsError::MalformedData => "malformed data",
        }
    }

    /// The characters `describe` returns for each kind.
    pub open spec fn spec_describe(self) -> Seq<char> {
        match self {
            AdsError::NotFound => "not found"@,
            AdsError::MalformedSchema => "malformed schema"@,
            AdsError::OutOfBounds => "out of bounds"@,
            AdsError::TypeMismatch => "type mismatch"@,
            AdsError::InvalidArgument => "invalid argument"@,
            AdsError::Unsupported => "unsupported"@,
            AdsError::MalformedData => "malformed data"@,
        }
    }
}

} // verus!
