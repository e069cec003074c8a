use vstd::prelude::*;

verus! {

/// Why a protocol step could not be completed.
#[derive(Clone, Copy, Debug, PartialEq, Eq, Structural)]
pub enum CqError {
    /// An input-vector entry matches no table entry.
    ValueNotInTable,
    /// A field element that is needed as a divisor is zero.
    NotInvertible,
    /// A polynomial has more coefficients than the commitment key has powers.
    KeyTooSmall,
    /// At least one of the pairing checks does not hold.
    VerificationFailed,
}

impl CqError {
    /// A short description of the error.
    pub fn message(&self) -> (r: &'static str)
        ensures
            r@ == (match *self {
                CqError::ValueNotInTable => "value not in table"@,
                CqError::NotInvertible => "not invertible"@,
                CqError::KeyTooSmall => "key too small"@,
                CqError::VerificationFailed => "verification failed"@,
            }),
    {
        match self {
            CqError::ValueNotInTable => "value not in table",
            CqError::NotInvertible => "not invertible",
            CqError::KeyTooSmall => "key too small",
            CqError::VerificationFailed => "verification failed",
        }
    }
}

} // verus!
