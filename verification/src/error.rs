//! Why a read is refused.

use vstd::prelude::*;

verus! {

/// Why a read is refused.
#[derive(Debug, Clone, Copy, PartialEq, Eq, Structural)]
pub enum ResponseError {
    /// The command is unknown here, or its body does not decode.
    InvalidCommand,
    /// The read is scoped to its caller, and there is none.
    Unauthenticated,
    /// The command is known and not served.
    FeatureUnavailable,
    /// An identifier resolved to a slot that holds nothing.
    InvalidIdentifier,
    /// A stored name is one the wire cannot carry.
    InvalidFormat,
    /// A count or an id does not fit the 32 bits the wire gives it.
    CountOutOfRange,
    /// A collaborator refused with the error of this code.
    Refused(u32),
}

/// `value` as the 32 bits of the wire, or the error for one that does not fit.
pub open spec fn narrowed(value: int) -> Result<u32, ResponseError> {
    if 0 <= value <= u32::MAX {
        Ok(value as u32)
    } else {
        Err(ResponseError::CountOutOfRange)
    }
}

/// `value` as the 32 bits of the wire.
pub fn usize_to_u32(value: usize) -> (result: Result<u32, ResponseError>)
    ensures
        result == narrowed(value as int),
        value <= 0xffff_ffff ==> (result matches Ok(narrow) && narrow == value),
        value > 0xffff_ffff ==> (result matches Err(error) && error
            == ResponseError::CountOutOfRange),
{
    if value as u64 <= u32::MAX as u64 {
        Ok(value as u32)
    } else {
        Err(ResponseError::CountOutOfRange)
    }
}

} // verus!
