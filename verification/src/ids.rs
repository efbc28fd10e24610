//! Rules for the identifiers that clients choose.

use crate::text::byte_len;
use vstd::prelude::*;
use vstd::utf8::encode_utf8;

verus! {

/// The most bytes an identifier may have.
pub const MAX_ID_BYTES: usize = 256;

/// An identifier is accepted when it is non-empty and short enough.
pub open spec fn valid_id(id: Seq<char>) -> bool {
    id.len() > 0 && encode_utf8(id).len() <= MAX_ID_BYTES
}

/// What is wrong with an identifier.
#[derive(Clone, Copy, Debug, PartialEq, Eq, Structural)]
pub enum IdError {
    Empty,
    TooLong,
}

/// The fault of an identifier, if any.
pub open spec fn id_fault(id: Seq<char>) -> Option<IdError> {
    if id.len() == 0 {
        Some(IdError::Empty)
    } else if encode_utf8(id).len() > MAX_ID_BYTES {
        Some(IdError::TooLong)
    } else {
        None
    }
}

/// Accepts exactly the valid identifiers.
pub fn check_id(id: &str) -> (r: Result<(), IdError>)
    ensures
        match r {
            Ok(()) => valid_id(id@),
            Err(e) => id_fault(id@) == Some(e),
        },
        r is Ok <==> id_fault(id@) is None,
{
    if id.is_empty() {
        return Err(IdError::Empty);
    }
    if byte_len(id) > MAX_ID_BYTES {
        return Err(IdError::TooLong);
    }
    Ok(())
}

} // verus!
