//! The error type shared by the encoder and the decoder, and the mapping
//! between errors and numeric status codes.

use vstd::prelude::*;

verus! {

/// Why a call failed.
#[derive(Debug, Clone, Copy, PartialEq, Eq, Structural)]
pub enum SnappyError {
    /// The input to the encoder is longer than a block can declare.
    InvalidInput,
    /// The bound on the size of the output cannot be represented.
    BufferTooSmall,
    /// A status code that names no known outcome.
    Unknown(u32),
    /// The block is truncated, or its length header is not a valid varint.
    MalformedInput,
    /// A copy reaches back further than the bytes decoded so far, or not at all.
    InvalidCopyOffset,
    /// The block decodes to more or fewer bytes than its header declares.
    LengthMismatch,
}

/// The status code that reports success.
pub const STATUS_OK: u32 = 0;

/// The status code for [`SnappyError::InvalidInput`].
pub const STATUS_INVALID_INPUT: u32 = 1;

/// The status code for [`SnappyError::BufferTooSmall`].
pub const STATUS_BUFFER_TOO_SMALL: u32 = 2;

/// What a status code stands for.
pub open spec fn status_meaning(status: u32) -> Result<(), SnappyError> {
    if status == STATUS_OK {
        Ok(())
    } else if status == STATUS_INVALID_INPUT {
        Err(SnappyError::InvalidInput)
    } else if status == STATUS_BUFFER_TOO_SMALL {
        Err(SnappyError::BufferTooSmall)
    } else {
        Err(SnappyError::Unknown(status))
    }
}

/// Turns a numeric status code into a result: zero is success, one and two
/// name an error each, and every other code is kept as `Unknown`.
pub fn snappy_to_result(status: u32) -> (res: Result<(), SnappyError>)
    ensures
        res == status_meaning(status),
{
    match status {
        0 => Ok(()),
        1 => Err(SnappyError::InvalidInput),
        2 => Err(SnappyError::BufferTooSmall),
        _ => Err(SnappyError::Unknown(status)),
    }
}

impl SnappyError {
    /// A short description of the error, for messages.
    pub fn message(&self) -> (text: String)
        ensures
            text@ == self.message_text(),
    {
        match self {
            SnappyError::InvalidInput => "invalid input".to_string(),
            SnappyError::BufferTooSmall => "buffer too small".to_string(),
            SnappyError::Unknown(_) => "unknown error code".to_string(),
            SnappyError::MalformedInput => "malformed input".to_string(),
            SnappyError::InvalidCopyOffset => "invalid copy offset".to_string(),
            SnappyError::LengthMismatch => "length mismatch".to_string(),
        }
    }

    /// The characters that [`SnappyError::message`] returns.
    pub open spec fn message_text(&self) -> Seq<char> {
        match self {
            SnappyError::InvalidInput => "invalid input"@,
            SnappyError::BufferTooSmall => "buffer too small"@,
            SnappyError::Unknown(_) => "unknown error code"@,
            SnappyError::MalformedInput => "malformed input"@,
            SnappyError::InvalidCopyOffset => "invalid copy offset"@,
            SnappyError::LengthMismatch => "length mismatch"@,
        }
    }
}

} // verus!
