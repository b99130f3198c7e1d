//! Support for the downstream audio decoder that consumes the extracted
//! packets: its error codes and the sample-buffer arithmetic its callers
//! rely on. The decoder itself is an external collaborator; only its
//! plain-value logic lives here.

use vstd::prelude::*;

verus! {

/// Error codes reported by the audio decoder.
#[derive(Debug, Clone, Copy, PartialEq, Eq, Structural)]
pub enum Error {
    /// One or more invalid/out of range arguments.
    BadArg,
    /// Not enough bytes allocated in the buffer.
    BufferTooSmall,
    /// An internal error was detected.
    InternalError,
    /// The compressed data passed is corrupted.
    InvalidPacket,
    /// Invalid/unsupported request number.
    Unimplemented,
}

impl Error {
    /// Map a decoder status code to the matching variant; codes outside
    /// the known range count as internal errors.
    pub fn from_c(err: i32) -> (e: Error)
        ensures
            e == (if err == -1 {
                Error::BadArg
            } else if err == -2 {
                Error::BufferTooSmall
            } else if err == -3 {
                Error::InternalError
            } else if err == -4 {
                Error::InvalidPacket
            } else if err == -5 {
                Error::Unimplemented
            } else {
                Error::InternalError
            }),
    {
        match err {
            -1 => Error::BadArg,
            -2 => Error::BufferTooSmall,
            -3 => Error::InternalError,
            -4 => Error::InvalidPacket,
            -5 => Error::Unimplemented,
            _ => Error::InternalError,
        }
    }

    /// A human-readable description of the error.
    pub fn message(&self) -> (m: &'static str)
        ensures
            m@ == (match self {
                Error::BadArg => "One or more invalid/out of range arguments"@,
                Error::BufferTooSmall => "Not enough bytes allocated in the buffer"@,
                Error::InternalError => "An internal error was detected"@,
                Error::InvalidPacket => "The compressed data passed is corrupted"@,
                Error::Unimplemented => "Invalid/unsupported request number"@,
            }),
    {
        match self {
            Error::BadArg => "One or more invalid/out of range arguments",
            Error::BufferTooSmall => "Not enough bytes allocated in the buffer",
            Error::InternalError => "An internal error was detected",
            Error::InvalidPacket => "The compressed data passed is corrupted",
            Error::Unimplemented => "Invalid/unsupported request number",
        }
    }
}

/// The number of sample frames an interleaved output buffer holds: its
/// length divided by the channel count, provided it divides evenly.
/// An uneven buffer cannot hold whole frames and is rejected.
pub fn frame_count(samples_len: usize, channel_count: usize) -> (r: Option<usize>)
    requires
        channel_count >= 1,
    ensures
        r == (if samples_len % channel_count == 0 {
            Some(samples_len / channel_count)
        } else {
            None::<usize>
        }),
{
    if samples_len % channel_count == 0 {
        Some(samples_len / channel_count)
    } else {
        None
    }
}

} // verus!
