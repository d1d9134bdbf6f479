//! Error types.
use vstd::prelude::*;

verus! {

/// Errors that can occur during calculation.
#[derive(Debug, Clone, Copy, PartialEq, Eq, Structural)]
pub enum Error {
    /// Calculated segment is too short.
    NotEnoughPoints,
    /// No segments got calculated.
    NoSegmentsFound,
}

/// Number that stands for an error in [`Error::into_error_u8`]; zero stands for success.
pub open spec fn error_code(e: Error) -> u8 {
    match e {
        Error::NotEnoughPoints => 1,
        Error::NoSegmentsFound => 2,
    }
}

impl Error {
    /// Convert enum to a number, used for error handling across threads.
    ///
    /// Zero is kept for "no error".
    pub fn into_error_u8(self) -> (r: u8)
        ensures
            r == error_code(self),
            r != 0,
    {
        match self {
            Self::NotEnoughPoints => 1,
            Self::NoSegmentsFound => 2,
        }
    }

    /// Convert a number back into a result, zero meaning success.
    ///
    /// Only the numbers that [`Error::into_error_u8`] hands out, and zero, are accepted.
    pub fn try_from_u8(error_number: u8) -> (r: Result<(), Error>)
        requires
            error_number <= 2,
        ensures
            error_number == 0 <==> r is Ok,
            r matches Err(e) ==> error_code(e) == error_number,
    {
        match error_number {
            0 => Ok(()),
            1 => Err(Self::NotEnoughPoints),
            _ => Err(Self::NoSegmentsFound),
        }
    }
}

/// Encoding an error as a number and decoding it gives the same error back.
pub proof fn lemma_error_code_round_trip(e: Error)
    ensures
        error_code(e) != 0,
        error_code(e) <= 2,
        forall|f: Error| error_code(f) == error_code(e) ==> f == e,
{
}

} // verus!
