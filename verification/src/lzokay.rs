//! Status codes of the lzokay C++ library, and how they map onto the errors
//! of this library.
use vstd::prelude::*;
use crate::lzo;

verus! {

/// Status that the lzokay library reports for a compression or a
/// decompression.
#[derive(Debug, Clone, Copy, PartialEq, Eq, Structural)]
pub enum EResult {
    LookbehindOverrun,
    OutputOverrun,
    InputOverrun,
    Error,
    Success,
    InputNotConsumed,
}

/// Turns the status of an lzokay call that produced `out_size` bytes into
/// the result of this library: the size on success, else the matching error
/// (input left over carries the size as well).
pub fn map_result(result: EResult, out_size: usize) -> (r: Result<usize, lzo::EResult>)
    ensures
        r == match result {
            EResult::Success => Ok(out_size),
            EResult::LookbehindOverrun => Err(lzo::EResult::LookbehindOverrun),
            EResult::OutputOverrun => Err(lzo::EResult::OutputOverrun),
            EResult::InputOverrun => Err(lzo::EResult::InputOverrun),
            EResult::InputNotConsumed => Err(lzo::EResult::InputNotConsumed(out_size)),
            EResult::Error => Err::<usize, lzo::EResult>(lzo::EResult::Error),
        },
{
    match result {
        EResult::Success => Ok(out_size),
        EResult::LookbehindOverrun => Err(lzo::EResult::LookbehindOverrun),
        EResult::OutputOverrun => Err(lzo::EResult::OutputOverrun),
        EResult::InputOverrun => Err(lzo::EResult::InputOverrun),
        EResult::InputNotConsumed => Err(lzo::EResult::InputNotConsumed(out_size)),
        EResult::Error => Err(lzo::EResult::Error),
    }
}

} // verus!
