//! The result of validating a requested reservation range.

use vstd::prelude::*;

verus! {

/// The classification of a requested range.
///
/// `PartialValidRange` is a successful grant that also reports the ids inside
/// the request the user already had a legitimate claim to, through a prior
/// reservation or an authored publication; the remaining ids are the ones
/// newly reserved. `InvalidLength` carries the user's actual remaining quota
/// and `InvalidAlignment` the required alignment, so the caller can retry
/// with a corrected request.
#[derive(PartialEq, Eq, Clone, Debug)]
pub enum ReserveRangeResult {
    /// The range is completely free.
    ValidRange,
    /// The range can be granted; the listed ids were already the user's own.
    PartialValidRange(Vec<i32>),
    /// The range touches content or reservations of someone else, is
    /// degenerate, or holds nothing new to grant.
    InvalidRange,
    /// The requested length exceeds the user's remaining quota.
    InvalidLength(usize),
    /// The start does not sit on the required power-of-ten boundary.
    InvalidAlignment(i32),
}

} // verus!
