//! Outcomes of line detection.
use vstd::prelude::*;

verus! {

/// Why a line candidate was not kept.
#[derive(Clone, Copy, Debug, PartialEq, Eq, Structural)]
pub enum LineDiscardReason {
    TooFewPoints,
    LineTooShort,
    LineTooLong,
    TooFarAway,
}

} // verus!
