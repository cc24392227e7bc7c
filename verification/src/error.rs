//! The failures that the library reports.

use vstd::prelude::*;

verus! {

/// What can go wrong while preparing a summary.
#[derive(Debug, Clone, Copy, PartialEq, Eq, Structural)]
pub enum SumError {
    /// None of the candidate languages fits the text with confidence.
    NoLangFit,
}

} // verus!
