//! The failures that a metric can report.

use vstd::prelude::*;

verus! {

/// Why a metric could not be computed.
#[derive(Clone, Copy, Debug, PartialEq, Eq)]
pub enum MetricError {
    /// A numeric parameter is outside the range the metric is defined for.
    InvalidParameter,
    /// The input holds a code point outside the configured alphabet.
    UnsupportedCodePoint(char),
}

} // verus!
