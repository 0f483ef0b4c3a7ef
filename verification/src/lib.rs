//! String-similarity and string-distance metrics over sequences of Unicode
//! code points, with machine-checked contracts.
//!
//! Every metric is a pure function of its inputs. The metrics whose value is
//! a whole number return it. The others return exact counts, and fractions
//! of whole numbers where their value is rational.

use crate::error::MetricError;
use crate::string_matchers::jensen_shannon_vector::{compares, compute, Comparison};
use vstd::prelude::*;

pub mod error;
pub mod ratio;
pub mod sequence;
pub mod string_matchers;

verus! {

/// The lower-case form of a string.
pub uninterp spec fn lowercase_of(s: Seq<char>) -> Seq<char>;

/// Calls `str::to_lowercase`, which maps a string to its lower-case form by
/// the Unicode case mapping and consults no locale. The contract claims that
/// the result depends on the argument alone, and gives it a name; it claims
/// nothing of what the result holds.
#[verifier::external_body]
fn to_lowercase(s: &str) -> (lower: String)
    ensures
        lower@ == lowercase_of(s@),
{
    s.to_lowercase()
}

/// The string that is compared in place of `s`.
pub open spec fn folded(s: Seq<char>, ignore_case: bool) -> Seq<char> {
    if ignore_case {
        lowercase_of(s)
    } else {
        s
    }
}

/// Compares two strings by their Jensen-Shannon vector distance, under the
/// alphabet of the code points 1 to 256. With `ignore_case` the lower-case
/// forms of the strings are compared.
pub fn distance(string1: &str, string2: &str, ignore_case: bool) -> (outcome: Result<
    Comparison,
    MetricError,
>)
    ensures
        compares(outcome, folded(string1@, ignore_case), folded(string2@, ignore_case), 256),
{
    if ignore_case {
        let lower1 = to_lowercase(string1);
        let lower2 = to_lowercase(string2);
        compute(lower1.as_str(), lower2.as_str())
    } else {
        compute(string1, string2)
    }
}

} // verus!
