//! Hamming distance: the number of positions at which two strings differ.
//!
//! Strings of unequal length are compared over the length of the shorter
//! one, and every position that only the longer one has counts as a
//! difference.

use crate::sequence::code_points;
use vstd::prelude::*;

verus! {

/// The number of positions below `k` at which `a` and `b` differ.
pub open spec fn mismatches(a: Seq<char>, b: Seq<char>, k: nat) -> nat
    decreases k,
{
    if k == 0 {
        0
    } else if a[k - 1] != b[k - 1] {
        mismatches(a, b, (k - 1) as nat) + 1
    } else {
        mismatches(a, b, (k - 1) as nat)
    }
}

/// The length of the shorter of `a` and `b`.
pub open spec fn overlap(a: Seq<char>, b: Seq<char>) -> nat {
    if a.len() <= b.len() {
        a.len()
    } else {
        b.len()
    }
}

/// The Hamming distance between `a` and `b`: the differences within the
/// overlap, and the positions beyond it.
pub open spec fn hamming_distance(a: Seq<char>, b: Seq<char>) -> nat {
    (mismatches(a, b, overlap(a, b)) + (a.len() - overlap(a, b)) + (b.len() - overlap(
        a,
        b,
    ))) as nat
}

/// There are no more differences below `k` than positions.
pub proof fn lemma_mismatches_bounded(a: Seq<char>, b: Seq<char>, k: nat)
    ensures
        mismatches(a, b, k) <= k,
    decreases k,
{
    if k > 0 {
        lemma_mismatches_bounded(a, b, (k - 1) as nat);
    }
}

/// The differences between `a` and `b` are those between `b` and `a`.
pub proof fn lemma_mismatches_symmetric(a: Seq<char>, b: Seq<char>, k: nat)
    ensures
        mismatches(a, b, k) == mismatches(b, a, k),
    decreases k,
{
    if k > 0 {
        lemma_mismatches_symmetric(a, b, (k - 1) as nat);
    }
}

/// The distance is at most the length of the longer string and at least the
/// difference of the two lengths.
pub proof fn lemma_hamming_distance_bounds(a: Seq<char>, b: Seq<char>)
    ensures
        hamming_distance(a, b) <= (if a.len() >= b.len() {
            a.len()
        } else {
            b.len()
        }),
        hamming_distance(a, b) >= a.len() - b.len(),
        hamming_distance(a, b) >= b.len() - a.len(),
{
    lemma_mismatches_bounded(a, b, overlap(a, b));
}

/// The distance from `a` to `b` is the distance from `b` to `a`.
pub proof fn lemma_hamming_distance_symmetric(a: Seq<char>, b: Seq<char>)
    ensures
        hamming_distance(a, b) == hamming_distance(b, a),
{
    lemma_mismatches_symmetric(a, b, overlap(a, b));
}

/// A string does not differ from itself.
pub proof fn lemma_mismatches_self(a: Seq<char>, k: nat)
    ensures
        mismatches(a, a, k) == 0,
    decreases k,
{
    if k > 0 {
        lemma_mismatches_self(a, (k - 1) as nat);
    }
}

/// The distance from a string to itself is zero.
pub proof fn lemma_hamming_distance_self(a: Seq<char>)
    ensures
        hamming_distance(a, a) == 0,
{
    lemma_mismatches_self(a, a.len());
}

/// The Hamming distance between `str1` and `str2`.
pub fn compute(str1: &str, str2: &str) -> (d: usize)
    ensures
        d == hamming_distance(str1@, str2@),
{
    let a = code_points(str1);
    let b = code_points(str2);
    let n = a.len();
    let m = b.len();
    let shorter = if n <= m {
        n
    } else {
        m
    };
    let mut d: usize = if n <= m {
        m - n
    } else {
        n - m
    };
    let mut i: usize = 0;
    while i < shorter
        invariant
            n == a@.len(),
            m == b@.len(),
            shorter == overlap(a@, b@),
            i <= shorter,
            d == mismatches(a@, b@, i as nat) + (n - shorter) + (m - shorter),
        decreases shorter - i,
    {
        proof {
            lemma_mismatches_bounded(a@, b@, (i + 1) as nat);
        }
        if a[i] != b[i] {
            d += 1;
        }
        i += 1;
    }
    d
}

} // verus!
