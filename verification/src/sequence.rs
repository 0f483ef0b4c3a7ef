//! Strings as sequences of code points.

use vstd::prelude::*;

verus! {

/// The code points of `s`, in order.
pub fn code_points(s: &str) -> (r: Vec<char>)
    ensures
        r@ == s@,
{
    let mut out: Vec<char> = Vec::new();
    for c in it: s.chars()
        invariant
            it.seq() == s@,
            out@ == s@.take(it.index() as int),
    {
        out.push(c);
    }
    out
}

/// The numeric value of the code point `c`.
pub fn code_point_value(c: char) -> (value: i64)
    ensures
        value == c as int,
        0 <= value <= 0x10FFFF,
{
    c as i64
}

} // verus!
