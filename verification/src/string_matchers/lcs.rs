//! The length of the longest common subsequence of two strings.

use crate::sequence::code_points;
use vstd::prelude::*;

verus! {

/// Whether `c` is a subsequence of `a`: what is left of `a` after deleting
/// some of its code points.
pub open spec fn is_subsequence(c: Seq<char>, a: Seq<char>) -> bool
    decreases a.len(),
{
    if c.len() == 0 {
        true
    } else if a.len() == 0 {
        false
    } else {
        is_subsequence(c, a.drop_last()) || (c.last() == a.last() && is_subsequence(
            c.drop_last(),
            a.drop_last(),
        ))
    }
}

/// The length of the longest common subsequence of `a` and `b`.
///
/// It is zero where either string is empty. Where the last code points
/// agree it is one more than the length for the strings without them.
/// Otherwise it is the greater of the lengths found after dropping the last
/// code point of either string.
pub open spec fn lcs_length(a: Seq<char>, b: Seq<char>) -> nat
    decreases a.len() + b.len(),
{
    if a.len() == 0 || b.len() == 0 {
        0
    } else if a.last() == b.last() {
        lcs_length(a.drop_last(), b.drop_last()) + 1
    } else if lcs_length(a.drop_last(), b) >= lcs_length(a, b.drop_last()) {
        lcs_length(a.drop_last(), b)
    } else {
        lcs_length(a, b.drop_last())
    }
}

/// A longest common subsequence of `a` and `b`.
pub open spec fn lcs_witness(a: Seq<char>, b: Seq<char>) -> Seq<char>
    decreases a.len() + b.len(),
{
    if a.len() == 0 || b.len() == 0 {
        Seq::empty()
    } else if a.last() == b.last() {
        lcs_witness(a.drop_last(), b.drop_last()).push(a.last())
    } else if lcs_length(a.drop_last(), b) >= lcs_length(a, b.drop_last()) {
        lcs_witness(a.drop_last(), b)
    } else {
        lcs_witness(a, b.drop_last())
    }
}

/// A subsequence of a string without its last code point is a subsequence of
/// the string.
pub proof fn lemma_subsequence_extends(c: Seq<char>, a: Seq<char>)
    requires
        a.len() > 0,
        is_subsequence(c, a.drop_last()),
    ensures
        is_subsequence(c, a),
{
}

/// Dropping the last code point of a subsequence and of the string leaves a
/// subsequence.
pub proof fn lemma_subsequence_shrinks(c: Seq<char>, a: Seq<char>)
    requires
        c.len() > 0,
        is_subsequence(c, a),
    ensures
        a.len() > 0,
        is_subsequence(c.drop_last(), a.drop_last()),
    decreases a.len(),
{
    if is_subsequence(c, a.drop_last()) {
        lemma_subsequence_shrinks(c, a.drop_last());
        if c.drop_last().len() > 0 {
            lemma_subsequence_extends(c.drop_last(), a.drop_last());
        }
    }
}

/// The witness is a common subsequence of the length that `lcs_length` gives.
pub proof fn lemma_lcs_witness(a: Seq<char>, b: Seq<char>)
    ensures
        is_subsequence(lcs_witness(a, b), a),
        is_subsequence(lcs_witness(a, b), b),
        lcs_witness(a, b).len() == lcs_length(a, b),
    decreases a.len() + b.len(),
{
    if a.len() == 0 || b.len() == 0 {
    } else if a.last() == b.last() {
        lemma_lcs_witness(a.drop_last(), b.drop_last());
        let w = lcs_witness(a.drop_last(), b.drop_last());
        assert(w.push(a.last()).drop_last() =~= w);
    } else if lcs_length(a.drop_last(), b) >= lcs_length(a, b.drop_last()) {
        lemma_lcs_witness(a.drop_last(), b);
        if lcs_witness(a, b).len() > 0 {
            lemma_subsequence_extends(lcs_witness(a, b), a);
        }
    } else {
        lemma_lcs_witness(a, b.drop_last());
        if lcs_witness(a, b).len() > 0 {
            lemma_subsequence_extends(lcs_witness(a, b), b);
        }
    }
}

/// No common subsequence is longer than `lcs_length` says.
pub proof fn lemma_lcs_longest(c: Seq<char>, a: Seq<char>, b: Seq<char>)
    requires
        is_subsequence(c, a),
        is_subsequence(c, b),
    ensures
        c.len() <= lcs_length(a, b),
    decreases a.len() + b.len(),
{
    if c.len() == 0 {
    } else if a.last() == b.last() {
        lemma_subsequence_shrinks(c, a);
        lemma_subsequence_shrinks(c, b);
        lemma_lcs_longest(c.drop_last(), a.drop_last(), b.drop_last());
    } else {
        if c.last() != a.last() {
            lemma_lcs_longest(c, a.drop_last(), b);
        } else {
            lemma_lcs_longest(c, a, b.drop_last());
        }
    }
}

/// `lcs_length` is the length of a longest common subsequence: some common
/// subsequence has that length, and none is longer.
pub proof fn lemma_lcs_length_is_longest(a: Seq<char>, b: Seq<char>)
    ensures
        exists|c: Seq<char>|
            #![trigger is_subsequence(c, a)]
            is_subsequence(c, a) && is_subsequence(c, b) && c.len() == lcs_length(a, b),
        forall|c: Seq<char>|
            #![trigger is_subsequence(c, a)]
            is_subsequence(c, a) && is_subsequence(c, b) ==> c.len() <= lcs_length(a, b),
{
    lemma_lcs_witness(a, b);
    assert forall|c: Seq<char>|
        #![trigger is_subsequence(c, a)]
        is_subsequence(c, a) && is_subsequence(c, b) implies c.len() <= lcs_length(a, b) by {
        lemma_lcs_longest(c, a, b);
    }
}

/// The length is at most the length of either string.
pub proof fn lemma_lcs_length_bounded(a: Seq<char>, b: Seq<char>)
    ensures
        lcs_length(a, b) <= a.len(),
        lcs_length(a, b) <= b.len(),
    decreases a.len() + b.len(),
{
    if a.len() > 0 && b.len() > 0 {
        lemma_lcs_length_bounded(a.drop_last(), b.drop_last());
        lemma_lcs_length_bounded(a.drop_last(), b);
        lemma_lcs_length_bounded(a, b.drop_last());
    }
}

/// The length for `a` and `b` is the length for `b` and `a`.
pub proof fn lemma_lcs_length_symmetric(a: Seq<char>, b: Seq<char>)
    ensures
        lcs_length(a, b) == lcs_length(b, a),
    decreases a.len() + b.len(),
{
    if a.len() > 0 && b.len() > 0 {
        lemma_lcs_length_symmetric(a.drop_last(), b.drop_last());
        lemma_lcs_length_symmetric(a.drop_last(), b);
        lemma_lcs_length_symmetric(a, b.drop_last());
    }
}

/// The longest subsequence that a string has in common with itself is the
/// string.
pub proof fn lemma_lcs_length_self(a: Seq<char>)
    ensures
        lcs_length(a, a) == a.len(),
    decreases a.len(),
{
    if a.len() > 0 {
        lemma_lcs_length_self(a.drop_last());
    }
}

/// One cell of the table from its neighbours.
pub proof fn lemma_lcs_length_cell(a: Seq<char>, b: Seq<char>, i: int, j: int)
    requires
        0 <= i <= a.len(),
        0 <= j <= b.len(),
    ensures
        i == 0 || j == 0 ==> lcs_length(a.take(i), b.take(j)) == 0,
        i > 0 && j > 0 && a[i - 1] == b[j - 1] ==> lcs_length(a.take(i), b.take(j)) == lcs_length(
            a.take(i - 1),
            b.take(j - 1),
        ) + 1,
        i > 0 && j > 0 && a[i - 1] != b[j - 1] ==> lcs_length(a.take(i), b.take(j)) == (
        if lcs_length(a.take(i - 1), b.take(j)) >= lcs_length(a.take(i), b.take(j - 1)) {
            lcs_length(a.take(i - 1), b.take(j))
        } else {
            lcs_length(a.take(i), b.take(j - 1))
        }),
{
    if i > 0 {
        assert(a.take(i).drop_last() =~= a.take(i - 1));
    }
    if j > 0 {
        assert(b.take(j).drop_last() =~= b.take(j - 1));
    }
}

/// Whether the rows of `table` are rows of the table of `a` and `b`: the
/// cell in row `i` and column `j` is the length for the first `i` code
/// points of `a` and the first `j` of `b`.
pub open spec fn is_lcs_table(table: Seq<Vec<usize>>, a: Seq<char>, b: Seq<char>) -> bool {
    &&& forall|i: int| 0 <= i < table.len() ==> (#[trigger] table[i])@.len() == b.len() + 1
    &&& forall|i: int, j: int|
        0 <= i < table.len() && 0 <= j <= b.len() ==> (#[trigger] table[i]@[j]) == lcs_length(
            a.take(i),
            b.take(j),
        )
}

/// The row of the table for the first `i` code points of `a`; for `i > 0`
/// from the row before it, which is the last of `table`.
fn table_row(a: &Vec<char>, b: &Vec<char>, i: usize, table: &Vec<Vec<usize>>) -> (row: Vec<usize>)
    requires
        i <= a@.len(),
        table@.len() == i,
        is_lcs_table(table@, a@, b@),
    ensures
        row@.len() == b@.len() + 1,
        forall|j: int|
            0 <= j <= b@.len() ==> (#[trigger] row@[j]) == lcs_length(
                a@.take(i as int),
                b@.take(j),
            ),
{
    let n = a.len();
    let m = b.len();
    let mut row: Vec<usize> = Vec::new();
    row.push(0);
    proof {
        lemma_lcs_length_cell(a@, b@, i as int, 0);
    }
    let mut j: usize = 0;
    while j < m
        invariant
            n == a@.len(),
            m == b@.len(),
            i <= n,
            j <= m,
            table@.len() == i,
            is_lcs_table(table@, a@, b@),
            row@.len() == j + 1,
            forall|c: int|
                0 <= c <= j ==> (#[trigger] row@[c]) == lcs_length(a@.take(i as int), b@.take(c)),
        decreases m - j,
    {
        proof {
            lemma_lcs_length_cell(a@, b@, i as int, j + 1);
            lemma_lcs_length_bounded(a@.take(i as int), b@.take(j + 1));
        }
        let cell = if i == 0 {
            0
        } else if a[i - 1] == b[j] {
            table[i - 1][j] + 1
        } else if table[i - 1][j + 1] >= row[j] {
            table[i - 1][j + 1]
        } else {
            row[j]
        };
        row.push(cell);
        j += 1;
    }
    row
}

/// The length of the longest common subsequence of `str1` and `str2`.
pub fn compute(str1: &str, str2: &str) -> (length: usize)
    ensures
        length == lcs_length(str1@, str2@),
{
    let a = code_points(str1);
    let b = code_points(str2);
    let n = a.len();
    let mut table: Vec<Vec<usize>> = Vec::new();
    let mut i: usize = 0;
    loop
        invariant_except_break
            table@.len() == i,
        invariant
            n == a@.len(),
            i <= n,
            is_lcs_table(table@, a@, b@),
        ensures
            table@.len() == n + 1,
        decreases n - i,
    {
        let row = table_row(&a, &b, i, &table);
        table.push(row);
        if i == n {
            break ;
        }
        i += 1;
    }
    proof {
        assert(a@.take(a@.len() as int) =~= a@);
        assert(b@.take(b@.len() as int) =~= b@);
    }
    table[n][b.len()]
}

} // verus!
