//! Levenshtein distance by the Wagner-Fischer algorithm: the distance matrix
//! is filled row by row.

use crate::sequence::code_points;
use crate::string_matchers::levenshtein::{
    edit_distance, lemma_edit_distance_bounds, lemma_edit_distance_cell, lemma_edit_distance_self,
    lemma_edit_distance_symmetric, min3,
};
use vstd::prelude::*;

verus! {

/// The cell in row `i` and column `j` of the distance matrix of `a` and
/// `b`.
///
/// Row zero and column zero hold their own index. Where code point `i` of
/// `a` is code point `j` of `b`, the cell is the one diagonally before it.
/// Otherwise it is one more than the least of the cell above, the cell to
/// the left and the cell diagonally before it.
pub open spec fn matrix_cell(a: Seq<char>, b: Seq<char>, i: nat, j: nat) -> nat
    decreases i + j,
{
    if i == 0 {
        j
    } else if j == 0 {
        i
    } else if a[i - 1] == b[j - 1] {
        matrix_cell(a, b, (i - 1) as nat, (j - 1) as nat)
    } else {
        (1 + min3(
            matrix_cell(a, b, (i - 1) as nat, j) as int,
            matrix_cell(a, b, i, (j - 1) as nat) as int,
            matrix_cell(a, b, (i - 1) as nat, (j - 1) as nat) as int,
        )) as nat
    }
}

/// The cell in row `i` and column `j` is the edit distance between the
/// first `i` code points of `a` and the first `j` of `b`.
pub proof fn lemma_matrix_cell_is_edit_distance(a: Seq<char>, b: Seq<char>, i: nat, j: nat)
    requires
        i <= a.len(),
        j <= b.len(),
    ensures
        matrix_cell(a, b, i, j) == edit_distance(a.take(i as int), b.take(j as int)),
    decreases i + j,
{
    lemma_edit_distance_cell(a, b, i as int, j as int);
    if i > 0 && j > 0 {
        lemma_matrix_cell_is_edit_distance(a, b, (i - 1) as nat, (j - 1) as nat);
        lemma_matrix_cell_is_edit_distance(a, b, (i - 1) as nat, j);
        lemma_matrix_cell_is_edit_distance(a, b, i, (j - 1) as nat);
    }
}

/// The last cell of the distance matrix is the Levenshtein distance: the
/// matrix and the recursion compute the same number.
pub proof fn lemma_wagner_fischer_is_levenshtein(a: Seq<char>, b: Seq<char>)
    ensures
        matrix_cell(a, b, a.len(), b.len()) == edit_distance(a, b),
{
    lemma_matrix_cell_is_edit_distance(a, b, a.len(), b.len());
    assert(a.take(a.len() as int) =~= a);
    assert(b.take(b.len() as int) =~= b);
}

/// The last cell of the matrix of `a` and `b` is the last cell of the matrix
/// of `b` and `a`.
pub proof fn lemma_matrix_symmetric(a: Seq<char>, b: Seq<char>)
    ensures
        matrix_cell(a, b, a.len(), b.len()) == matrix_cell(b, a, b.len(), a.len()),
{
    lemma_wagner_fischer_is_levenshtein(a, b);
    lemma_wagner_fischer_is_levenshtein(b, a);
    lemma_edit_distance_symmetric(a, b);
}

/// The last cell of the matrix of a string and itself is zero.
pub proof fn lemma_matrix_self(a: Seq<char>)
    ensures
        matrix_cell(a, a, a.len(), a.len()) == 0,
{
    lemma_wagner_fischer_is_levenshtein(a, a);
    lemma_edit_distance_self(a);
}

/// Whether the rows of `table` are the first rows of the distance matrix of
/// `a` and `b`.
pub open spec fn is_distance_matrix(table: Seq<Vec<usize>>, a: Seq<char>, b: Seq<char>) -> bool {
    &&& forall|i: int| 0 <= i < table.len() ==> (#[trigger] table[i])@.len() == b.len() + 1
    &&& forall|i: int, j: int|
        0 <= i < table.len() && 0 <= j <= b.len() ==> (#[trigger] table[i]@[j]) == matrix_cell(
            a,
            b,
            i as nat,
            j as nat,
        )
}

/// The first row of the matrix: from the empty prefix, the distance to a
/// prefix is its length.
fn boundary_row(a: &Vec<char>, b: &Vec<char>) -> (row: Vec<usize>)
    ensures
        row@.len() == b@.len() + 1,
        forall|j: int|
            0 <= j <= b@.len() ==> (#[trigger] row@[j]) == matrix_cell(a@, b@, 0, j as nat),
{
    let m = b.len();
    let mut row: Vec<usize> = Vec::new();
    row.push(0);
    let mut j: usize = 0;
    while j < m
        invariant
            m == b@.len(),
            j <= m,
            row@.len() == j + 1,
            forall|c: int|
                0 <= c <= j ==> (#[trigger] row@[c]) == matrix_cell(a@, b@, 0, c as nat),
        decreases m - j,
    {
        j += 1;
        row.push(j);
    }
    row
}

/// The row of the matrix for the first `i + 1` code points of `a`, from the
/// row before it.
fn next_row(a: &Vec<char>, b: &Vec<char>, i: usize, above: &Vec<usize>) -> (row: Vec<usize>)
    requires
        i < a@.len(),
        above@.len() == b@.len() + 1,
        forall|j: int|
            0 <= j <= b@.len() ==> (#[trigger] above@[j]) == matrix_cell(
                a@,
                b@,
                i as nat,
                j as nat,
            ),
    ensures
        row@.len() == b@.len() + 1,
        forall|j: int|
            0 <= j <= b@.len() ==> (#[trigger] row@[j]) == matrix_cell(
                a@,
                b@,
                (i + 1) as nat,
                j as nat,
            ),
{
    let n = a.len();
    let m = b.len();
    let mut row: Vec<usize> = Vec::new();
    row.push(i + 1);
    let mut j: usize = 0;
    while j < m
        invariant
            n == a@.len(),
            m == b@.len(),
            i < n,
            j <= m,
            above@.len() == m + 1,
            forall|c: int|
                0 <= c <= m ==> (#[trigger] above@[c]) == matrix_cell(
                    a@,
                    b@,
                    i as nat,
                    c as nat,
                ),
            row@.len() == j + 1,
            forall|c: int|
                0 <= c <= j ==> (#[trigger] row@[c]) == matrix_cell(a@, b@, (i + 1) as nat, c as nat),
        decreases m - j,
    {
        proof {
            lemma_matrix_cell_is_edit_distance(a@, b@, (i + 1) as nat, (j + 1) as nat);
            lemma_edit_distance_bounds(a@.take(i + 1), b@.take(j + 1));
        }
        let cell = if a[i] == b[j] {
            above[j]
        } else {
            let deletion = above[j + 1];
            let insertion = row[j];
            let substitution = above[j];
            let least = if deletion <= insertion && deletion <= substitution {
                deletion
            } else if insertion <= substitution {
                insertion
            } else {
                substitution
            };
            least + 1
        };
        row.push(cell);
        j += 1;
    }
    row
}

/// The distance matrix of `a` and `b`, with one row for each prefix of `a`
/// and one column for each prefix of `b`.
pub fn distance_matrix(a: &Vec<char>, b: &Vec<char>) -> (table: Vec<Vec<usize>>)
    ensures
        table@.len() == a@.len() + 1,
        is_distance_matrix(table@, a@, b@),
{
    let n = a.len();
    let mut table: Vec<Vec<usize>> = Vec::new();
    table.push(boundary_row(a, b));
    let mut i: usize = 0;
    while i < n
        invariant
            n == a@.len(),
            i <= n,
            table@.len() == i + 1,
            is_distance_matrix(table@, a@, b@),
        decreases n - i,
    {
        let row = next_row(a, b, i, &table[i]);
        table.push(row);
        i += 1;
    }
    table
}

/// The Levenshtein distance between `str1` and `str2`: the last cell of
/// their distance matrix.
pub fn compute(str1: &str, str2: &str) -> (d: usize)
    ensures
        d == matrix_cell(str1@, str2@, str1@.len(), str2@.len()),
        d == edit_distance(str1@, str2@),
{
    let a = code_points(str1);
    let b = code_points(str2);
    let table = distance_matrix(&a, &b);
    proof {
        lemma_wagner_fischer_is_levenshtein(a@, b@);
    }
    table[a.len()][b.len()]
}

} // verus!
