//! Damerau-Levenshtein distance in its optimal string alignment form: edit
//! distance with insertions, deletions, substitutions and the transposition
//! of two adjacent code points.
//!
//! No part of a string is edited twice, so a transposed pair is never edited
//! again. The distance can therefore exceed the unrestricted
//! Damerau-Levenshtein distance: from "ca" to "abc" it is 3, not 2.

use crate::sequence::code_points;
use crate::string_matchers::levenshtein::{edit_distance, min3};
use vstd::prelude::*;

verus! {

/// One cell of the distance matrix from its neighbours.
///
/// `same` says that the two last code points agree, `swapped` that the two
/// last pairs are each other's transposition. The other arguments are the
/// distances after a deletion, an insertion, a substitution and a
/// transposition.
pub open spec fn osa_step(
    same: bool,
    swapped: bool,
    deletion: int,
    insertion: int,
    substitution: int,
    transposition: int,
) -> int {
    let plain = if same {
        substitution
    } else {
        1 + min3(deletion, insertion, substitution)
    };
    if swapped && transposition + 1 < plain {
        transposition + 1
    } else {
        plain
    }
}

/// Whether the last two code points of `a` are the last two of `b` in the
/// other order.
pub open spec fn ends_swapped(a: Seq<char>, b: Seq<char>) -> bool {
    &&& a.len() >= 2
    &&& b.len() >= 2
    &&& a[a.len() - 1] == b[b.len() - 2]
    &&& a[a.len() - 2] == b[b.len() - 1]
}

/// The optimal string alignment distance between `a` and `b`.
pub open spec fn osa_distance(a: Seq<char>, b: Seq<char>) -> nat
    decreases a.len() + b.len(),
{
    if a.len() == 0 {
        b.len()
    } else if b.len() == 0 {
        a.len()
    } else {
        osa_step(
            a.last() == b.last(),
            ends_swapped(a, b),
            osa_distance(a.drop_last(), b) as int,
            osa_distance(a, b.drop_last()) as int,
            osa_distance(a.drop_last(), b.drop_last()) as int,
            if ends_swapped(a, b) {
                osa_distance(a.drop_last().drop_last(), b.drop_last().drop_last()) as int
            } else {
                0
            },
        ) as nat
    }
}

/// The distance is at most the length of the longer string and at least the
/// difference of the two lengths.
pub proof fn lemma_osa_distance_bounded(a: Seq<char>, b: Seq<char>)
    ensures
        osa_distance(a, b) <= (if a.len() >= b.len() {
            a.len()
        } else {
            b.len()
        }),
        osa_distance(a, b) >= a.len() - b.len(),
        osa_distance(a, b) >= b.len() - a.len(),
    decreases a.len() + b.len(),
{
    if a.len() > 0 && b.len() > 0 {
        lemma_osa_distance_bounded(a.drop_last(), b.drop_last());
        lemma_osa_distance_bounded(a.drop_last(), b);
        lemma_osa_distance_bounded(a, b.drop_last());
        if ends_swapped(a, b) {
            lemma_osa_distance_bounded(a.drop_last().drop_last(), b.drop_last().drop_last());
        }
    }
}

/// A transposition never costs more than the two substitutions that it
/// replaces: the distance is at most the Levenshtein distance.
pub proof fn lemma_osa_at_most_levenshtein(a: Seq<char>, b: Seq<char>)
    ensures
        osa_distance(a, b) <= edit_distance(a, b),
    decreases a.len() + b.len(),
{
    if a.len() > 0 && b.len() > 0 {
        lemma_osa_at_most_levenshtein(a.drop_last(), b.drop_last());
        lemma_osa_at_most_levenshtein(a.drop_last(), b);
        lemma_osa_at_most_levenshtein(a, b.drop_last());
    }
}

/// The distance from `a` to `b` is the distance from `b` to `a`.
pub proof fn lemma_osa_distance_symmetric(a: Seq<char>, b: Seq<char>)
    ensures
        osa_distance(a, b) == osa_distance(b, a),
    decreases a.len() + b.len(),
{
    if a.len() > 0 && b.len() > 0 {
        lemma_osa_distance_symmetric(a.drop_last(), b.drop_last());
        lemma_osa_distance_symmetric(a.drop_last(), b);
        lemma_osa_distance_symmetric(a, b.drop_last());
        if ends_swapped(a, b) {
            lemma_osa_distance_symmetric(a.drop_last().drop_last(), b.drop_last().drop_last());
        }
    }
}

/// The distance from a string to itself is zero.
pub proof fn lemma_osa_distance_self(a: Seq<char>)
    ensures
        osa_distance(a, a) == 0,
    decreases a.len(),
{
    if a.len() > 0 {
        lemma_osa_distance_self(a.drop_last());
    }
}

/// The distance between two non-empty prefixes from the distances between
/// shorter prefixes.
pub proof fn lemma_osa_distance_cell(a: Seq<char>, b: Seq<char>, i: int, j: int)
    requires
        0 < i <= a.len(),
        0 < j <= b.len(),
    ensures
        ends_swapped(a.take(i), b.take(j)) <==> i >= 2 && j >= 2 && a[i - 1] == b[j - 2] && a[i
            - 2] == b[j - 1],
        osa_distance(a.take(i), b.take(j)) == osa_step(
            a[i - 1] == b[j - 1],
            ends_swapped(a.take(i), b.take(j)),
            osa_distance(a.take(i - 1), b.take(j)) as int,
            osa_distance(a.take(i), b.take(j - 1)) as int,
            osa_distance(a.take(i - 1), b.take(j - 1)) as int,
            if ends_swapped(a.take(i), b.take(j)) {
                osa_distance(a.take(i - 2), b.take(j - 2)) as int
            } else {
                0
            },
        ),
{
    assert(a.take(i).drop_last() =~= a.take(i - 1));
    assert(b.take(j).drop_last() =~= b.take(j - 1));
    if i >= 2 {
        assert(a.take(i).drop_last().drop_last() =~= a.take(i - 2));
    }
    if j >= 2 {
        assert(b.take(j).drop_last().drop_last() =~= b.take(j - 2));
    }
}

/// The distance to or from an empty prefix is the length of the other prefix.
pub proof fn lemma_osa_distance_boundary(a: Seq<char>, b: Seq<char>, i: int, j: int)
    requires
        0 <= i <= a.len(),
        0 <= j <= b.len(),
    ensures
        i == 0 ==> osa_distance(a.take(i), b.take(j)) == j,
        j == 0 ==> osa_distance(a.take(i), b.take(j)) == i,
{
}

/// Whether the rows of `table` are rows of the distance matrix of `a` and
/// `b`.
pub open spec fn is_osa_matrix(table: Seq<Vec<usize>>, a: Seq<char>, b: Seq<char>) -> bool {
    &&& forall|i: int| 0 <= i < table.len() ==> (#[trigger] table[i])@.len() == b.len() + 1
    &&& forall|i: int, j: int|
        0 <= i < table.len() && 0 <= j <= b.len() ==> (#[trigger] table[i]@[j]) == osa_distance(
            a.take(i),
            b.take(j),
        )
}

/// The least of three numbers.
fn least_of(x: usize, y: usize, z: usize) -> (least: usize)
    ensures
        least == min3(x as int, y as int, z as int),
{
    if x <= y && x <= z {
        x
    } else if y <= z {
        y
    } else {
        z
    }
}

/// The row of the matrix for the first `i + 1` code points of `a`, from the
/// rows before it.
fn next_row(a: &Vec<char>, b: &Vec<char>, i: usize, table: &Vec<Vec<usize>>) -> (row: Vec<usize>)
    requires
        i < a@.len(),
        table@.len() == i + 1,
        is_osa_matrix(table@, a@, b@),
    ensures
        row@.len() == b@.len() + 1,
        forall|j: int|
            0 <= j <= b@.len() ==> (#[trigger] row@[j]) == osa_distance(a@.take(i + 1), b@.take(j)),
{
    let n = a.len();
    let m = b.len();
    let mut row: Vec<usize> = Vec::new();
    row.push(i + 1);
    proof {
        lemma_osa_distance_boundary(a@, b@, i + 1, 0);
    }
    let mut j: usize = 0;
    while j < m
        invariant
            n == a@.len(),
            m == b@.len(),
            i < n,
            j <= m,
            table@.len() == i + 1,
            is_osa_matrix(table@, a@, b@),
            row@.len() == j + 1,
            forall|c: int|
                0 <= c <= j ==> (#[trigger] row@[c]) == osa_distance(a@.take(i + 1), b@.take(c)),
        decreases m - j,
    {
        proof {
            lemma_osa_distance_cell(a@, b@, i + 1, j + 1);
            lemma_osa_distance_bounded(a@.take(i as int), b@.take(j as int));
            lemma_osa_distance_bounded(a@.take(i as int), b@.take(j + 1));
            lemma_osa_distance_bounded(a@.take(i + 1), b@.take(j as int));
            if i >= 1 && j >= 1 {
                lemma_osa_distance_bounded(a@.take(i - 1), b@.take(j - 1));
            }
        }
        let deletion = table[i][j + 1];
        let insertion = row[j];
        let substitution = table[i][j];
        let mut cell = if a[i] == b[j] {
            substitution
        } else {
            least_of(deletion, insertion, substitution) + 1
        };
        if i >= 1 && j >= 1 && a[i] == b[j - 1] && a[i - 1] == b[j] {
            let transposition = table[i - 1][j - 1] + 1;
            if transposition < cell {
                cell = transposition;
            }
        }
        row.push(cell);
        j += 1;
    }
    row
}

/// The first row of the matrix.
fn boundary_row(a: &Vec<char>, b: &Vec<char>) -> (row: Vec<usize>)
    ensures
        row@.len() == b@.len() + 1,
        forall|j: int|
            0 <= j <= b@.len() ==> (#[trigger] row@[j]) == osa_distance(a@.take(0), b@.take(j)),
{
    let m = b.len();
    let mut row: Vec<usize> = Vec::new();
    row.push(0);
    proof {
        lemma_osa_distance_boundary(a@, b@, 0, 0);
    }
    let mut j: usize = 0;
    while j < m
        invariant
            m == b@.len(),
            j <= m,
            row@.len() == j + 1,
            forall|c: int|
                0 <= c <= j ==> (#[trigger] row@[c]) == osa_distance(a@.take(0), b@.take(c)),
        decreases m - j,
    {
        j += 1;
        row.push(j);
        proof {
            lemma_osa_distance_boundary(a@, b@, 0, j as int);
        }
    }
    row
}

/// The optimal string alignment distance between `str1` and `str2`.
pub fn compute(str1: &str, str2: &str) -> (d: usize)
    ensures
        d == osa_distance(str1@, str2@),
{
    let a = code_points(str1);
    let b = code_points(str2);
    let n = a.len();
    let mut table: Vec<Vec<usize>> = Vec::new();
    table.push(boundary_row(&a, &b));
    let mut i: usize = 0;
    while i < n
        invariant
            n == a@.len(),
            i <= n,
            table@.len() == i + 1,
            is_osa_matrix(table@, a@, b@),
        decreases n - i,
    {
        let row = next_row(&a, &b, i, &table);
        table.push(row);
        i += 1;
    }
    proof {
        assert(a@.take(a@.len() as int) =~= a@);
        assert(b@.take(b@.len() as int) =~= b@);
    }
    table[n][b.len()]
}

} // verus!
