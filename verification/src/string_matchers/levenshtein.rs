//! Levenshtein distance: the least number of single code point insertions,
//! deletions and substitutions that turn one string into another, computed
//! by memoised recursion.

use crate::sequence::code_points;
use vstd::prelude::*;

verus! {

/// The least of three numbers.
pub open spec fn min3(x: int, y: int, z: int) -> int {
    if x <= y && x <= z {
        x
    } else if y <= z {
        y
    } else {
        z
    }
}

/// The edit distance between `a` and `b`.
///
/// From the empty string it is the length of the other string. Where the
/// last code points agree it is the distance between the strings without
/// them. Otherwise it is one more than the least of: the distance after
/// deleting the last of `a`, after deleting the last of `b`, and after
/// deleting both (a substitution).
pub open spec fn edit_distance(a: Seq<char>, b: Seq<char>) -> nat
    decreases a.len() + b.len(),
{
    if a.len() == 0 {
        b.len()
    } else if b.len() == 0 {
        a.len()
    } else if a.last() == b.last() {
        edit_distance(a.drop_last(), b.drop_last())
    } else {
        (1 + min3(
            edit_distance(a.drop_last(), b) as int,
            edit_distance(a, b.drop_last()) as int,
            edit_distance(a.drop_last(), b.drop_last()) as int,
        )) as nat
    }
}

/// The distance is at most the length of the longer string and at least the
/// difference of the two lengths.
pub proof fn lemma_edit_distance_bounds(a: Seq<char>, b: Seq<char>)
    ensures
        edit_distance(a, b) <= (if a.len() >= b.len() {
            a.len()
        } else {
            b.len()
        }),
        edit_distance(a, b) >= a.len() - b.len(),
        edit_distance(a, b) >= b.len() - a.len(),
    decreases a.len() + b.len(),
{
    if a.len() > 0 && b.len() > 0 {
        lemma_edit_distance_bounds(a.drop_last(), b.drop_last());
        if a.last() != b.last() {
            lemma_edit_distance_bounds(a.drop_last(), b);
            lemma_edit_distance_bounds(a, b.drop_last());
        }
    }
}

/// The distance from `a` to `b` is the distance from `b` to `a`.
pub proof fn lemma_edit_distance_symmetric(a: Seq<char>, b: Seq<char>)
    ensures
        edit_distance(a, b) == edit_distance(b, a),
    decreases a.len() + b.len(),
{
    if a.len() > 0 && b.len() > 0 {
        lemma_edit_distance_symmetric(a.drop_last(), b.drop_last());
        if a.last() != b.last() {
            lemma_edit_distance_symmetric(a.drop_last(), b);
            lemma_edit_distance_symmetric(a, b.drop_last());
        }
    }
}

/// The distance from a string to itself is zero.
pub proof fn lemma_edit_distance_self(a: Seq<char>)
    ensures
        edit_distance(a, a) == 0,
    decreases a.len(),
{
    if a.len() > 0 {
        lemma_edit_distance_self(a.drop_last());
    }
}

/// One step of an edit script. A script is read from the left, along both
/// strings at once.
pub enum Edit {
    /// The next code point is the same in both strings and stays.
    Keep,
    /// The next code point of the first string is replaced by the next code
    /// point of the second.
    Substitute,
    /// The next code point of the second string is inserted.
    Insert,
    /// The next code point of the first string is deleted.
    Delete,
}

/// Whether `script` turns `a` into `b`.
pub open spec fn transforms(script: Seq<Edit>, a: Seq<char>, b: Seq<char>) -> bool
    decreases script.len(),
{
    if script.len() == 0 {
        a.len() == 0 && b.len() == 0
    } else {
        match script.last() {
            Edit::Keep => a.len() > 0 && b.len() > 0 && a.last() == b.last() && transforms(
                script.drop_last(),
                a.drop_last(),
                b.drop_last(),
            ),
            Edit::Substitute => a.len() > 0 && b.len() > 0 && transforms(
                script.drop_last(),
                a.drop_last(),
                b.drop_last(),
            ),
            Edit::Insert => b.len() > 0 && transforms(script.drop_last(), a, b.drop_last()),
            Edit::Delete => a.len() > 0 && transforms(script.drop_last(), a.drop_last(), b),
        }
    }
}

/// The number of insertions, deletions and substitutions in `script`.
pub open spec fn cost(script: Seq<Edit>) -> nat
    decreases script.len(),
{
    if script.len() == 0 {
        0
    } else if script.last() is Keep {
        cost(script.drop_last())
    } else {
        cost(script.drop_last()) + 1
    }
}

/// A script of least cost that turns `a` into `b`.
pub open spec fn least_script(a: Seq<char>, b: Seq<char>) -> Seq<Edit>
    decreases a.len() + b.len(),
{
    if a.len() == 0 && b.len() == 0 {
        Seq::empty()
    } else if a.len() == 0 {
        least_script(a, b.drop_last()).push(Edit::Insert)
    } else if b.len() == 0 {
        least_script(a.drop_last(), b).push(Edit::Delete)
    } else if a.last() == b.last() {
        least_script(a.drop_last(), b.drop_last()).push(Edit::Keep)
    } else {
        let deletion = edit_distance(a.drop_last(), b);
        let insertion = edit_distance(a, b.drop_last());
        let substitution = edit_distance(a.drop_last(), b.drop_last());
        if deletion <= insertion && deletion <= substitution {
            least_script(a.drop_last(), b).push(Edit::Delete)
        } else if insertion <= substitution {
            least_script(a, b.drop_last()).push(Edit::Insert)
        } else {
            least_script(a.drop_last(), b.drop_last()).push(Edit::Substitute)
        }
    }
}

/// One code point more or less at the end of either string changes the
/// distance by at most one.
pub proof fn lemma_edit_distance_step(a: Seq<char>, b: Seq<char>)
    ensures
        a.len() > 0 ==> edit_distance(a.drop_last(), b) <= edit_distance(a, b) + 1,
        a.len() > 0 ==> edit_distance(a, b) <= edit_distance(a.drop_last(), b) + 1,
        b.len() > 0 ==> edit_distance(a, b.drop_last()) <= edit_distance(a, b) + 1,
        b.len() > 0 ==> edit_distance(a, b) <= edit_distance(a, b.drop_last()) + 1,
    decreases a.len() + b.len(),
{
    if a.len() > 0 && b.len() > 0 {
        lemma_edit_distance_step(a.drop_last(), b);
        lemma_edit_distance_step(a, b.drop_last());
        lemma_edit_distance_step(a.drop_last(), b.drop_last());
    }
}

/// No script that turns `a` into `b` costs less than their distance.
pub proof fn lemma_script_costs_at_least(script: Seq<Edit>, a: Seq<char>, b: Seq<char>)
    requires
        transforms(script, a, b),
    ensures
        cost(script) >= edit_distance(a, b),
    decreases script.len(),
{
    if script.len() > 0 {
        lemma_edit_distance_step(a, b);
        match script.last() {
            Edit::Keep => {
                lemma_script_costs_at_least(script.drop_last(), a.drop_last(), b.drop_last());
            },
            Edit::Substitute => {
                lemma_script_costs_at_least(script.drop_last(), a.drop_last(), b.drop_last());
            },
            Edit::Insert => {
                lemma_script_costs_at_least(script.drop_last(), a, b.drop_last());
                if a.len() > 0 {
                    lemma_edit_distance_step(a, b.drop_last());
                }
            },
            Edit::Delete => {
                lemma_script_costs_at_least(script.drop_last(), a.drop_last(), b);
                if b.len() > 0 {
                    lemma_edit_distance_step(a.drop_last(), b);
                }
            },
        }
    }
}

/// The least script turns `a` into `b` at the cost of their distance.
pub proof fn lemma_least_script(a: Seq<char>, b: Seq<char>)
    ensures
        transforms(least_script(a, b), a, b),
        cost(least_script(a, b)) == edit_distance(a, b),
    decreases a.len() + b.len(),
{
    if a.len() == 0 && b.len() == 0 {
    } else if a.len() == 0 {
        lemma_least_script(a, b.drop_last());
        let rest = least_script(a, b.drop_last());
        assert(rest.push(Edit::Insert).drop_last() =~= rest);
    } else if b.len() == 0 {
        lemma_least_script(a.drop_last(), b);
        let rest = least_script(a.drop_last(), b);
        assert(rest.push(Edit::Delete).drop_last() =~= rest);
    } else {
        lemma_least_script(a.drop_last(), b);
        lemma_least_script(a, b.drop_last());
        lemma_least_script(a.drop_last(), b.drop_last());
        let deleted = least_script(a.drop_last(), b);
        let inserted = least_script(a, b.drop_last());
        let both = least_script(a.drop_last(), b.drop_last());
        assert(deleted.push(Edit::Delete).drop_last() =~= deleted);
        assert(inserted.push(Edit::Insert).drop_last() =~= inserted);
        assert(both.push(Edit::Substitute).drop_last() =~= both);
        assert(both.push(Edit::Keep).drop_last() =~= both);
    }
}

/// The distance is the least number of single code point insertions,
/// deletions and substitutions that turn `a` into `b`: some script does it
/// at that cost, and none does it for less.
pub proof fn lemma_edit_distance_is_least(a: Seq<char>, b: Seq<char>)
    ensures
        exists|script: Seq<Edit>|
            #![trigger transforms(script, a, b)]
            transforms(script, a, b) && cost(script) == edit_distance(a, b),
        forall|script: Seq<Edit>|
            #![trigger transforms(script, a, b)]
            transforms(script, a, b) ==> cost(script) >= edit_distance(a, b),
{
    lemma_least_script(a, b);
    assert forall|script: Seq<Edit>| #![trigger transforms(script, a, b)] transforms(
        script,
        a,
        b,
    ) implies cost(script) >= edit_distance(a, b) by {
        lemma_script_costs_at_least(script, a, b);
    }
}

/// How the distance between two prefixes follows from the distances between
/// shorter prefixes: one cell of the distance matrix from its neighbours.
pub proof fn lemma_edit_distance_cell(a: Seq<char>, b: Seq<char>, i: int, j: int)
    requires
        0 <= i <= a.len(),
        0 <= j <= b.len(),
    ensures
        i == 0 ==> edit_distance(a.take(i), b.take(j)) == j,
        j == 0 ==> edit_distance(a.take(i), b.take(j)) == i,
        i > 0 && j > 0 && a[i - 1] == b[j - 1] ==> edit_distance(a.take(i), b.take(j))
            == edit_distance(a.take(i - 1), b.take(j - 1)),
        i > 0 && j > 0 && a[i - 1] != b[j - 1] ==> edit_distance(a.take(i), b.take(j)) == 1 + min3(
            edit_distance(a.take(i - 1), b.take(j)) as int,
            edit_distance(a.take(i), b.take(j - 1)) as int,
            edit_distance(a.take(i - 1), b.take(j - 1)) as int,
        ),
{
    if i > 0 {
        assert(a.take(i).drop_last() =~= a.take(i - 1));
    }
    if j > 0 {
        assert(b.take(j).drop_last() =~= b.take(j - 1));
    }
}

/// Whether every distance that `memo` has noted is right, and `memo` has a
/// place for each pair of prefixes.
pub open spec fn memo_holds(memo: Seq<Vec<Option<usize>>>, a: Seq<char>, b: Seq<char>) -> bool {
    &&& memo.len() == a.len() + 1
    &&& forall|i: int| 0 <= i < memo.len() ==> (#[trigger] memo[i])@.len() == b.len() + 1
    &&& forall|i: int, j: int|
        0 <= i <= a.len() && 0 <= j <= b.len() ==> match #[trigger] memo[i]@[j] {
            Some(d) => d == edit_distance(a.take(i), b.take(j)),
            None => true,
        }
}

/// The distance between the first `i` code points of `a` and the first `j`
/// of `b`, noting in `memo` what it works out on the way.
fn prefix_distance(
    a: &Vec<char>,
    b: &Vec<char>,
    i: usize,
    j: usize,
    memo: &mut Vec<Vec<Option<usize>>>,
) -> (d: usize)
    requires
        i <= a@.len(),
        j <= b@.len(),
        memo_holds(old(memo)@, a@, b@),
    ensures
        memo_holds(final(memo)@, a@, b@),
        d == edit_distance(a@.take(i as int), b@.take(j as int)),
    decreases i + j,
{
    proof {
        lemma_edit_distance_cell(a@, b@, i as int, j as int);
        lemma_edit_distance_bounds(a@.take(i as int), b@.take(j as int));
    }
    if i == 0 {
        return j;
    }
    if j == 0 {
        return i;
    }
    match memo[i][j] {
        Some(d) => {
            return d;
        },
        None => {},
    }
    let d = if a[i - 1] == b[j - 1] {
        prefix_distance(a, b, i - 1, j - 1, memo)
    } else {
        let deletion = prefix_distance(a, b, i - 1, j, memo);
        let insertion = prefix_distance(a, b, i, j - 1, memo);
        let substitution = prefix_distance(a, b, i - 1, j - 1, memo);
        let least = if deletion <= insertion && deletion <= substitution {
            deletion
        } else if insertion <= substitution {
            insertion
        } else {
            substitution
        };
        least + 1
    };
    memo[i][j] = Some(d);
    d
}

/// The Levenshtein distance between `str1` and `str2`.
pub fn compute(str1: &str, str2: &str) -> (d: usize)
    ensures
        d == edit_distance(str1@, str2@),
{
    let a = code_points(str1);
    let b = code_points(str2);
    let n = a.len();
    let m = b.len();
    let mut memo: Vec<Vec<Option<usize>>> = Vec::new();
    let mut i: usize = 0;
    loop
        invariant_except_break
            memo@.len() == i,
        invariant
            n == a@.len(),
            m == b@.len(),
            i <= n,
            forall|r: int| 0 <= r < memo@.len() ==> (#[trigger] memo@[r])@.len() == m + 1,
            forall|r: int, c: int|
                0 <= r < memo@.len() && 0 <= c <= m ==> (#[trigger] memo@[r]@[c]) is None,
        ensures
            memo@.len() == n + 1,
        decreases n - i,
    {
        let mut row: Vec<Option<usize>> = Vec::new();
        row.push(None);
        let mut j: usize = 0;
        while j < m
            invariant
                j <= m,
                row@.len() == j + 1,
                forall|c: int| 0 <= c < row@.len() ==> (#[trigger] row@[c]) is None,
            decreases m - j,
        {
            row.push(None);
            j += 1;
        }
        memo.push(row);
        if i == n {
            break ;
        }
        i += 1;
    }
    proof {
        assert(a@.take(n as int) =~= a@);
        assert(b@.take(m as int) =~= b@);
    }
    prefix_distance(&a, &b, n, m, &mut memo)
}

} // verus!
