//! Jaro-Winkler similarity.
//!
//! The strings are matched code point by code point within a sliding
//! window. The similarity follows from the number of matches, the number of
//! matched code points that stand in a different order in the two strings,
//! and the length of the prefix that the strings share. The counts are
//! exact; the similarity, and the distance that is one minus the
//! similarity, are given as fractions.

use crate::ratio::Ratio;
use crate::sequence::code_points;
use crate::string_matchers::hamming::{
    lemma_mismatches_self, lemma_mismatches_symmetric, mismatches,
};
use vstd::prelude::*;

verus! {

/// How far from its own position a code point may find its match: half the
/// length of the longer string, rounded down, less one; never below zero.
pub open spec fn radius(len1: nat, len2: nat) -> nat {
    let longer = if len1 >= len2 {
        len1
    } else {
        len2
    };
    if longer >= 2 {
        (longer / 2 - 1) as nat
    } else {
        0
    }
}

/// The first position of the window around `i`.
pub open spec fn window_start(i: int, r: nat) -> int {
    if i >= r {
        i - r
    } else {
        0
    }
}

/// One past the last position of the window around `i` in a string of
/// length `len`.
pub open spec fn window_end(i: int, r: nat, len: nat) -> int {
    if i + r + 1 <= len {
        i + r + 1
    } else {
        len as int
    }
}

/// The first position from `from` up to `to` at which `b` holds `c` and is
/// not yet `used`.
pub open spec fn first_free(b: Seq<char>, used: Seq<bool>, c: char, from: int, to: int) -> Option<
    int,
>
    decreases to - from,
{
    if from >= to {
        None
    } else if !used[from] && b[from] == c {
        Some(from)
    } else {
        first_free(b, used, c, from + 1, to)
    }
}

/// The position of `b` that position `i` of `a` is matched with, where
/// `used` marks the positions of `b` that are already taken.
pub open spec fn partner_given(a: Seq<char>, b: Seq<char>, i: int, used: Seq<bool>) -> Option<
    int,
> {
    let r = radius(a.len(), b.len());
    first_free(b, used, a[i], window_start(i, r), window_end(i, r, b.len()))
}

/// The positions of `b` that are taken once the first `k` positions of `a`
/// have sought their match, each in its turn.
pub open spec fn used_after(a: Seq<char>, b: Seq<char>, k: nat) -> Seq<bool>
    decreases k,
{
    if k == 0 {
        Seq::new(b.len(), |j: int| false)
    } else {
        let before = used_after(a, b, (k - 1) as nat);
        match partner_given(a, b, k - 1, before) {
            Some(j) => before.update(j, true),
            None => before,
        }
    }
}

/// The position of `b` that position `i` of `a` is matched with.
pub open spec fn partner(a: Seq<char>, b: Seq<char>, i: int) -> Option<int> {
    partner_given(a, b, i, used_after(a, b, i as nat))
}

/// The positions of `a` that find a match in `b`.
pub open spec fn matched_flags(a: Seq<char>, b: Seq<char>) -> Seq<bool> {
    Seq::new(a.len(), |i: int| partner(a, b, i) is Some)
}

/// The code points of `s` at the positions that `flags` marks, in order.
pub open spec fn flagged(s: Seq<char>, flags: Seq<bool>) -> Seq<char>
    decreases s.len(),
{
    if s.len() == 0 {
        Seq::empty()
    } else if flags.last() {
        flagged(s.drop_last(), flags.drop_last()).push(s.last())
    } else {
        flagged(s.drop_last(), flags.drop_last())
    }
}

/// The number of code points of `a` that find a match in `b`.
pub open spec fn matches(a: Seq<char>, b: Seq<char>) -> nat {
    flagged(a, matched_flags(a, b)).len()
}

/// The number of places at which the matched code points of `a`, in the
/// order of `a`, differ from the matched code points of `b`, in the order of
/// `b`.
pub open spec fn out_of_order(a: Seq<char>, b: Seq<char>) -> nat {
    mismatches(
        flagged(a, matched_flags(a, b)),
        flagged(b, used_after(a, b, a.len())),
        matches(a, b),
    )
}

/// The number of transpositions: half the matched code points that are out
/// of order, rounded down.
pub open spec fn transpositions(a: Seq<char>, b: Seq<char>) -> nat {
    out_of_order(a, b) / 2
}

/// The length of the longest prefix that `a` and `b` share, up to `limit`.
pub open spec fn common_prefix(a: Seq<char>, b: Seq<char>, limit: nat) -> nat
    decreases limit,
{
    if limit == 0 {
        0
    } else {
        let shorter = common_prefix(a, b, (limit - 1) as nat);
        if shorter == limit - 1 && limit <= a.len() && limit <= b.len() && a[limit - 1] == b[limit
            - 1] {
            limit
        } else {
            shorter
        }
    }
}

/// What `first_free` finds, and what it has passed over.
pub proof fn lemma_first_free(b: Seq<char>, used: Seq<bool>, c: char, from: int, to: int)
    requires
        0 <= from,
        to <= b.len(),
        used.len() == b.len(),
    ensures
        match first_free(b, used, c, from, to) {
            Some(j) => {
                &&& from <= j < to
                &&& !used[j]
                &&& b[j] == c
                &&& forall|k: int| from <= k < j ==> used[k] || b[k] != c
            },
            None => forall|k: int| from <= k < to ==> used[k] || b[k] != c,
        },
    decreases to - from,
{
    if from < to && !(!used[from] && b[from] == c) {
        lemma_first_free(b, used, c, from + 1, to);
    }
}

/// There is a flag for every position of `b`.
pub proof fn lemma_used_after_len(a: Seq<char>, b: Seq<char>, k: nat)
    ensures
        used_after(a, b, k).len() == b.len(),
    decreases k,
{
    if k > 0 {
        let before = used_after(a, b, (k - 1) as nat);
        lemma_used_after_len(a, b, (k - 1) as nat);
        let r = radius(a.len(), b.len());
        lemma_first_free(
            b,
            before,
            a[k - 1],
            window_start(k - 1, r),
            window_end(k - 1, r, b.len()),
        );
    }
}

/// No more code points are marked than there are.
pub proof fn lemma_flagged_bounded(s: Seq<char>, flags: Seq<bool>)
    ensures
        flagged(s, flags).len() <= s.len(),
    decreases s.len(),
{
    if s.len() > 0 {
        lemma_flagged_bounded(s.drop_last(), flags.drop_last());
    }
}

/// Where nothing is marked, nothing is selected.
pub proof fn lemma_flagged_none(s: Seq<char>, flags: Seq<bool>)
    requires
        flags.len() == s.len(),
        forall|i: int| 0 <= i < flags.len() ==> !flags[i],
    ensures
        flagged(s, flags).len() == 0,
    decreases s.len(),
{
    if s.len() > 0 {
        lemma_flagged_none(s.drop_last(), flags.drop_last());
    }
}

/// Where everything is marked, everything is selected.
pub proof fn lemma_flagged_all(s: Seq<char>, flags: Seq<bool>)
    requires
        flags.len() == s.len(),
        forall|i: int| 0 <= i < flags.len() ==> flags[i],
    ensures
        flagged(s, flags) == s,
    decreases s.len(),
{
    if s.len() > 0 {
        lemma_flagged_all(s.drop_last(), flags.drop_last());
        assert(s.drop_last().push(s.last()) =~= s);
    } else {
        assert(flagged(s, flags) =~= s);
    }
}

/// Marking one more position selects one more code point.
pub proof fn lemma_flagged_update(s: Seq<char>, flags: Seq<bool>, j: int)
    requires
        flags.len() == s.len(),
        0 <= j < s.len(),
        !flags[j],
    ensures
        flagged(s, flags.update(j, true)).len() == flagged(s, flags).len() + 1,
    decreases s.len(),
{
    let marked = flags.update(j, true);
    if j == s.len() - 1 {
        assert(marked.drop_last() =~= flags.drop_last());
    } else {
        assert(marked.drop_last() =~= flags.drop_last().update(j, true));
        lemma_flagged_update(s.drop_last(), flags.drop_last(), j);
    }
}

/// The selection from a prefix, from the selection from the prefix that is
/// one shorter.
pub proof fn lemma_flagged_take(s: Seq<char>, flags: Seq<bool>, i: int)
    requires
        flags.len() == s.len(),
        0 <= i < s.len(),
    ensures
        flagged(s.take(i + 1), flags.take(i + 1)) == (if flags[i] {
            flagged(s.take(i), flags.take(i)).push(s[i])
        } else {
            flagged(s.take(i), flags.take(i))
        }),
{
    assert(s.take(i + 1).drop_last() =~= s.take(i));
    assert(flags.take(i + 1).drop_last() =~= flags.take(i));
}

/// As many positions of `b` are taken as positions of `a` have found a
/// match.
pub proof fn lemma_match_counts_agree(a: Seq<char>, b: Seq<char>, k: nat)
    requires
        k <= a.len(),
    ensures
        flagged(b, used_after(a, b, k)).len() == flagged(
            a.take(k as int),
            matched_flags(a, b).take(k as int),
        ).len(),
    decreases k,
{
    if k == 0 {
        lemma_flagged_none(b, used_after(a, b, 0));
    } else {
        let before = used_after(a, b, (k - 1) as nat);
        let r = radius(a.len(), b.len());
        lemma_match_counts_agree(a, b, (k - 1) as nat);
        lemma_used_after_len(a, b, (k - 1) as nat);
        lemma_first_free(
            b,
            before,
            a[k - 1],
            window_start(k - 1, r),
            window_end(k - 1, r, b.len()),
        );
        lemma_flagged_take(a, matched_flags(a, b), k - 1);
        match partner_given(a, b, k - 1, before) {
            Some(j) => {
                lemma_flagged_update(b, before, j);
            },
            None => {},
        }
    }
}

/// The counts that the similarity of two strings follows from.
#[derive(Clone, Copy, Debug, PartialEq, Eq)]
pub struct JaroWinkler {
    /// The length of the first string.
    pub len1: usize,
    /// The length of the second string.
    pub len2: usize,
    /// The number of matched code points.
    pub matches: usize,
    /// The number of transpositions among the matched code points.
    pub transpositions: usize,
    /// The length of the shared prefix, up to four.
    pub prefix: usize,
}

/// Whether `c` holds the counts of `a` and `b`.
pub open spec fn describes(c: JaroWinkler, a: Seq<char>, b: Seq<char>) -> bool {
    &&& c.len1 == a.len()
    &&& c.len2 == b.len()
    &&& c.matches == matches(a, b)
    &&& c.transpositions == transpositions(a, b)
    &&& c.prefix == common_prefix(a, b, 4)
}

impl JaroWinkler {
    /// What holds of the counts of any two strings.
    pub open spec fn wf(&self) -> bool {
        &&& self.matches <= self.len1
        &&& self.matches <= self.len2
        &&& 2 * self.transpositions <= self.matches
        &&& self.prefix <= 4
    }

    /// The denominator of the Jaro similarity of strings with a match.
    pub open spec fn jaro_den(&self) -> int {
        self.len1 * self.len2 * self.matches * 3
    }

    /// The numerator of the Jaro similarity of strings with a match: over
    /// `jaro_den`, a third of the sum of the share of matched code points in
    /// the first string, their share in the second string, and the share of
    /// the matches that are not transposed.
    pub open spec fn jaro_num(&self) -> int {
        self.matches * self.matches * self.len2 + self.matches * self.matches * self.len1 + (
        self.matches - self.transpositions) * (self.len1 * self.len2)
    }

    /// The denominator of the similarity.
    pub open spec fn similarity_den(&self) -> int {
        if self.matches == 0 {
            1
        } else {
            self.jaro_den() * 10
        }
    }

    /// The numerator of the similarity. Strings without a match have
    /// similarity zero. For the others the Jaro similarity is raised by a
    /// tenth of what it lacks to one, for each code point of the shared
    /// prefix.
    pub open spec fn similarity_num(&self) -> int {
        if self.matches == 0 {
            0
        } else {
            10 * self.jaro_num() + self.prefix * (self.jaro_den() - self.jaro_num())
        }
    }

    /// The similarity lies between zero and one.
    pub proof fn lemma_similarity_bounds(&self)
        requires
            self.wf(),
        ensures
            self.similarity_den() > 0,
            0 <= self.similarity_num() <= self.similarity_den(),
    {
        if self.matches > 0 {
            let m = self.matches as int;
            let t = self.transpositions as int;
            let l1 = self.len1 as int;
            let l2 = self.len2 as int;
            let l = self.prefix as int;
            let area = l1 * l2;
            assert(area >= 1) by (nonlinear_arith)
                requires
                    area == l1 * l2,
                    l1 >= 1,
                    l2 >= 1,
            ;
            assert(area * m >= 1) by (nonlinear_arith)
                requires
                    area >= 1,
                    m >= 1,
            ;
            assert(0 <= m * m * l2 <= area * m) by (nonlinear_arith)
                requires
                    area == l1 * l2,
                    0 < m <= l1,
                    0 <= l2,
            ;
            assert(0 <= m * m * l1 <= area * m) by (nonlinear_arith)
                requires
                    area == l1 * l2,
                    0 < m <= l2,
                    0 <= l1,
            ;
            assert(0 <= (m - t) * area <= area * m) by (nonlinear_arith)
                requires
                    0 <= t <= m,
                    0 <= area,
            ;
            let gap = self.jaro_den() - self.jaro_num();
            assert(0 <= l * gap <= 10 * gap) by (nonlinear_arith)
                requires
                    0 <= l <= 4,
                    0 <= gap,
            ;
        }
    }

    /// The similarity as a fraction, where its denominator fits in 128 bits.
    pub fn similarity(&self) -> (r: Option<Ratio>)
        requires
            self.wf(),
        ensures
            r is Some <==> self.similarity_den() <= u128::MAX,
            r matches Some(q) ==> q.num == self.similarity_num() && q.den
                == self.similarity_den() && q.is_unit(),
    {
        if self.matches == 0 {
            return Some(Ratio { num: 0, den: 1 });
        }
        let m = self.matches as u128;
        let t = self.transpositions as u128;
        let l1 = self.len1 as u128;
        let l2 = self.len2 as u128;
        let l = self.prefix as u128;
        proof {
            self.lemma_similarity_bounds();
            assert(0 <= l1 * l2 <= 0xFFFF_FFFF_FFFF_FFFF * 0xFFFF_FFFF_FFFF_FFFF) by (nonlinear_arith)
                requires
                    0 <= l1 <= 0xFFFF_FFFF_FFFF_FFFF,
                    0 <= l2 <= 0xFFFF_FFFF_FFFF_FFFF,
            ;
        }
        let area = l1 * l2;
        let jaro_den = match area.checked_mul(m) {
            Some(volume) => match volume.checked_mul(3) {
                Some(d) => d,
                None => {
                    return None;
                },
            },
            None => {
                return None;
            },
        };
        let den = match jaro_den.checked_mul(10) {
            Some(d) => d,
            None => {
                return None;
            },
        };
        proof {
            assert(0 <= m * m <= area) by (nonlinear_arith)
                requires
                    area == l1 * l2,
                    0 < m <= l1,
                    m <= l2,
            ;
            assert(0 <= m * m * l2 <= area * m) by (nonlinear_arith)
                requires
                    area == l1 * l2,
                    0 < m <= l1,
                    0 <= l2,
            ;
            assert(0 <= m * m * l1 <= area * m) by (nonlinear_arith)
                requires
                    area == l1 * l2,
                    0 < m <= l2,
                    0 <= l1,
            ;
            assert(0 <= (m - t) * area <= area * m) by (nonlinear_arith)
                requires
                    0 <= t <= m,
                    0 <= area,
            ;
        }
        let square = m * m;
        let jaro_num = square * l2 + square * l1 + (m - t) * area;
        let gap = jaro_den - jaro_num;
        proof {
            assert(0 <= l * gap <= 10 * gap) by (nonlinear_arith)
                requires
                    0 <= l <= 4,
                    0 <= gap,
            ;
        }
        let num = 10 * jaro_num + l * gap;
        Some(Ratio { num, den })
    }

    /// The distance, one minus the similarity, as a fraction, where its
    /// denominator fits in 128 bits.
    pub fn distance(&self) -> (r: Option<Ratio>)
        requires
            self.wf(),
        ensures
            r is Some <==> self.similarity_den() <= u128::MAX,
            r matches Some(q) ==> q.num == self.similarity_den() - self.similarity_num() && q.den
                == self.similarity_den() && q.is_unit(),
    {
        match self.similarity() {
            Some(q) => Some(q.complement()),
            None => None,
        }
    }
}

/// The code points of `s` at the positions that `flags` marks.
fn select(s: &Vec<char>, flags: &Vec<bool>) -> (chosen: Vec<char>)
    requires
        flags@.len() == s@.len(),
    ensures
        chosen@ == flagged(s@, flags@),
{
    let n = s.len();
    let mut chosen: Vec<char> = Vec::new();
    let mut i: usize = 0;
    while i < n
        invariant
            n == s@.len(),
            flags@.len() == n,
            i <= n,
            chosen@ == flagged(s@.take(i as int), flags@.take(i as int)),
        decreases n - i,
    {
        proof {
            lemma_flagged_take(s@, flags@, i as int);
        }
        if flags[i] {
            chosen.push(s[i]);
        }
        i += 1;
    }
    proof {
        assert(s@.take(n as int) =~= s@);
        assert(flags@.take(n as int) =~= flags@);
    }
    chosen
}

/// Matches the code points of `a` with those of `b`: the positions of `a`
/// that found a match, and the positions of `b` that were taken.
fn match_flags(a: &Vec<char>, b: &Vec<char>) -> (flags: (Vec<bool>, Vec<bool>))
    ensures
        flags.0@ == matched_flags(a@, b@),
        flags.1@ == used_after(a@, b@, a@.len()),
{
    let n = a.len();
    let m = b.len();
    let longer = if n >= m {
        n
    } else {
        m
    };
    let r = if longer >= 2 {
        longer / 2 - 1
    } else {
        0
    };
    let mut used: Vec<bool> = Vec::new();
    let mut j: usize = 0;
    while j < m
        invariant
            j <= m,
            used@.len() == j,
            forall|k: int| 0 <= k < j ==> !used@[k],
        decreases m - j,
    {
        used.push(false);
        j += 1;
    }
    assert(used@ =~= used_after(a@, b@, 0));
    let mut found: Vec<bool> = Vec::new();
    let mut i: usize = 0;
    while i < n
        invariant
            n == a@.len(),
            m == b@.len(),
            r == radius(a@.len(), b@.len()),
            i <= n,
            used@ == used_after(a@, b@, i as nat),
            used@.len() == m,
            found@.len() == i,
            forall|x: int| 0 <= x < i ==> found@[x] == (partner(a@, b@, x) is Some),
        decreases n - i,
    {
        let c = a[i];
        let lo = if i >= r {
            i - r
        } else {
            0
        };
        let hi = if i < m && m - i > r + 1 {
            i + r + 1
        } else {
            m
        };
        assert(lo == window_start(i as int, r as nat));
        assert(hi == window_end(i as int, r as nat, m as nat));
        let mut taken: Option<usize> = None;
        let mut j: usize = lo;
        while j < hi
            invariant_except_break
                taken is None,
                first_free(b@, used@, c, lo as int, hi as int) == first_free(
                    b@,
                    used@,
                    c,
                    j as int,
                    hi as int,
                ),
            invariant
                m == b@.len(),
                used@.len() == m,
                hi <= m,
                lo <= j,
            ensures
                match taken {
                    Some(p) => first_free(b@, used@, c, lo as int, hi as int) == Some(p as int),
                    None => first_free(b@, used@, c, lo as int, hi as int) is None,
                },
            decreases hi - j,
        {
            if !used[j] && b[j] == c {
                taken = Some(j);
                break ;
            }
            j += 1;
        }
        proof {
            lemma_first_free(b@, used@, c, lo as int, hi as int);
        }
        match taken {
            Some(p) => {
                used[p] = true;
                found.push(true);
            },
            None => {
                found.push(false);
            },
        }
        i += 1;
    }
    assert(found@ =~= matched_flags(a@, b@));
    (found, used)
}

/// The counts of `str1` and `str2`.
pub fn compute(str1: &str, str2: &str) -> (c: JaroWinkler)
    ensures
        describes(c, str1@, str2@),
        c.wf(),
{
    let a = code_points(str1);
    let b = code_points(str2);
    let n = a.len();
    let m = b.len();
    let flags = match_flags(&a, &b);
    let matched1 = select(&a, &flags.0);
    proof {
        lemma_used_after_len(a@, b@, a@.len());
    }
    let matched2 = select(&b, &flags.1);
    let count = matched1.len();
    proof {
        lemma_match_counts_agree(a@, b@, a@.len());
        assert(a@.take(a@.len() as int) =~= a@);
        assert(matched_flags(a@, b@).take(a@.len() as int) =~= matched_flags(a@, b@));
        lemma_flagged_bounded(a@, matched_flags(a@, b@));
        lemma_flagged_bounded(b@, used_after(a@, b@, a@.len()));
    }
    let mut differing: usize = 0;
    let mut k: usize = 0;
    while k < count
        invariant
            count == matched1@.len(),
            count == matched2@.len(),
            k <= count,
            differing == mismatches(matched1@, matched2@, k as nat),
            differing <= k,
        decreases count - k,
    {
        if matched1[k] != matched2[k] {
            differing += 1;
        }
        k += 1;
    }
    let mut prefix: usize = 0;
    while prefix < 4 && prefix < n && prefix < m && a[prefix] == b[prefix]
        invariant
            n == a@.len(),
            m == b@.len(),
            prefix <= 4,
            prefix == common_prefix(a@, b@, prefix as nat),
        decreases 4 - prefix,
    {
        prefix += 1;
    }
    proof {
        lemma_common_prefix_stops(a@, b@, prefix as nat, 4);
    }
    JaroWinkler { len1: n, len2: m, matches: count, transpositions: differing / 2, prefix }
}

/// Once the strings differ, or one of them ends, a higher limit finds no
/// longer prefix.
pub proof fn lemma_common_prefix_stops(a: Seq<char>, b: Seq<char>, k: nat, limit: nat)
    requires
        k <= limit,
        common_prefix(a, b, k) == k,
        k == limit || k >= a.len() || k >= b.len() || a[k as int] != b[k as int],
    ensures
        common_prefix(a, b, limit) == k,
    decreases limit,
{
    if limit > k {
        lemma_common_prefix_stops(a, b, k, (limit - 1) as nat);
    }
}

/// Matching a string with itself pairs every position with itself.
pub proof fn lemma_used_after_self(a: Seq<char>, k: nat)
    requires
        k <= a.len(),
    ensures
        used_after(a, a, k) == Seq::new(a.len(), |j: int| j < k),
        k > 0 ==> partner(a, a, k - 1) == Some(k - 1),
    decreases k,
{
    if k == 0 {
        assert(used_after(a, a, 0) =~= Seq::new(a.len(), |j: int| j < 0));
    } else {
        lemma_used_after_self(a, (k - 1) as nat);
        let before = used_after(a, a, (k - 1) as nat);
        let r = radius(a.len(), a.len());
        let from = window_start(k - 1, r);
        let to = window_end(k - 1, r, a.len());
        lemma_first_free(a, before, a[k - 1], from, to);
        assert(from <= k - 1 < to);
        assert(!before[k - 1]);
        let found = first_free(a, before, a[k - 1], from, to);
        assert(found == Some(k - 1));
        assert(before.update(k - 1, true) =~= Seq::new(a.len(), |j: int| j < k));
    }
}

/// A string that is not empty matches itself in full, without a
/// transposition: its similarity to itself is one, and its distance from
/// itself is zero.
pub proof fn lemma_similarity_self(c: JaroWinkler, a: Seq<char>)
    requires
        a.len() > 0,
        describes(c, a, a),
    ensures
        c.matches == a.len(),
        c.transpositions == 0,
        c.similarity_num() == c.similarity_den(),
{
    let flags = matched_flags(a, a);
    assert forall|i: int| 0 <= i < flags.len() implies flags[i] by {
        lemma_used_after_self(a, (i + 1) as nat);
    }
    lemma_flagged_all(a, flags);
    lemma_used_after_self(a, a.len());
    lemma_flagged_all(a, used_after(a, a, a.len()));
    lemma_mismatches_self(a, a.len());
    let m = c.matches as int;
    let l = c.prefix as int;
    assert(c.jaro_num() == c.jaro_den()) by (nonlinear_arith)
        requires
            c.jaro_num() == m * m * m + m * m * m + (m - 0) * (m * m),
            c.jaro_den() == m * m * m * 3,
    ;
    assert(l * (c.jaro_den() - c.jaro_num()) == 0) by (nonlinear_arith)
        requires
            c.jaro_den() - c.jaro_num() == 0,
    ;
}

/// Whether one of the first `k` positions of `x` is matched with position
/// `j` of `y`.
pub open spec fn taken_before(x: Seq<char>, y: Seq<char>, k: int, j: int) -> bool {
    exists|i: int| 0 <= i < k && #[trigger] partner(x, y, i) == Some(j)
}

/// What the match of position `i` is, and what it has passed over: every
/// earlier position of its window that holds the same code point was taken.
pub proof fn lemma_partner(x: Seq<char>, y: Seq<char>, i: int)
    requires
        0 <= i < x.len(),
    ensures
        ({
            let r = radius(x.len(), y.len());
            let used = used_after(x, y, i as nat);
            match partner(x, y, i) {
                Some(j) => {
                    &&& 0 <= j < y.len()
                    &&& i - r <= j <= i + r
                    &&& y[j] == x[i]
                    &&& !used[j]
                    &&& forall|e: int|
                        0 <= e < j && i - r <= e && y[e] == x[i] ==> #[trigger] used[e]
                },
                None => forall|e: int|
                    0 <= e < y.len() && i - r <= e <= i + r && y[e] == x[i] ==> #[trigger] used[e],
            }
        }),
{
    let r = radius(x.len(), y.len());
    lemma_used_after_len(x, y, i as nat);
    lemma_first_free(
        y,
        used_after(x, y, i as nat),
        x[i],
        window_start(i, r),
        window_end(i, r, y.len()),
    );
}

/// A position of `y` is taken exactly when an earlier position of `x` is
/// matched with it.
pub proof fn lemma_used_after_means(x: Seq<char>, y: Seq<char>, k: nat)
    requires
        k <= x.len(),
    ensures
        used_after(x, y, k).len() == y.len(),
        forall|j: int|
            0 <= j < y.len() ==> (#[trigger] used_after(x, y, k)[j] <==> taken_before(
                x,
                y,
                k as int,
                j,
            )),
    decreases k,
{
    lemma_used_after_len(x, y, k);
    if k > 0 {
        let before = used_after(x, y, (k - 1) as nat);
        lemma_used_after_means(x, y, (k - 1) as nat);
        lemma_partner(x, y, k - 1);
        let last = partner(x, y, k - 1);
        assert forall|j: int| 0 <= j < y.len() implies (#[trigger] used_after(x, y, k)[j]
            <==> taken_before(x, y, k as int, j)) by {
            assert(used_after(x, y, k)[j] <==> before[j] || last == Some(j));
            if taken_before(x, y, k - 1, j) {
                let i = choose|i: int| 0 <= i < k - 1 && #[trigger] partner(x, y, i) == Some(j);
                assert(0 <= i < k && partner(x, y, i) == Some(j));
            }
            if last == Some(j) {
                assert(0 <= k - 1 < k && partner(x, y, k - 1) == Some(j));
            }
            if taken_before(x, y, k as int, j) {
                let i = choose|i: int| 0 <= i < k && #[trigger] partner(x, y, i) == Some(j);
                if i < k - 1 {
                    assert(taken_before(x, y, k - 1, j));
                }
            }
        }
    } else {
        assert forall|j: int| 0 <= j < y.len() implies (#[trigger] used_after(x, y, k)[j]
            <==> taken_before(x, y, k as int, j)) by {}
    }
}

/// No two positions are matched with the same position.
pub proof fn lemma_partner_injective(x: Seq<char>, y: Seq<char>, i1: int, i2: int, j: int)
    requires
        0 <= i1 < x.len(),
        0 <= i2 < x.len(),
        partner(x, y, i1) == Some(j),
        partner(x, y, i2) == Some(j),
    ensures
        i1 == i2,
{
    if i1 < i2 {
        lemma_partner(x, y, i2);
        lemma_used_after_means(x, y, i2 as nat);
        assert(taken_before(x, y, i2, j));
    } else if i2 < i1 {
        lemma_partner(x, y, i1);
        lemma_used_after_means(x, y, i1 as nat);
        assert(taken_before(x, y, i1, j));
    }
}

/// A position that could have been matched with `j`, and was not, was
/// matched with an earlier position than `j`, unless `j` was taken before.
proof fn lemma_candidate(x: Seq<char>, y: Seq<char>, i: int, j: int)
    requires
        0 <= i < x.len(),
        0 <= j < y.len(),
        i - radius(x.len(), y.len()) <= j <= i + radius(x.len(), y.len()),
        x[i] == y[j],
        partner(x, y, i) != Some(j),
    ensures
        taken_before(x, y, i, j) || (partner(x, y, i) is Some && partner(x, y, i)->0 < j),
{
    lemma_partner(x, y, i);
    lemma_used_after_means(x, y, i as nat);
    let used = used_after(x, y, i as nat);
    match partner(x, y, i) {
        Some(p) => {
            if p > j {
                assert(used[j]);
            }
        },
        None => {
            assert(used[j]);
        },
    }
}

/// Matching `b` with `a` pairs the same positions as matching `a` with `b`.
pub proof fn lemma_partner_mirrored(a: Seq<char>, b: Seq<char>, j: int)
    requires
        0 <= j < b.len(),
    ensures
        forall|i: int|
            0 <= i < a.len() ==> (partner(b, a, j) == Some(i) <==> #[trigger] partner(a, b, i)
                == Some(j)),
        partner(b, a, j) is Some ==> 0 <= partner(b, a, j)->0 < a.len(),
    decreases j,
{
    let r = radius(a.len(), b.len());
    assert(r == radius(b.len(), a.len()));
    let used = used_after(b, a, j as nat);
    lemma_used_after_means(b, a, j as nat);
    lemma_partner(b, a, j);
    // A position of `a` is taken at this point exactly when its match in `b`
    // lies before `j`.
    assert forall|i: int| 0 <= i < a.len() implies (used[i] <==> (partner(a, b, i) is Some
        && partner(a, b, i)->0 < j)) by {
        if used[i] {
            assert(taken_before(b, a, j, i));
            let j2 = choose|j2: int| 0 <= j2 < j && #[trigger] partner(b, a, j2) == Some(i);
            lemma_partner_mirrored(a, b, j2);
        }
        if partner(a, b, i) is Some && partner(a, b, i)->0 < j {
            let j2 = partner(a, b, i)->0;
            lemma_partner(a, b, i);
            lemma_partner_mirrored(a, b, j2);
            assert(partner(b, a, j2) == Some(i));
            assert(taken_before(b, a, j, i));
        }
    }
    let found = partner(b, a, j);
    assert forall|i: int| 0 <= i < a.len() && #[trigger] partner(a, b, i) == Some(j) implies found
        == Some(i) by {
        lemma_partner(a, b, i);
        assert(!used[i]);
        match found {
            Some(other) => {
                if other < i {
                    if partner(a, b, other) == Some(j) {
                        lemma_partner_injective(a, b, other, i, j);
                    } else {
                        lemma_candidate(a, b, other, j);
                        if taken_before(a, b, other, j) {
                            let i0 = choose|i0: int|
                                0 <= i0 < other && #[trigger] partner(a, b, i0) == Some(j);
                            lemma_partner_injective(a, b, i0, i, j);
                        }
                    }
                } else if other > i {
                    assert(used[i]);
                }
            },
            None => {
                assert(used[i]);
            },
        }
    }
    assert forall|i: int| 0 <= i < a.len() && found == Some(i) implies #[trigger] partner(a, b, i)
        == Some(j) by {
        if partner(a, b, i) != Some(j) {
            lemma_candidate(a, b, i, j);
            if taken_before(a, b, i, j) {
                let i0 = choose|i0: int| 0 <= i0 < i && #[trigger] partner(a, b, i0) == Some(j);
                assert(found == Some(i0));
            }
        }
    }
}

/// The positions of `a` that find a match in `b` are the positions that
/// matching `b` with `a` takes, and the other way round.
pub proof fn lemma_matching_symmetric(a: Seq<char>, b: Seq<char>)
    ensures
        matched_flags(b, a) == used_after(a, b, a.len()),
        matched_flags(a, b) == used_after(b, a, b.len()),
{
    lemma_matched_are_taken(a, b);
    lemma_matched_are_taken(b, a);
}

/// The positions of `b` that find a match in `a` are the positions that
/// matching `a` with `b` takes.
proof fn lemma_matched_are_taken(a: Seq<char>, b: Seq<char>)
    ensures
        matched_flags(b, a) == used_after(a, b, a.len()),
{
    lemma_used_after_means(a, b, a.len());
    let taken = used_after(a, b, a.len());
    assert forall|j: int| 0 <= j < b.len() implies matched_flags(b, a)[j] == taken[j] by {
        lemma_partner_mirrored(a, b, j);
        if taken[j] {
            assert(taken_before(a, b, a.len() as int, j));
            let i = choose|i: int| 0 <= i < a.len() && #[trigger] partner(a, b, i) == Some(j);
            assert(partner(b, a, j) == Some(i));
        }
        if partner(b, a, j) is Some {
            let i = partner(b, a, j)->0;
            assert(partner(a, b, i) == Some(j));
            assert(taken_before(a, b, a.len() as int, j));
        }
    }
    assert(matched_flags(b, a) =~= taken);
}

/// The shared prefix of `a` and `b` is that of `b` and `a`.
pub proof fn lemma_common_prefix_symmetric(a: Seq<char>, b: Seq<char>, limit: nat)
    ensures
        common_prefix(a, b, limit) == common_prefix(b, a, limit),
    decreases limit,
{
    if limit > 0 {
        lemma_common_prefix_symmetric(a, b, (limit - 1) as nat);
    }
}

/// The counts of `b` and `a` are those of `a` and `b` with the two lengths
/// exchanged, and the similarity is the same.
pub proof fn lemma_counts_symmetric(c: JaroWinkler, d: JaroWinkler, a: Seq<char>, b: Seq<char>)
    requires
        describes(c, a, b),
        describes(d, b, a),
    ensures
        d.len1 == c.len2,
        d.len2 == c.len1,
        d.matches == c.matches,
        d.transpositions == c.transpositions,
        d.prefix == c.prefix,
        d.similarity_num() == c.similarity_num(),
        d.similarity_den() == c.similarity_den(),
{
    lemma_matching_symmetric(a, b);
    lemma_match_counts_agree(a, b, a.len());
    assert(a.take(a.len() as int) =~= a);
    assert(matched_flags(a, b).take(a.len() as int) =~= matched_flags(a, b));
    let first = flagged(a, matched_flags(a, b));
    let second = flagged(b, used_after(a, b, a.len()));
    assert(matches(b, a) == matches(a, b));
    lemma_mismatches_symmetric(first, second, matches(a, b));
    assert(out_of_order(b, a) == out_of_order(a, b));
    lemma_common_prefix_symmetric(a, b, 4);
    let m = c.matches as int;
    let t = c.transpositions as int;
    let l1 = c.len1 as int;
    let l2 = c.len2 as int;
    assert(l2 * l1 == l1 * l2) by (nonlinear_arith);
    assert(d.jaro_den() == c.jaro_den());
    assert(d.jaro_num() == c.jaro_num());
}

/// Where something is marked, something is selected.
proof fn lemma_flagged_some(s: Seq<char>, flags: Seq<bool>, i: int)
    requires
        flags.len() == s.len(),
        0 <= i < s.len(),
        flags[i],
    ensures
        flagged(s, flags).len() >= 1,
    decreases s.len(),
{
    if i < s.len() - 1 {
        lemma_flagged_some(s.drop_last(), flags.drop_last(), i);
    }
}

/// Strings that share a prefix have a match: where there is no match, the
/// similarity is zero with and without the rise for the shared prefix.
pub proof fn lemma_shared_prefix_is_matched(a: Seq<char>, b: Seq<char>)
    requires
        common_prefix(a, b, 4) > 0,
    ensures
        matches(a, b) > 0,
{
    assert(common_prefix(a, b, 0) == 0);
    assert(common_prefix(a, b, 1) == 1) by {
        if common_prefix(a, b, 1) != 1 {
            assert(common_prefix(a, b, 2) == 0);
            assert(common_prefix(a, b, 3) == 0);
            assert(common_prefix(a, b, 4) == 0);
        }
    }
    assert(a.len() >= 1 && b.len() >= 1 && a[0] == b[0]);
    lemma_partner(a, b, 0);
    assert(!used_after(a, b, 0)[0]);
    assert(partner(a, b, 0) is Some);
    lemma_flagged_some(a, matched_flags(a, b), 0);
}

} // verus!
