//! N-gram distance: how far apart two strings are, judged by the windows of
//! `n` adjacent code points that they hold.
//!
//! Each string gives a multiset of windows. The distance is the share of the
//! windows, of both strings together, that have no counterpart in the other
//! string. Two strings without any window are at distance zero.

use crate::error::MetricError;
use crate::ratio::Ratio;
use crate::sequence::code_points;
use vstd::multiset::Multiset;
use vstd::prelude::*;

verus! {

/// The windows of `n` adjacent code points of `s`, from left to right. A
/// string shorter than `n` has none.
pub open spec fn windows(s: Seq<char>, n: nat) -> Seq<Seq<char>> {
    if n == 0 || s.len() < n {
        Seq::empty()
    } else {
        Seq::new((s.len() - n + 1) as nat, |i: int| s.subrange(i, i + n))
    }
}

/// The number of windows that `a` and `b` share, counted with multiplicity:
/// the size of the intersection of their multisets of windows.
pub open spec fn shared_windows(a: Seq<char>, b: Seq<char>, n: nat) -> nat {
    windows(a, n).to_multiset().intersection_with(windows(b, n).to_multiset()).len()
}

/// The windows of `ws` that `used` marks, as a multiset.
pub open spec fn picked(ws: Seq<Seq<char>>, used: Seq<bool>) -> Multiset<Seq<char>>
    decreases ws.len(),
{
    if ws.len() == 0 {
        Multiset::empty()
    } else if used.last() {
        picked(ws.drop_last(), used.drop_last()).insert(ws.last())
    } else {
        picked(ws.drop_last(), used.drop_last())
    }
}

/// Marking one more window picks it.
proof fn lemma_picked_update(ws: Seq<Seq<char>>, used: Seq<bool>, j: int)
    requires
        used.len() == ws.len(),
        0 <= j < ws.len(),
        !used[j],
    ensures
        picked(ws, used.update(j, true)) =~= picked(ws, used).insert(ws[j]),
    decreases ws.len(),
{
    broadcast use vstd::multiset::group_multiset_axioms;

    let marked = used.update(j, true);
    if j == ws.len() - 1 {
        assert(marked.drop_last() =~= used.drop_last());
    } else {
        assert(marked.drop_last() =~= used.drop_last().update(j, true));
        lemma_picked_update(ws.drop_last(), used.drop_last(), j);
    }
}

/// A window is picked at most as often as it occurs; as often as it occurs
/// exactly where each of its occurrences is marked.
proof fn lemma_picked_count(ws: Seq<Seq<char>>, used: Seq<bool>, w: Seq<char>)
    requires
        used.len() == ws.len(),
    ensures
        picked(ws, used).count(w) <= ws.to_multiset().count(w),
        picked(ws, used).count(w) == ws.to_multiset().count(w) <==> (forall|j: int|
            0 <= j < ws.len() && ws[j] == w ==> used[j]),
    decreases ws.len(),
{
    broadcast use vstd::multiset::group_multiset_axioms;

    if ws.len() == 0 {
        assert(ws.to_multiset() =~= Multiset::<Seq<char>>::empty()) by {
            ws.to_multiset_ensures();
            assert(ws.to_multiset().len() == 0);
        }
    } else {
        let front = ws.drop_last();
        let flags = used.drop_last();
        lemma_picked_count(front, flags, w);
        assert(ws =~= front.push(ws.last()));
        vstd::seq_lib::to_multiset_build(front, ws.last());
        if forall|j: int| 0 <= j < front.len() && front[j] == w ==> flags[j] {
            assert forall|j: int| 0 <= j < ws.len() - 1 && ws[j] == w implies used[j] by {
                assert(front[j] == w);
                assert(flags[j]);
            }
        } else {
            let j = choose|j: int| 0 <= j < front.len() && front[j] == w && !flags[j];
            assert(ws[j] == w && !used[j]);
        }
    }
}

/// The counts that the distance of two strings follows from.
#[derive(Clone, Copy, Debug, PartialEq, Eq)]
pub struct Ngram {
    /// The number of windows of the first string.
    pub windows1: usize,
    /// The number of windows of the second string.
    pub windows2: usize,
    /// The number of windows that the strings share.
    pub shared: usize,
}

/// Whether `c` holds the counts of `a` and `b` for windows of `n` code
/// points.
pub open spec fn describes(c: Ngram, a: Seq<char>, b: Seq<char>, n: nat) -> bool {
    &&& c.windows1 == windows(a, n).len()
    &&& c.windows2 == windows(b, n).len()
    &&& c.shared == shared_windows(a, b, n)
}

impl Ngram {
    /// What holds of the counts of any two strings.
    pub open spec fn wf(&self) -> bool {
        self.shared <= self.windows1 && self.shared <= self.windows2
    }

    /// The denominator of the distance.
    pub open spec fn distance_den(&self) -> int {
        if self.windows1 + self.windows2 == 0 {
            1
        } else {
            self.windows1 + self.windows2
        }
    }

    /// The numerator of the distance: the number of windows, of both
    /// strings, without a counterpart in the other string.
    pub open spec fn distance_num(&self) -> int {
        self.windows1 + self.windows2 - 2 * self.shared
    }

    /// The distance as a fraction.
    pub fn distance(&self) -> (r: Ratio)
        requires
            self.wf(),
        ensures
            r.num == self.distance_num(),
            r.den == self.distance_den(),
            r.is_unit(),
    {
        let total = self.windows1 as u128 + self.windows2 as u128;
        if total == 0 {
            Ratio { num: 0, den: 1 }
        } else {
            Ratio { num: total - 2 * (self.shared as u128), den: total }
        }
    }
}

/// The windows of `a` and `b` are shared by `b` and `a`.
pub proof fn lemma_shared_windows_symmetric(a: Seq<char>, b: Seq<char>, n: nat)
    ensures
        shared_windows(a, b, n) == shared_windows(b, a, n),
{
    broadcast use vstd::multiset::group_multiset_axioms;

    let wa = windows(a, n).to_multiset();
    let wb = windows(b, n).to_multiset();
    assert forall|w: Seq<char>| wa.intersection_with(wb).count(w) == wb.intersection_with(
        wa,
    ).count(w) by {
        vstd::multiset::lemma_intersection_count(wa, wb, w);
        vstd::multiset::lemma_intersection_count(wb, wa, w);
    }
    assert(wa.intersection_with(wb) =~= wb.intersection_with(wa));
}

/// A string shares each of its windows with itself.
pub proof fn lemma_shared_windows_self(a: Seq<char>, n: nat)
    ensures
        shared_windows(a, a, n) == windows(a, n).len(),
{
    broadcast use vstd::multiset::group_multiset_axioms;

    let wa = windows(a, n).to_multiset();
    assert forall|w: Seq<char>| wa.intersection_with(wa).count(w) == wa.count(w) by {
        vstd::multiset::lemma_intersection_count(wa, wa, w);
    }
    assert(wa.intersection_with(wa) =~= wa);
    windows(a, n).to_multiset_ensures();
}

/// No more windows are shared than either string has.
pub proof fn lemma_shared_windows_bounded(a: Seq<char>, b: Seq<char>, n: nat)
    ensures
        shared_windows(a, b, n) <= windows(a, n).len(),
        shared_windows(a, b, n) <= windows(b, n).len(),
{
    lemma_intersection_bounded(windows(a, n).to_multiset(), windows(b, n).to_multiset());
    lemma_shared_windows_symmetric(a, b, n);
    lemma_intersection_bounded(windows(b, n).to_multiset(), windows(a, n).to_multiset());
    windows(a, n).to_multiset_ensures();
    windows(b, n).to_multiset_ensures();
}

/// A window longer than the string finds nothing in it.
pub proof fn lemma_windows_of_short_string(s: Seq<char>, n: nat)
    requires
        n > s.len(),
    ensures
        windows(s, n).len() == 0,
{
}

/// The distance from a string to itself is zero, whatever the window.
pub proof fn lemma_distance_self(c: Ngram, a: Seq<char>, n: nat)
    requires
        describes(c, a, a, n),
    ensures
        c.distance_num() == 0,
{
    lemma_shared_windows_self(a, n);
}

/// The distance from `a` to `b` is the distance from `b` to `a`.
pub proof fn lemma_distance_symmetric(c: Ngram, d: Ngram, a: Seq<char>, b: Seq<char>, n: nat)
    requires
        describes(c, a, b, n),
        describes(d, b, a, n),
    ensures
        c.distance_num() == d.distance_num(),
        c.distance_den() == d.distance_den(),
{
    lemma_shared_windows_symmetric(a, b, n);
}

/// Where the window is longer than both strings there are no windows, and
/// the distance is zero. Where it is longer than one of them only, nothing
/// is shared, and the distance is one.
pub proof fn lemma_distance_without_windows(c: Ngram, a: Seq<char>, b: Seq<char>, n: nat)
    requires
        describes(c, a, b, n),
        n > a.len() || n > b.len(),
    ensures
        c.shared == 0,
        n > a.len() && n > b.len() ==> c.distance_num() == 0 && c.distance_den() == 1,
        n >= 1 && (n <= a.len() || n <= b.len()) ==> c.distance_num() == c.distance_den(),
{
    lemma_shared_windows_bounded(a, b, n);
}

/// The distance lies between zero and one.
pub proof fn lemma_distance_bounds(c: Ngram)
    requires
        c.wf(),
    ensures
        c.distance_den() > 0,
        0 <= c.distance_num() <= c.distance_den(),
{
}

/// An intersection is no larger than its first operand.
proof fn lemma_intersection_bounded(x: Multiset<Seq<char>>, y: Multiset<Seq<char>>)
    ensures
        x.intersection_with(y).len() <= x.len(),
{
    broadcast use vstd::multiset::group_multiset_axioms;

    let both = x.intersection_with(y);
    assert forall|w: Seq<char>| both.count(w) <= x.count(w) by {
        vstd::multiset::lemma_intersection_count(x, y, w);
    }
    assert(both.subset_of(x));
    assert(x =~= x.sub(both).add(both));
}

/// Whether the window of `n` code points of `a` at `i` is the window of `b`
/// at `j`.
fn same_window(a: &Vec<char>, i: usize, b: &Vec<char>, j: usize, n: usize) -> (same: bool)
    requires
        i + n <= a@.len(),
        j + n <= b@.len(),
    ensures
        same == (a@.subrange(i as int, i + n) == b@.subrange(j as int, j + n)),
{
    let ghost wa = a@.subrange(i as int, i + n);
    let ghost wb = b@.subrange(j as int, j + n);
    let len1 = a.len();
    let len2 = b.len();
    let mut k: usize = 0;
    while k < n
        invariant
            len1 == a@.len(),
            len2 == b@.len(),
            i + n <= len1,
            j + n <= len2,
            k <= n,
            wa == a@.subrange(i as int, i + n),
            wb == b@.subrange(j as int, j + n),
            forall|x: int| 0 <= x < k ==> wa[x] == wb[x],
        decreases n - k,
    {
        if a[i + k] != b[j + k] {
            assert(wa[k as int] != wb[k as int]);
            return false;
        }
        k += 1;
    }
    assert(wa =~= wb);
    true
}

/// The number of windows of `n` code points in a string of `len` code
/// points.
fn window_count(len: usize, n: usize) -> (count: usize)
    requires
        n >= 1,
    ensures
        count == (if len < n {
            0
        } else {
            len - n + 1
        }),
{
    if len < n {
        0
    } else {
        len - n + 1
    }
}

/// The counts of `a` and `b` for windows of `n` code points.
fn count_windows(a: &Vec<char>, b: &Vec<char>, n: usize) -> (c: Ngram)
    requires
        n >= 1,
    ensures
        describes(c, a@, b@, n as nat),
        c.wf(),
{
    broadcast use vstd::multiset::group_multiset_axioms;

    let count1 = window_count(a.len(), n);
    let count2 = window_count(b.len(), n);
    let ghost wa = windows(a@, n as nat);
    let ghost wb = windows(b@, n as nat);
    let mut used: Vec<bool> = Vec::new();
    let mut j: usize = 0;
    while j < count2
        invariant
            j <= count2,
            used@.len() == j,
            forall|k: int| 0 <= k < j ==> !used@[k],
        decreases count2 - j,
    {
        used.push(false);
        j += 1;
    }
    proof {
        lemma_picked_none(wb, used@);
        assert(wa.take(0) =~= Seq::<Seq<char>>::empty());
        wa.take(0).to_multiset_ensures();
        assert(wa.take(0).to_multiset() =~= Multiset::<Seq<char>>::empty());
        lemma_intersection_bounded(wa.take(0).to_multiset(), wb.to_multiset());
        assert(wa.take(0).to_multiset().intersection_with(wb.to_multiset()) =~= Multiset::<
            Seq<char>,
        >::empty());
    }
    let mut shared: usize = 0;
    let mut i: usize = 0;
    while i < count1
        invariant
            n >= 1,
            wa == windows(a@, n as nat),
            wb == windows(b@, n as nat),
            count1 == wa.len(),
            count2 == wb.len(),
            used@.len() == count2,
            i <= count1,
            shared <= i,
            picked(wb, used@) == wa.take(i as int).to_multiset().intersection_with(
                wb.to_multiset(),
            ),
            shared == picked(wb, used@).len(),
        decreases count1 - i,
    {
        let ghost w = wa[i as int];
        let ghost seen = wa.take(i as int).to_multiset();
        let ghost pool = wb.to_multiset();
        let mut taken: Option<usize> = None;
        let mut j: usize = 0;
        while j < count2
            invariant_except_break
                taken is None,
                forall|k: int| 0 <= k < j && wb[k] == w ==> used@[k],
            invariant
                n >= 1,
                wa == windows(a@, n as nat),
                wb == windows(b@, n as nat),
                count1 == wa.len(),
                count2 == wb.len(),
                used@.len() == count2,
                i < count1,
                w == wa[i as int],
                j <= count2,
            ensures
                match taken {
                    Some(p) => p < count2 && !used@[p as int] && wb[p as int] == w,
                    None => forall|k: int| 0 <= k < count2 && wb[k] == w ==> used@[k],
                },
            decreases count2 - j,
        {
            if !used[j] && same_window(a, i, b, j, n) {
                taken = Some(j);
                break ;
            }
            j += 1;
        }
        proof {
            assert(wa.take(i + 1) =~= wa.take(i as int).push(w));
            vstd::seq_lib::to_multiset_build(wa.take(i as int), w);
            lemma_picked_count(wb, used@, w);
            vstd::multiset::lemma_intersection_count(seen, pool, w);
            assert forall|v: Seq<char>|
                #[trigger] seen.insert(w).intersection_with(pool).count(v) == (if v == w
                    && taken is Some {
                    seen.intersection_with(pool).count(v) + 1
                } else {
                    seen.intersection_with(pool).count(v) + 0
                }) by {
                vstd::multiset::lemma_intersection_count(seen, pool, v);
                vstd::multiset::lemma_intersection_count(seen.insert(w), pool, v);
            }
        }
        match taken {
            Some(p) => {
                proof {
                    lemma_picked_update(wb, used@, p as int);
                    vstd::multiset::lemma_insert_len(picked(wb, used@), w);
                    assert(seen.insert(w).intersection_with(pool) =~= seen.intersection_with(
                        pool,
                    ).insert(w));
                }
                used[p] = true;
                shared += 1;
            },
            None => {
                proof {
                    assert(seen.insert(w).intersection_with(pool) =~= seen.intersection_with(
                        pool,
                    ));
                }
            },
        }
        i += 1;
    }
    proof {
        assert(wa.take(count1 as int) =~= wa);
        lemma_shared_windows_bounded(a@, b@, n as nat);
    }
    Ngram { windows1: count1, windows2: count2, shared }
}

/// Where nothing is marked, nothing is picked.
proof fn lemma_picked_none(ws: Seq<Seq<char>>, used: Seq<bool>)
    requires
        used.len() == ws.len(),
        forall|k: int| 0 <= k < used.len() ==> !used[k],
    ensures
        picked(ws, used) == Multiset::<Seq<char>>::empty(),
    decreases ws.len(),
{
    if ws.len() > 0 {
        lemma_picked_none(ws.drop_last(), used.drop_last());
    }
}

/// The counts of `str1` and `str2` for windows of `n` code points. A window
/// size below one is refused.
pub fn compute(str1: &str, str2: &str, n: i32) -> (r: Result<Ngram, MetricError>)
    ensures
        match r {
            Ok(c) => n >= 1 && describes(c, str1@, str2@, n as nat) && c.wf(),
            Err(e) => n < 1 && e == MetricError::InvalidParameter,
        },
{
    if n < 1 {
        return Err(MetricError::InvalidParameter);
    }
    let a = code_points(str1);
    let b = code_points(str2);
    Ok(count_windows(&a, &b, n as usize))
}

} // verus!
