//! Jensen-Shannon vector distance: the integer side.
//!
//! A string is scanned into weighted *events* (single code points and adjacent
//! pairs of code points). The events of two strings are tabulated in ascending
//! order and merge-joined; the distance is a function of the weights of the
//! events that both strings share.

use crate::error::MetricError;
use crate::ratio::Ratio;
use crate::sequence::{code_point_value, code_points};
use std::collections::BTreeMap;
use vstd::prelude::*;
use vstd::std_specs::cmp::OrdSpec;
use vstd::std_specs::iter::IteratorSpec;

verus! {

/// Configuration of the scan: the upper bound of the alphabet.
#[derive(Clone, Copy, Debug, PartialEq, Eq)]
pub struct JS {
    /// The bound. A code point above it is refused, and a pair of code points
    /// is numbered as two digits to this base.
    pub char_val_upb: i32,
}

/// The configuration whose bound is one more than `max_char_val`.
pub fn build_js(max_char_val: i32) -> (js: JS)
    requires
        max_char_val < i32::MAX,
    ensures
        js.char_val_upb == max_char_val + 1,
{
    JS { char_val_upb: max_char_val + 1 }
}

/// The sum of the weights of all `records`.
pub open spec fn total_weight(records: Seq<(i64, u128)>) -> nat
    decreases records.len(),
{
    if records.len() == 0 {
        0
    } else {
        (total_weight(records.drop_last()) + records.last().1) as nat
    }
}

/// The sum of the weights of the `records` that carry `event`.
pub open spec fn weight_of(records: Seq<(i64, u128)>, event: i64) -> nat
    decreases records.len(),
{
    if records.len() == 0 {
        0
    } else if records.last().0 == event {
        (weight_of(records.drop_last(), event) + records.last().1) as nat
    } else {
        weight_of(records.drop_last(), event)
    }
}

/// Whether one of the `records` carries `event`.
pub open spec fn observed(records: Seq<(i64, u128)>, event: i64) -> bool {
    exists|i: int| 0 <= i < records.len() && (#[trigger] records[i]).0 == event
}

/// Whether `events` ascends strictly.
pub open spec fn ascending(events: Seq<i64>) -> bool {
    forall|i: int, j: int| 0 <= i < j < events.len() ==> events[i] < events[j]
}

/// Whether the map holds, for exactly the observed events, the weight that
/// the records give them.
pub open spec fn aggregates(cards: Map<i64, u128>, records: Seq<(i64, u128)>) -> bool {
    &&& forall|e: i64| #[trigger] cards.contains_key(e) <==> observed(records, e)
    &&& forall|e: i64| #[trigger] cards.contains_key(e) ==> cards[e] == weight_of(records, e)
}

/// Whether the two parallel lists hold exactly the observed events, in
/// ascending order, each beside the weight that the records give it.
pub open spec fn tabulates(
    events: Seq<i64>,
    weights: Seq<u128>,
    records: Seq<(i64, u128)>,
) -> bool {
    &&& events.len() == weights.len()
    &&& ascending(events)
    &&& forall|e: i64| #[trigger] events.contains(e) <==> observed(records, e)
    &&& forall|i: int|
        0 <= i < events.len() ==> (#[trigger] weights[i]) == weight_of(records, events[i])
}

/// The sum of `weights`.
pub open spec fn sum_of(weights: Seq<u128>) -> nat
    decreases weights.len(),
{
    if weights.len() == 0 {
        0
    } else {
        (sum_of(weights.drop_last()) + weights.last()) as nat
    }
}

/// No event weighs more than all the records together.
pub proof fn lemma_weight_of_bounded(records: Seq<(i64, u128)>, event: i64)
    ensures
        weight_of(records, event) <= total_weight(records),
    decreases records.len(),
{
    if records.len() > 0 {
        lemma_weight_of_bounded(records.drop_last(), event);
    }
}

/// One more record adds its weight to its own event and to no other.
pub proof fn lemma_weight_of_push(records: Seq<(i64, u128)>, record: (i64, u128), event: i64)
    ensures
        total_weight(records.push(record)) == total_weight(records) + record.1,
        weight_of(records.push(record), event) == weight_of(records, event) + (if record.0
            == event {
            record.1 as int
        } else {
            0
        }),
        observed(records.push(record), event) <==> observed(records, event) || record.0 == event,
{
    let longer = records.push(record);
    assert(longer.drop_last() =~= records);
    assert(longer.last() == record);
    if observed(records, event) {
        let i = choose|i: int| 0 <= i < records.len() && (#[trigger] records[i]).0 == event;
        assert(longer[i].0 == event);
    }
    if record.0 == event {
        assert(longer[records.len() as int].0 == event);
    }
    if observed(longer, event) {
        let i = choose|i: int| 0 <= i < longer.len() && (#[trigger] longer[i]).0 == event;
        if i < records.len() {
            assert(records[i].0 == event);
        }
    }
}

/// A sparse array of event weights.
///
/// While it is being built it accumulates, for each event recorded, the sum
/// of the weights recorded for it. Finalising it lays the events out in
/// ascending order with their weights beside them; the probability of an
/// event is its weight over `total`.
pub struct SparseProbabilityArray {
    card_map: BTreeMap<i64, u128>,
    acc: u128,
    final_weights: Vec<u128>,
    final_events: Vec<i64>,
    records: Ghost<Seq<(i64, u128)>>,
}

impl SparseProbabilityArray {
    /// Everything recorded so far, in the order of recording.
    pub closed spec fn records(&self) -> Seq<(i64, u128)> {
        self.records@
    }

    /// The sum of all the weights recorded.
    pub closed spec fn total(&self) -> nat {
        self.acc as nat
    }

    /// The events laid out by finalising.
    pub closed spec fn events(&self) -> Seq<i64> {
        self.final_events@
    }

    /// The weights laid out by finalising, parallel to `events`.
    pub closed spec fn weights(&self) -> Seq<u128> {
        self.final_weights@
    }

    /// The array is still accumulating: nothing has been laid out yet.
    pub closed spec fn is_building(&self) -> bool {
        &&& self.acc == total_weight(self.records@)
        &&& aggregates(self.card_map@, self.records@)
        &&& self.final_events@.len() == 0
        &&& self.final_weights@.len() == 0
    }

    /// The array has been laid out: `events` and `weights` tabulate the records.
    pub closed spec fn is_final(&self) -> bool {
        &&& self.acc == total_weight(self.records@)
        &&& self.card_map@ == Map::<i64, u128>::empty()
        &&& tabulates(self.final_events@, self.final_weights@, self.records@)
    }

    /// The events of a finalised array, ascending.
    pub fn final_events(&self) -> (events: &Vec<i64>)
        ensures
            events@ == self.events(),
    {
        &self.final_events
    }

    /// The weights of a finalised array, parallel to its events.
    pub fn final_weights(&self) -> (weights: &Vec<u128>)
        ensures
            weights@ == self.weights(),
    {
        &self.final_weights
    }

    /// The probabilities of a finalised array, parallel to its events: the
    /// weight of each event over the sum of all the weights.
    pub fn final_probs(&self) -> (probs: Vec<Ratio>)
        requires
            self.is_final(),
        ensures
            probs@.len() == self.weights().len(),
            forall|i: int|
                0 <= i < probs@.len() ==> (#[trigger] probs@[i]).num == self.weights()[i]
                    && probs@[i].den == self.total(),
            self.total() > 0 ==> forall|i: int|
                0 <= i < probs@.len() ==> (#[trigger] probs@[i]).is_unit(),
    {
        let n = self.final_weights.len();
        let mut probs: Vec<Ratio> = Vec::new();
        let mut i: usize = 0;
        while i < n
            invariant
                self.is_final(),
                n == self.final_weights@.len(),
                i <= n,
                probs@.len() == i,
                forall|k: int|
                    0 <= k < i ==> (#[trigger] probs@[k]).num == self.final_weights@[k]
                        && probs@[k].den == self.acc,
                self.acc > 0 ==> forall|k: int| 0 <= k < i ==> (#[trigger] probs@[k]).is_unit(),
            decreases n - i,
        {
            proof {
                lemma_weight_of_bounded(self.records@, self.final_events@[i as int]);
            }
            probs.push(Ratio { num: self.final_weights[i], den: self.acc });
            i += 1;
        }
        probs
    }

    /// The sum of all the weights recorded.
    pub fn acc(&self) -> (total: u128)
        ensures
            total == self.total(),
    {
        self.acc
    }

    /// The weights of a finalised array add up to its total: its
    /// probabilities add up to one.
    pub proof fn lemma_weights_sum_to_total(&self)
        requires
            self.is_final(),
        ensures
            sum_of(self.weights()) == self.total(),
    {
        lemma_tabulated_sum(self.events(), self.weights(), self.records());
    }

    /// What `is_building` says, over the public names.
    pub proof fn lemma_is_building(&self)
        requires
            self.is_building(),
        ensures
            self.total() == total_weight(self.records()),
            self.events().len() == 0,
            self.weights().len() == 0,
    {
    }

    /// What `is_final` says, over the public names.
    pub proof fn lemma_is_final(&self)
        requires
            self.is_final(),
        ensures
            self.total() == total_weight(self.records()),
            tabulates(self.events(), self.weights(), self.records()),
    {
    }
}

/// An array with nothing recorded.
pub fn build_empty_sparse_probability_array() -> (spa: SparseProbabilityArray)
    ensures
        spa.is_building(),
        spa.records() == Seq::<(i64, u128)>::empty(),
        spa.total() == 0,
{
    let spa = SparseProbabilityArray {
        card_map: BTreeMap::new(),
        acc: 0,
        final_weights: Vec::new(),
        final_events: Vec::new(),
        records: Ghost(Seq::empty()),
    };
    assert(aggregates(spa.card_map@, spa.records@));
    spa
}

/// Records `event` with weight `card`.
pub fn spa_add_event(event: i64, card: u128, spa_instance: &mut SparseProbabilityArray)
    requires
        old(spa_instance).is_building(),
        old(spa_instance).total() + card <= u128::MAX,
    ensures
        final(spa_instance).is_building(),
        final(spa_instance).records() == old(spa_instance).records().push((event, card)),
        final(spa_instance).total() == old(spa_instance).total() + card,
{
    broadcast use vstd::std_specs::btree::group_btree_axioms;

    let ghost before = spa_instance.records@;
    let ghost cards = spa_instance.card_map@;
    proof {
        lemma_weight_of_bounded(before, event);
    }
    let current: u128 = match spa_instance.card_map.get(&event) {
        Some(weight) => *weight,
        None => 0,
    };
    spa_instance.card_map.insert(event, current + card);
    spa_instance.acc += card;
    spa_instance.records = Ghost(before.push((event, card)));
    proof {
        let after = before.push((event, card));
        assert forall|e: i64| #[trigger]
            spa_instance.card_map@.contains_key(e) <==> observed(after, e) by {
            lemma_weight_of_push(before, (event, card), e);
        }
        assert forall|e: i64| #[trigger] spa_instance.card_map@.contains_key(e) implies spa_instance.card_map@[e]
            == weight_of(after, e) by {
            lemma_weight_of_push(before, (event, card), e);
            if e == event && !cards.contains_key(event) {
                lemma_unobserved_weighs_nothing(before, event);
            }
        }
        lemma_weight_of_push(before, (event, card), event);
    }
}

/// An event that no record carries has no weight.
pub proof fn lemma_unobserved_weighs_nothing(records: Seq<(i64, u128)>, event: i64)
    requires
        !observed(records, event),
    ensures
        weight_of(records, event) == 0,
    decreases records.len(),
{
    if records.len() > 0 {
        assert(records[records.len() - 1].0 != event);
        assert forall|i: int| 0 <= i < records.drop_last().len() implies (
        #[trigger] records.drop_last()[i]).0 != event by {
            assert(records[i].0 != event);
        }
        lemma_unobserved_weighs_nothing(records.drop_last(), event);
    }
}

/// The keys that a `BTreeMap` hands out in increasing order ascend strictly.
proof fn lemma_increasing_is_ascending(keys: Seq<i64>)
    requires
        vstd::std_specs::btree::increasing_seq(keys),
    ensures
        ascending(keys),
{
    broadcast use vstd::laws_cmp::group_laws_cmp;
    broadcast use vstd::std_specs::btree::group_btree_axioms;

    vstd::std_specs::btree::axiom_increasing_seq_meaning(keys);
    assert forall|i: int, j: int| 0 <= i < j < keys.len() implies keys[i] < keys[j] by {
        assert(keys[i].cmp_spec(&keys[j]) is Less);
    }
}

/// Lays the accumulated weights out in ascending order of their events and
/// empties the accumulator.
pub fn spa_finalise(spa_instance: &mut SparseProbabilityArray)
    requires
        old(spa_instance).is_building(),
    ensures
        final(spa_instance).is_final(),
        final(spa_instance).records() == old(spa_instance).records(),
        final(spa_instance).total() == old(spa_instance).total(),
{
    broadcast use vstd::std_specs::btree::group_btree_axioms;
    broadcast use vstd::laws_cmp::group_laws_cmp;

    let ghost records = spa_instance.records@;
    let ghost cards = spa_instance.card_map@;
    let mut events: Vec<i64> = Vec::new();
    let mut weights: Vec<u128> = Vec::new();
    let entries = spa_instance.card_map.iter();
    let ghost listed = entries.remaining();
    let ghost keys = listed.map_values(|entry: (&i64, &u128)| *entry.0);
    proof {
        lemma_increasing_is_ascending(keys);
    }
    for entry in it: entries
        invariant
            it.seq() == listed,
            events@.len() == it.index(),
            weights@.len() == it.index(),
            forall|i: int| 0 <= i < events@.len() ==> events@[i] == *(#[trigger] listed[i]).0,
            forall|i: int| 0 <= i < weights@.len() ==> weights@[i] == *(#[trigger] listed[i]).1,
    {
        events.push(*entry.0);
        weights.push(*entry.1);
    }
    proof {
        assert(events@.len() == listed.len());
        assert(events@ =~= keys);
        assert forall|e: i64| #[trigger] events@.contains(e) <==> observed(records, e) by {
            if events@.contains(e) {
                let i = choose|i: int| 0 <= i < events@.len() && events@[i] == e;
                assert(cards.contains_key(*listed[i].0));
            }
            if observed(records, e) {
                assert(cards.contains_key(e));
                assert(listed.contains((&e, &cards[e])));
                let i = choose|i: int| 0 <= i < listed.len() && listed[i] == (&e, &cards[e]);
                assert(events@[i] == e);
            }
        }
        assert forall|i: int| 0 <= i < events@.len() implies (#[trigger] weights@[i]) == weight_of(
            records,
            events@[i],
        ) by {
            assert(cards.contains_key(*listed[i].0));
        }
    }
    spa_instance.final_events = events;
    spa_instance.final_weights = weights;
    spa_instance.card_map = BTreeMap::new();
}

/// The sum of the weights that the records give to each of `events`.
pub open spec fn tabulated_total(events: Seq<i64>, records: Seq<(i64, u128)>) -> nat
    decreases events.len(),
{
    if events.len() == 0 {
        0
    } else {
        (tabulated_total(events.drop_last(), records) + weight_of(records, events.last())) as nat
    }
}

proof fn lemma_tabulated_total_push(
    events: Seq<i64>,
    records: Seq<(i64, u128)>,
    record: (i64, u128),
)
    requires
        events.no_duplicates(),
    ensures
        tabulated_total(events, records.push(record)) == tabulated_total(events, records) + (
        if events.contains(record.0) {
            record.1 as int
        } else {
            0
        }),
    decreases events.len(),
{
    if events.len() > 0 {
        let front = events.drop_last();
        lemma_tabulated_total_push(front, records, record);
        lemma_weight_of_push(records, record, events.last());
        if front.contains(record.0) {
            let i = choose|i: int| 0 <= i < front.len() && front[i] == record.0;
            assert(events[i] == record.0);
            assert(events.last() != record.0);
        }
        if events.contains(record.0) && events.last() != record.0 {
            let i = choose|i: int| 0 <= i < events.len() && events[i] == record.0;
            assert(front[i] == record.0);
        }
    }
}

proof fn lemma_tabulated_total_all(events: Seq<i64>, records: Seq<(i64, u128)>)
    requires
        events.no_duplicates(),
        forall|e: i64| observed(records, e) ==> #[trigger] events.contains(e),
    ensures
        tabulated_total(events, records) == total_weight(records),
    decreases records.len(), events.len(),
{
    if records.len() == 0 {
        if events.len() > 0 {
            lemma_tabulated_total_all(events.drop_last(), records);
        }
    } else {
        let rest = records.drop_last();
        let record = records.last();
        assert(records =~= rest.push(record));
        assert forall|e: i64| observed(rest, e) implies #[trigger] events.contains(e) by {
            lemma_weight_of_push(rest, record, e);
        }
        lemma_tabulated_total_all(events, rest);
        lemma_tabulated_total_push(events, rest, record);
        lemma_weight_of_push(rest, record, record.0);
    }
}

proof fn lemma_sum_is_tabulated_total(
    events: Seq<i64>,
    weights: Seq<u128>,
    records: Seq<(i64, u128)>,
)
    requires
        events.len() == weights.len(),
        forall|i: int|
            0 <= i < events.len() ==> (#[trigger] weights[i]) == weight_of(records, events[i]),
    ensures
        sum_of(weights) == tabulated_total(events, records),
    decreases events.len(),
{
    if events.len() > 0 {
        lemma_sum_is_tabulated_total(events.drop_last(), weights.drop_last(), records);
    }
}

/// The weights of a tabulation add up to the weight of all the records: the
/// probabilities of a finalised array add up to one.
pub proof fn lemma_tabulated_sum(
    events: Seq<i64>,
    weights: Seq<u128>,
    records: Seq<(i64, u128)>,
)
    requires
        tabulates(events, weights, records),
    ensures
        sum_of(weights) == total_weight(records),
{
    lemma_sum_is_tabulated_total(events, weights, records);
    lemma_tabulated_total_all(events, records);
}

/// Two ascending lists with the same members are the same list.
pub proof fn lemma_ascending_unique(a: Seq<i64>, b: Seq<i64>)
    requires
        ascending(a),
        ascending(b),
        forall|e: i64| a.contains(e) <==> b.contains(e),
    ensures
        a == b,
    decreases a.len(),
{
    if a.len() == 0 {
        if b.len() > 0 {
            assert(b.contains(b[0]));
        }
        assert(a =~= b);
    } else {
        assert(a.contains(a.last()));
        let ib = choose|i: int| 0 <= i < b.len() && b[i] == a.last();
        assert(b.contains(b.last()));
        let ia = choose|i: int| 0 <= i < a.len() && a[i] == b.last();
        assert(a.last() == b.last());
        let fa = a.drop_last();
        let fb = b.drop_last();
        assert forall|e: i64| fa.contains(e) <==> fb.contains(e) by {
            if fa.contains(e) {
                let i = choose|i: int| 0 <= i < fa.len() && fa[i] == e;
                assert(a[i] == e);
                assert(a.contains(e));
                let k = choose|k: int| 0 <= k < b.len() && b[k] == e;
                assert(fb[k] == e);
            }
            if fb.contains(e) {
                let i = choose|i: int| 0 <= i < fb.len() && fb[i] == e;
                assert(b[i] == e);
                assert(b.contains(e));
                let k = choose|k: int| 0 <= k < a.len() && a[k] == e;
                assert(fa[k] == e);
            }
        }
        lemma_ascending_unique(fa, fb);
        assert(a =~= fa.push(a.last()));
        assert(b =~= fb.push(b.last()));
    }
}

/// The records determine their tabulation.
pub proof fn lemma_tabulation_unique(
    events1: Seq<i64>,
    weights1: Seq<u128>,
    events2: Seq<i64>,
    weights2: Seq<u128>,
    records: Seq<(i64, u128)>,
)
    requires
        tabulates(events1, weights1, records),
        tabulates(events2, weights2, records),
    ensures
        events1 == events2,
        weights1 == weights2,
{
    lemma_ascending_unique(events1, events2);
    assert(weights1 =~= weights2);
}

/// Whether the alphabet bounded by `upb` holds the code point `c`: it does
/// not exceed the bound, and it is not zero, which stands for the boundary
/// of a string.
pub open spec fn supported(c: char, upb: i32) -> bool {
    0 < c as int <= upb
}

/// The event of the single code point `c`.
pub open spec fn single_event(c: char) -> i64 {
    c as i64
}

/// The event of the ordered pair of code point values `left` and `right`.
pub open spec fn pair_event(left: int, right: int, upb: i32) -> i64 {
    (left * upb + right) as i64
}

/// The code point value before position `i` of `s`: zero, the boundary,
/// before the first.
pub open spec fn value_before(s: Seq<char>, i: int) -> int {
    if i <= 0 {
        0
    } else {
        s[i - 1] as int
    }
}

/// What the scan of `s` records. For each position, in order: the single
/// code point with weight 2, then the pair of the previous code point and
/// this one with weight 1. After the last position: the pair of the last code
/// point and the boundary with weight 1. An empty string records nothing.
pub open spec fn scan_records(s: Seq<char>, upb: i32) -> Seq<(i64, u128)> {
    if s.len() == 0 {
        Seq::empty()
    } else {
        Seq::new(
            2 * s.len() + 1,
            |k: int|
                if k == 2 * s.len() {
                    (pair_event(s.last() as int, 0, upb), 1u128)
                } else if k % 2 == 0 {
                    (single_event(s[k / 2]), 2u128)
                } else {
                    (pair_event(value_before(s, k / 2), s[k / 2] as int, upb), 1u128)
                },
        )
    }
}

/// The first position of `s` whose code point the alphabet does not hold.
pub open spec fn first_unsupported(s: Seq<char>, upb: i32, i: int) -> bool {
    &&& 0 <= i < s.len()
    &&& !supported(s[i], upb)
    &&& forall|k: int| 0 <= k < i ==> supported(#[trigger] s[k], upb)
}

/// Whether `e` reports the first code point of `s` that the alphabet does not
/// hold.
pub open spec fn rejects(s: Seq<char>, upb: i32, e: MetricError) -> bool {
    exists|i: int|
        first_unsupported(s, upb, i) && e == MetricError::UnsupportedCodePoint(#[trigger] s[i])
}

/// Whether the alphabet holds every code point of `s`.
pub open spec fn all_supported(s: Seq<char>, upb: i32) -> bool {
    forall|k: int| 0 <= k < s.len() ==> supported(#[trigger] s[k], upb)
}

/// Scans `s` into a finalised sparse array, or reports the first code point
/// that the alphabet of `js_instance` does not hold.
pub fn string_to_sparse_array(s: &str, js_instance: &JS) -> (r: Result<
    SparseProbabilityArray,
    MetricError,
>)
    ensures
        match r {
            Ok(spa) => {
                &&& all_supported(s@, js_instance.char_val_upb)
                &&& spa.is_final()
                &&& spa.records() == scan_records(s@, js_instance.char_val_upb)
                &&& spa.total() == (if s@.len() == 0 {
                    0
                } else {
                    3 * s@.len() + 1
                })
            },
            Err(e) => rejects(s@, js_instance.char_val_upb, e),
        },
{
    let chars = code_points(s);
    let n = chars.len();
    let upb: i64 = js_instance.char_val_upb as i64;
    let ghost all = scan_records(s@, js_instance.char_val_upb);
    let mut spa = build_empty_sparse_probability_array();
    let mut previous: i64 = 0;
    let mut i: usize = 0;
    while i < n
        invariant
            chars@ == s@,
            n == chars@.len(),
            upb == js_instance.char_val_upb,
            all == scan_records(s@, js_instance.char_val_upb),
            0 <= i <= n,
            forall|k: int| 0 <= k < i ==> supported(#[trigger] s@[k], js_instance.char_val_upb),
            previous == value_before(s@, i as int),
            0 <= previous <= 0x10FFFF,
            spa.is_building(),
            spa.total() == 3 * i,
            spa.records() == all.take(2 * i),
        decreases n - i,
    {
        let c = chars[i];
        let code: i64 = code_point_value(c);
        if code == 0 || code > upb {
            assert(first_unsupported(s@, js_instance.char_val_upb, i as int));
            return Err(MetricError::UnsupportedCodePoint(c));
        }
        assert(0 <= previous * upb <= 0x10FFFF * 0x7FFF_FFFF) by (nonlinear_arith)
            requires
                0 <= previous <= 0x10FFFF,
                0 < upb <= 0x7FFF_FFFF,
        ;
        let pair: i64 = previous * upb + code;
        spa_add_event(code, 2, &mut spa);
        spa_add_event(pair, 1, &mut spa);
        proof {
            assert(all[2 * i] == (code, 2u128));
            assert(all[2 * i + 1] == (pair, 1u128));
            assert(all.take(2 * i).push((code, 2u128)).push((pair, 1u128)) =~= all.take(
                2 * (i + 1),
            ));
        }
        previous = code;
        i += 1;
    }
    if n > 0 {
        assert(0 <= previous * upb <= 0x10FFFF * 0x7FFF_FFFF) by (nonlinear_arith)
            requires
                0 <= previous <= 0x10FFFF,
                0 < upb <= 0x7FFF_FFFF,
        ;
        let pair: i64 = previous * upb;
        spa_add_event(pair, 1, &mut spa);
        proof {
            assert(all[2 * n] == (pair, 1u128));
            assert(all.take(2 * n).push((pair, 1u128)) =~= all);
        }
    } else {
        assert(all.take(0) =~= all);
    }
    spa_finalise(&mut spa);
    Ok(spa)
}

/// An event that two arrays share, with the weight it has in each.
#[derive(Clone, Copy, Debug, PartialEq, Eq)]
pub struct SharedEvent {
    /// The event.
    pub event: i64,
    /// Its weight in the first array.
    pub weight1: u128,
    /// Its weight in the second array.
    pub weight2: u128,
}

/// Whether `table` lists `event`.
pub open spec fn lists(table: Seq<SharedEvent>, event: i64) -> bool {
    exists|k: int| 0 <= k < table.len() && (#[trigger] table[k]).event == event
}

/// The events of `table`, in its order.
pub open spec fn events_of(table: Seq<SharedEvent>) -> Seq<i64> {
    Seq::new(table.len(), |k: int| table[k].event)
}

/// Whether `table` lists exactly the events that both `records1` and
/// `records2` carry, in ascending order, each with the weight that either
/// side gives it.
pub open spec fn shares(
    table: Seq<SharedEvent>,
    records1: Seq<(i64, u128)>,
    records2: Seq<(i64, u128)>,
) -> bool {
    &&& ascending(events_of(table))
    &&& forall|e: i64| #[trigger]
        lists(table, e) <==> observed(records1, e) && observed(records2, e)
    &&& forall|k: int|
        0 <= k < table.len() ==> {
            &&& (#[trigger] table[k]).weight1 == weight_of(records1, table[k].event)
            &&& table[k].weight2 == weight_of(records2, table[k].event)
        }
}

/// Two sets of records determine the table of what they share.
pub proof fn lemma_shares_unique(
    table1: Seq<SharedEvent>,
    table2: Seq<SharedEvent>,
    records1: Seq<(i64, u128)>,
    records2: Seq<(i64, u128)>,
)
    requires
        shares(table1, records1, records2),
        shares(table2, records1, records2),
    ensures
        table1 == table2,
{
    let e1 = events_of(table1);
    let e2 = events_of(table2);
    assert forall|e: i64| e1.contains(e) <==> e2.contains(e) by {
        if e1.contains(e) {
            let k = choose|k: int| 0 <= k < e1.len() && e1[k] == e;
            assert(table1[k].event == e);
            assert(lists(table1, e));
            assert(lists(table2, e));
            let m = choose|m: int| 0 <= m < table2.len() && (#[trigger] table2[m]).event == e;
            assert(e2[m] == e);
        }
        if e2.contains(e) {
            let k = choose|k: int| 0 <= k < e2.len() && e2[k] == e;
            assert(table2[k].event == e);
            assert(lists(table2, e));
            assert(lists(table1, e));
            let m = choose|m: int| 0 <= m < table1.len() && (#[trigger] table1[m]).event == e;
            assert(e1[m] == e);
        }
    }
    lemma_ascending_unique(e1, e2);
    assert(table1.len() == table2.len());
    assert forall|k: int| 0 <= k < table1.len() implies table1[k] == table2[k] by {
        assert(e1[k] == e2[k]);
    }
    assert(table1 =~= table2);
}

/// Walks two finalised arrays in lockstep and lists the events that both
/// hold, ascending, with the weight of each event on either side. An event
/// that only one array holds is passed over.
pub fn merge_join(ar1: &SparseProbabilityArray, ar2: &SparseProbabilityArray) -> (table: Vec<
    SharedEvent,
>)
    requires
        ar1.is_final(),
        ar2.is_final(),
    ensures
        shares(table@, ar1.records(), ar2.records()),
{
    let events1 = ar1.final_events();
    let weights1 = ar1.final_weights();
    let events2 = ar2.final_events();
    let weights2 = ar2.final_weights();
    let n1 = events1.len();
    let n2 = events2.len();
    let ghost r1 = ar1.records();
    let ghost r2 = ar2.records();
    proof {
        ar1.lemma_is_final();
        ar2.lemma_is_final();
    }
    let mut table: Vec<SharedEvent> = Vec::new();
    let mut ar1_ptr: usize = 0;
    let mut ar2_ptr: usize = 0;
    while ar1_ptr < n1 && ar2_ptr < n2
        invariant
            n1 == events1@.len(),
            n2 == events2@.len(),
            tabulates(events1@, weights1@, r1),
            tabulates(events2@, weights2@, r2),
            0 <= ar1_ptr <= n1,
            0 <= ar2_ptr <= n2,
            ascending(events_of(table@)),
            forall|k: int|
                0 <= k < table@.len() ==> {
                    &&& events1@.contains((#[trigger] table@[k]).event)
                    &&& events2@.contains(table@[k].event)
                    &&& table@[k].weight1 == weight_of(r1, table@[k].event)
                    &&& table@[k].weight2 == weight_of(r2, table@[k].event)
                    &&& ar1_ptr < n1 ==> table@[k].event < events1@[ar1_ptr as int]
                    &&& ar2_ptr < n2 ==> table@[k].event < events2@[ar2_ptr as int]
                },
            forall|a: int, b: int|
                0 <= a < ar1_ptr && 0 <= b < ar2_ptr && events1@[a] == events2@[b] ==> lists(
                    table@,
                    #[trigger] events1@[a],
                ) || lists(table@, #[trigger] events2@[b]),
            forall|a: int|
                0 <= a < ar1_ptr && ar2_ptr < n2 ==> (#[trigger] events1@[a])
                    < events2@[ar2_ptr as int],
            forall|b: int|
                0 <= b < ar2_ptr && ar1_ptr < n1 ==> (#[trigger] events2@[b])
                    < events1@[ar1_ptr as int],
        decreases (n1 - ar1_ptr) + (n2 - ar2_ptr),
    {
        let ar1_event = events1[ar1_ptr];
        let ar2_event = events2[ar2_ptr];
        let ghost before = table@;
        if ar1_event == ar2_event {
            table.push(
                SharedEvent {
                    event: ar1_event,
                    weight1: weights1[ar1_ptr],
                    weight2: weights2[ar2_ptr],
                },
            );
            proof {
                assert(events1@.contains(ar1_event));
                assert(events2@.contains(ar2_event));
                assert(table@[before.len() as int].event == ar1_event);
                assert forall|e: i64| lists(before, e) implies lists(table@, e) by {
                    let k = choose|k: int| 0 <= k < before.len() && (#[trigger] before[k]).event == e;
                    assert(table@[k].event == e);
                }
                assert(lists(table@, ar1_event));
                assert forall|x: int, y: int|
                    0 <= x < y < events_of(table@).len() implies events_of(table@)[x] < events_of(
                    table@,
                )[y] by {
                    if y < before.len() {
                        assert(events_of(before)[x] < events_of(before)[y]);
                    } else {
                        assert(before[x].event < ar1_event);
                    }
                }
            }
            ar1_ptr += 1;
            ar2_ptr += 1;
        } else if ar1_event < ar2_event {
            ar1_ptr += 1;
        } else {
            ar2_ptr += 1;
        }
    }
    proof {
        assert forall|e: i64| #[trigger] lists(table@, e) <==> observed(r1, e) && observed(
            r2,
            e,
        ) by {
            if lists(table@, e) {
                let k = choose|k: int| 0 <= k < table@.len() && (#[trigger] table@[k]).event == e;
                assert(events1@.contains(e) && events2@.contains(e));
            }
            if observed(r1, e) && observed(r2, e) {
                assert(events1@.contains(e) && events2@.contains(e));
                let a = choose|a: int| 0 <= a < events1@.len() && events1@[a] == e;
                let b = choose|b: int| 0 <= b < events2@.len() && events2@[b] == e;
                if a >= ar1_ptr {
                    assert(ar2_ptr == n2);
                    assert(events2@[b] < events1@[ar1_ptr as int]);
                } else if b >= ar2_ptr {
                    assert(ar1_ptr == n1);
                    assert(events1@[a] < events2@[ar2_ptr as int]);
                }
            }
        }
    }
    table
}

/// What the distance between two strings is computed from.
#[derive(Debug, PartialEq, Eq)]
pub enum Comparison {
    /// One of the strings is empty: the distance is zero by definition.
    Degenerate,
    /// Both strings hold code points. The distance follows from the events
    /// that they share: the probability of an event on either side is its
    /// weight there over the total weight of that side.
    Shared {
        /// The total weight of the first string's events.
        total1: u128,
        /// The total weight of the second string's events.
        total2: u128,
        /// The shared events, ascending.
        events: Vec<SharedEvent>,
    },
}

/// Whether `outcome` is what comparing `s1` with `s2` yields under the
/// alphabet bounded by `upb`.
pub open spec fn compares(
    outcome: Result<Comparison, MetricError>,
    s1: Seq<char>,
    s2: Seq<char>,
    upb: i32,
) -> bool {
    if s1.len() == 0 || s2.len() == 0 {
        outcome == Ok::<Comparison, MetricError>(Comparison::Degenerate)
    } else {
        match outcome {
            Ok(Comparison::Degenerate) => false,
            Ok(Comparison::Shared { total1, total2, events }) => {
                &&& all_supported(s1, upb)
                &&& all_supported(s2, upb)
                &&& total1 == 3 * s1.len() + 1
                &&& total2 == 3 * s2.len() + 1
                &&& shares(events@, scan_records(s1, upb), scan_records(s2, upb))
            },
            Err(e) => {
                ||| rejects(s1, upb, e)
                ||| all_supported(s1, upb) && rejects(s2, upb, e)
            },
        }
    }
}

/// Compares two strings under the alphabet of `js_instance`.
pub fn compute_with(str1: &str, str2: &str, js_instance: &JS) -> (outcome: Result<
    Comparison,
    MetricError,
>)
    ensures
        compares(outcome, str1@, str2@, js_instance.char_val_upb),
{
    if str1.is_empty() || str2.is_empty() {
        return Ok(Comparison::Degenerate);
    }
    let s1 = match string_to_sparse_array(str1, js_instance) {
        Ok(spa) => spa,
        Err(e) => {
            return Err(e);
        },
    };
    let s2 = match string_to_sparse_array(str2, js_instance) {
        Ok(spa) => spa,
        Err(e) => {
            return Err(e);
        },
    };
    let events = merge_join(&s1, &s2);
    Ok(Comparison::Shared { total1: s1.acc(), total2: s2.acc(), events })
}

/// Compares two strings under the alphabet of the code points 1 to 256.
pub fn compute(str1: &str, str2: &str) -> (outcome: Result<Comparison, MetricError>)
    ensures
        compares(outcome, str1@, str2@, 256),
{
    let sed = build_js(255);
    compute_with(str1, str2, &sed)
}

/// `table` with the two weights of every event exchanged.
pub open spec fn mirrored(table: Seq<SharedEvent>) -> Seq<SharedEvent> {
    Seq::new(
        table.len(),
        |k: int|
            SharedEvent {
                event: table[k].event,
                weight1: table[k].weight2,
                weight2: table[k].weight1,
            },
    )
}

/// Exchanging the two sides exchanges the two weights of every shared event
/// and changes nothing else.
pub proof fn lemma_shares_symmetric(
    table: Seq<SharedEvent>,
    records1: Seq<(i64, u128)>,
    records2: Seq<(i64, u128)>,
)
    requires
        shares(table, records1, records2),
    ensures
        shares(mirrored(table), records2, records1),
{
    let flipped = mirrored(table);
    assert(events_of(flipped) =~= events_of(table));
    assert forall|e: i64| #[trigger]
        lists(flipped, e) <==> observed(records2, e) && observed(records1, e) by {
        if lists(flipped, e) {
            let k = choose|k: int| 0 <= k < flipped.len() && (#[trigger] flipped[k]).event == e;
            assert(table[k].event == e);
            assert(lists(table, e));
        }
        if lists(table, e) {
            let k = choose|k: int| 0 <= k < table.len() && (#[trigger] table[k]).event == e;
            assert(flipped[k].event == e);
        }
    }
    assert forall|k: int| 0 <= k < flipped.len() implies {
        &&& (#[trigger] flipped[k]).weight1 == weight_of(records2, flipped[k].event)
        &&& flipped[k].weight2 == weight_of(records1, flipped[k].event)
    } by {
        assert(table[k].weight1 == weight_of(records1, table[k].event));
    }
}

/// Comparing `s2` with `s1` succeeds where comparing `s1` with `s2` does, and
/// yields the same shared events with the two sides exchanged.
pub proof fn lemma_compares_symmetric(
    outcome1: Result<Comparison, MetricError>,
    outcome2: Result<Comparison, MetricError>,
    s1: Seq<char>,
    s2: Seq<char>,
    upb: i32,
)
    requires
        compares(outcome1, s1, s2, upb),
        compares(outcome2, s2, s1, upb),
    ensures
        outcome1 is Ok <==> outcome2 is Ok,
        match (outcome1, outcome2) {
            (Ok(Comparison::Degenerate), Ok(c)) => c == Comparison::Degenerate,
            (
                Ok(Comparison::Shared { total1, total2, events }),
                Ok(Comparison::Shared { total1: other1, total2: other2, events: others }),
            ) => other1 == total2 && other2 == total1 && others@ == mirrored(events@),
            (Ok(_), Ok(_)) => false,
            _ => true,
        },
{
    if s1.len() > 0 && s2.len() > 0 {
        match (outcome1, outcome2) {
            (
                Ok(Comparison::Shared { total1, total2, events }),
                Ok(Comparison::Shared { total1: other1, total2: other2, events: others }),
            ) => {
                lemma_shares_symmetric(
                    events@,
                    scan_records(s1, upb),
                    scan_records(s2, upb),
                );
                lemma_shares_unique(
                    others@,
                    mirrored(events@),
                    scan_records(s2, upb),
                    scan_records(s1, upb),
                );
            },
            (Err(e), Ok(_)) => {
                lemma_rejected_is_unsupported(s1, upb, e);
                lemma_rejected_is_unsupported(s2, upb, e);
            },
            (Ok(_), Err(e)) => {
                lemma_rejected_is_unsupported(s1, upb, e);
                lemma_rejected_is_unsupported(s2, upb, e);
            },
            _ => {},
        }
    }
}

/// A string with a rejected code point is not wholly supported.
pub proof fn lemma_rejected_is_unsupported(s: Seq<char>, upb: i32, e: MetricError)
    ensures
        rejects(s, upb, e) ==> !all_supported(s, upb),
{
    if rejects(s, upb, e) {
        let i = choose|i: int|
            first_unsupported(s, upb, i) && e == MetricError::UnsupportedCodePoint(
                #[trigger] s[i],
            );
        assert(!supported(s[i], upb));
    }
}

/// The weights that the events of `table` have on the first side.
pub open spec fn first_weights(table: Seq<SharedEvent>) -> Seq<u128> {
    Seq::new(table.len(), |k: int| table[k].weight1)
}

/// The first `2 * k` records of a scan weigh `3 * k`.
proof fn lemma_scan_prefix_total(s: Seq<char>, upb: i32, k: int)
    requires
        0 <= k <= s.len(),
        s.len() > 0,
    ensures
        total_weight(scan_records(s, upb).take(2 * k)) == 3 * k,
    decreases k,
{
    let all = scan_records(s, upb);
    if k > 0 {
        lemma_scan_prefix_total(s, upb, k - 1);
        let shorter = all.take(2 * (k - 1));
        lemma_weight_of_push(shorter, all[2 * k - 2], 0);
        lemma_weight_of_push(shorter.push(all[2 * k - 2]), all[2 * k - 1], 0);
        assert(shorter.push(all[2 * k - 2]).push(all[2 * k - 1]) =~= all.take(2 * k));
    }
}

/// The records of the scan of a string of `n > 0` code points weigh
/// `3 * n + 1` together.
pub proof fn lemma_scan_total(s: Seq<char>, upb: i32)
    ensures
        total_weight(scan_records(s, upb)) == (if s.len() == 0 {
            0
        } else {
            3 * s.len() + 1
        }),
{
    if s.len() > 0 {
        let all = scan_records(s, upb);
        let n = s.len() as int;
        lemma_scan_prefix_total(s, upb, n);
        lemma_weight_of_push(all.take(2 * n), all[2 * n], 0);
        assert(all.take(2 * n).push(all[2 * n]) =~= all);
    }
}

/// A string compared with itself shares every event it holds, each with the
/// same weight on both sides. The two totals agree, and the weights of the
/// shared events add up to the total: on either side the probabilities of
/// the shared events add up to one.
pub proof fn lemma_compares_self(
    outcome: Result<Comparison, MetricError>,
    s: Seq<char>,
    upb: i32,
)
    requires
        compares(outcome, s, s, upb),
    ensures
        match outcome {
            Ok(Comparison::Shared { total1, total2, events }) => {
                &&& total1 == total2
                &&& forall|e: i64| #[trigger]
                    lists(events@, e) <==> observed(scan_records(s, upb), e)
                &&& forall|k: int|
                    0 <= k < events@.len() ==> (#[trigger] events@[k]).weight1
                        == events@[k].weight2
                &&& sum_of(first_weights(events@)) == total1
            },
            _ => true,
        },
{
    match outcome {
        Ok(Comparison::Shared { total1, total2, events }) => {
            let records = scan_records(s, upb);
            let table = events@;
            assert forall|e: i64| #[trigger]
                events_of(table).contains(e) <==> observed(records, e) by {
                if events_of(table).contains(e) {
                    let k = choose|k: int| 0 <= k < table.len() && events_of(table)[k] == e;
                    assert(table[k].event == e);
                    assert(lists(table, e));
                }
                if observed(records, e) {
                    assert(lists(table, e));
                    let k = choose|k: int| 0 <= k < table.len() && (#[trigger] table[k]).event == e;
                    assert(events_of(table)[k] == e);
                }
            }
            assert forall|k: int| 0 <= k < table.len() implies (#[trigger] first_weights(
                table,
            )[k]) == weight_of(records, events_of(table)[k]) by {
                assert(table[k].weight1 == weight_of(records, table[k].event));
            }
            lemma_tabulated_sum(events_of(table), first_weights(table), records);
            lemma_scan_total(s, upb);
        },
        _ => {},
    }
}

} // verus!
