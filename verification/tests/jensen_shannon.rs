use fuzzy_distance::distance;
use fuzzy_distance::error::MetricError;
use fuzzy_distance::ratio::Ratio;
use fuzzy_distance::sequence::{code_point_value, code_points};
use fuzzy_distance::string_matchers::jensen_shannon_vector::{
    build_empty_sparse_probability_array, build_js, compute, compute_with, merge_join,
    spa_add_event, spa_finalise, string_to_sparse_array, Comparison, SharedEvent,
};

fn shared(event: i64, weight1: u128, weight2: u128) -> SharedEvent {
    SharedEvent { event, weight1, weight2 }
}

#[test]
fn code_points_are_scalar_values() {
    assert_eq!(code_points("a\u{e9}\u{1F600}"), vec!['a', '\u{e9}', '\u{1F600}']);
    assert_eq!(code_points(""), Vec::<char>::new());
    assert_eq!(code_point_value('a'), 97);
    assert_eq!(code_point_value('\u{10FFFF}'), 0x10FFFF);
}

#[test]
fn build_js_adds_one() {
    assert_eq!(build_js(255).char_val_upb, 256);
    assert_eq!(build_js(0).char_val_upb, 1);
    assert_eq!(build_js(-1).char_val_upb, 0);
}

#[test]
fn sparse_array_accumulates_and_sorts() {
    let mut spa = build_empty_sparse_probability_array();
    assert_eq!(spa.acc(), 0);
    spa_add_event(5, 2, &mut spa);
    spa_add_event(3, 1, &mut spa);
    spa_add_event(5, 1, &mut spa);
    spa_add_event(-7, 4, &mut spa);
    assert_eq!(spa.acc(), 8);
    assert!(spa.final_events().is_empty());
    spa_finalise(&mut spa);
    assert_eq!(spa.final_events(), &vec![-7, 3, 5]);
    assert_eq!(spa.final_weights(), &vec![4, 1, 3]);
    assert_eq!(spa.acc(), 8);
    assert_eq!(spa.final_weights().iter().sum::<u128>(), spa.acc());
}

#[test]
fn empty_sparse_array_finalises_to_nothing() {
    let mut spa = build_empty_sparse_probability_array();
    spa_finalise(&mut spa);
    assert!(spa.final_events().is_empty());
    assert!(spa.final_weights().is_empty());
    assert_eq!(spa.acc(), 0);
}

#[test]
fn scan_of_one_code_point() {
    let spa = string_to_sparse_array("a", &build_js(255)).unwrap();
    assert_eq!(spa.final_events(), &vec![97, 97 * 256]);
    assert_eq!(spa.final_weights(), &vec![3, 1]);
    assert_eq!(spa.acc(), 4);
}

#[test]
fn scan_of_two_code_points() {
    let spa = string_to_sparse_array("ab", &build_js(255)).unwrap();
    assert_eq!(spa.final_events(), &vec![97, 98, 97 * 256 + 98, 98 * 256]);
    assert_eq!(spa.final_weights(), &vec![3, 2, 1, 1]);
    assert_eq!(spa.acc(), 7);
}

#[test]
fn scan_adds_up_repeated_events() {
    let spa = string_to_sparse_array("aaa", &build_js(255)).unwrap();
    assert_eq!(spa.final_events(), &vec![97, 97 * 256, 97 * 256 + 97]);
    assert_eq!(spa.final_weights(), &vec![7, 1, 2]);
    assert_eq!(spa.acc(), 10);
}

#[test]
fn scan_weights_add_up_to_the_total() {
    for s in ["a", "ab", "hello world", "aaaa", "\u{e9}t\u{e9}"] {
        let spa = string_to_sparse_array(s, &build_js(255)).unwrap();
        let n = s.chars().count() as u128;
        assert_eq!(spa.acc(), 3 * n + 1);
        assert_eq!(spa.final_weights().iter().sum::<u128>(), spa.acc());
        assert!(spa.final_events().windows(2).all(|w| w[0] < w[1]));
    }
}

#[test]
fn scan_of_the_empty_string_records_nothing() {
    let spa = string_to_sparse_array("", &build_js(255)).unwrap();
    assert!(spa.final_events().is_empty());
    assert_eq!(spa.acc(), 0);
}

#[test]
fn scan_uses_the_configured_bound() {
    let spa = string_to_sparse_array("ab", &build_js(999)).unwrap();
    assert_eq!(spa.final_events(), &vec![97, 98, 97 * 1000 + 98, 98 * 1000]);
    let spa = string_to_sparse_array("\u{1F600}", &build_js(0x10FFFF)).unwrap();
    assert_eq!(spa.final_events(), &vec![0x1F600, 0x1F600 * 0x110000]);
    assert_eq!(spa.final_weights(), &vec![3, 1]);
}

#[test]
fn scan_reports_the_first_unsupported_code_point() {
    let js = build_js(255);
    assert_eq!(
        string_to_sparse_array("ab\u{101}c\u{102}", &js).err(),
        Some(MetricError::UnsupportedCodePoint('\u{101}'))
    );
    assert_eq!(
        string_to_sparse_array("a\0b", &js).err(),
        Some(MetricError::UnsupportedCodePoint('\0'))
    );
    assert!(string_to_sparse_array("a\u{100}", &js).is_ok());
    assert_eq!(
        string_to_sparse_array("caf\u{e9}", &build_js(127)).err(),
        Some(MetricError::UnsupportedCodePoint('\u{e9}'))
    );
    assert_eq!(
        string_to_sparse_array("a", &build_js(-1)).err(),
        Some(MetricError::UnsupportedCodePoint('a'))
    );
}

#[test]
fn merge_join_lists_what_both_arrays_hold() {
    let mut one = build_empty_sparse_probability_array();
    for (event, card) in [(1, 1), (4, 2), (9, 3), (12, 4)] {
        spa_add_event(event, card, &mut one);
    }
    spa_finalise(&mut one);
    let mut two = build_empty_sparse_probability_array();
    for (event, card) in [(12, 5), (0, 6), (4, 7), (10, 8), (13, 9)] {
        spa_add_event(event, card, &mut two);
    }
    spa_finalise(&mut two);
    assert_eq!(merge_join(&one, &two), vec![shared(4, 2, 7), shared(12, 4, 5)]);
    assert_eq!(merge_join(&two, &one), vec![shared(4, 7, 2), shared(12, 5, 4)]);
    let mut none = build_empty_sparse_probability_array();
    spa_finalise(&mut none);
    assert_eq!(merge_join(&one, &none), vec![]);
    assert_eq!(merge_join(&none, &one), vec![]);
}

#[test]
fn compute_of_an_empty_string_is_degenerate() {
    assert_eq!(compute("", ""), Ok(Comparison::Degenerate));
    assert_eq!(compute("", "x"), Ok(Comparison::Degenerate));
    assert_eq!(compute("x", ""), Ok(Comparison::Degenerate));
    assert_eq!(compute("", "\u{1F600}"), Ok(Comparison::Degenerate));
    assert_eq!(compute("\0", ""), Ok(Comparison::Degenerate));
}

#[test]
fn compute_lists_the_shared_events() {
    assert_eq!(
        compute("ab", "b"),
        Ok(Comparison::Shared {
            total1: 7,
            total2: 4,
            events: vec![shared(98, 2, 3), shared(98 * 256, 1, 1)],
        })
    );
    assert_eq!(
        compute("abc", "xyz"),
        Ok(Comparison::Shared { total1: 10, total2: 10, events: vec![] })
    );
}

#[test]
fn compute_of_a_string_with_itself_shares_everything() {
    assert_eq!(
        compute("a", "a"),
        Ok(Comparison::Shared {
            total1: 4,
            total2: 4,
            events: vec![shared(97, 3, 3), shared(97 * 256, 1, 1)],
        })
    );
    for s in ["ab", "hello", "aaaa"] {
        match compute(s, s) {
            Ok(Comparison::Shared { total1, total2, events }) => {
                assert_eq!(total1, total2);
                assert!(events.iter().all(|e| e.weight1 == e.weight2));
                assert_eq!(events.iter().map(|e| e.weight1).sum::<u128>(), total1);
            }
            other => panic!("{:?}", other),
        }
    }
}

#[test]
fn compute_is_symmetric() {
    for (a, b) in [("nick", "nice"), ("ab", "b"), ("hello", "world"), ("a", "aaa")] {
        match (compute(a, b), compute(b, a)) {
            (
                Ok(Comparison::Shared { total1, total2, events }),
                Ok(Comparison::Shared { total1: other1, total2: other2, events: others }),
            ) => {
                assert_eq!(total1, other2);
                assert_eq!(total2, other1);
                let flipped: Vec<SharedEvent> =
                    events.iter().map(|e| shared(e.event, e.weight2, e.weight1)).collect();
                assert_eq!(flipped, others);
            }
            other => panic!("{:?}", other),
        }
    }
}

#[test]
fn compute_reports_unsupported_code_points() {
    assert_eq!(compute("a\u{101}", "b"), Err(MetricError::UnsupportedCodePoint('\u{101}')));
    assert_eq!(compute("b", "a\u{101}"), Err(MetricError::UnsupportedCodePoint('\u{101}')));
    assert_eq!(
        compute("\u{1F600}", "\u{1F601}"),
        Err(MetricError::UnsupportedCodePoint('\u{1F600}'))
    );
    assert_eq!(compute("a\0", "b"), Err(MetricError::UnsupportedCodePoint('\0')));
    assert!(compute("\u{100}", "\u{100}").is_ok());
}

#[test]
fn compute_with_another_alphabet() {
    let wide = build_js(0x10FFFF);
    assert_eq!(
        compute_with("\u{1F600}", "\u{1F600}", &wide),
        Ok(Comparison::Shared {
            total1: 4,
            total2: 4,
            events: vec![shared(0x1F600, 3, 3), shared(0x1F600 * 0x110000, 1, 1)],
        })
    );
    let narrow = build_js(127);
    assert_eq!(
        compute_with("a", "caf\u{e9}", &narrow),
        Err(MetricError::UnsupportedCodePoint('\u{e9}'))
    );
}

#[test]
fn distance_without_folding_is_compute() {
    for (a, b) in [("nick", "nice"), ("NICK", "nick"), ("", "x"), ("a\u{101}", "b")] {
        assert_eq!(distance(a, b, false), compute(a, b));
    }
}

#[test]
fn distance_folds_the_case_of_both_strings() {
    assert_eq!(distance("NICK", "nick", true), compute("nick", "nick"));
    assert_eq!(distance("Nick", "nIcE", true), compute("nick", "nice"));
    assert_ne!(distance("NICK", "nick", true), distance("NICK", "nick", false));
    assert_eq!(
        distance("ABC", "abc", false),
        Ok(Comparison::Shared { total1: 10, total2: 10, events: vec![] })
    );
    assert_eq!(distance("", "X", true), Ok(Comparison::Degenerate));
}

#[test]
fn distance_folds_before_it_checks_the_alphabet() {
    assert_eq!(distance("\u{178}", "a", false), Err(MetricError::UnsupportedCodePoint('\u{178}')));
    assert_eq!(distance("\u{178}", "a", true), compute("\u{ff}", "a"));
    assert!(distance("\u{178}", "a", true).is_ok());
}

#[test]
fn probabilities_are_weights_over_the_total() {
    let spa = string_to_sparse_array("ab", &build_js(255)).unwrap();
    assert_eq!(
        spa.final_probs(),
        vec![
            Ratio { num: 3, den: 7 },
            Ratio { num: 2, den: 7 },
            Ratio { num: 1, den: 7 },
            Ratio { num: 1, den: 7 },
        ]
    );
    let sum: f64 = spa.final_probs().iter().map(|p| p.num as f64 / p.den as f64).sum();
    assert!((sum - 1.0).abs() < 1e-12);
    let empty = string_to_sparse_array("", &build_js(255)).unwrap();
    assert!(empty.final_probs().is_empty());
}
