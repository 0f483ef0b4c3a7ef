use fuzzy_distance::error::MetricError;
use fuzzy_distance::ratio::Ratio;
use fuzzy_distance::string_matchers::jaro_winkler;
use fuzzy_distance::string_matchers::jaro_winkler::JaroWinkler;
use fuzzy_distance::string_matchers::ngram;
use fuzzy_distance::string_matchers::ngram::Ngram;

fn value(r: Ratio) -> f64 {
    r.num as f64 / r.den as f64
}

#[test]
fn jaro_winkler_counts_of_martha_and_marhta() {
    let c = jaro_winkler::compute("MARTHA", "MARHTA");
    assert_eq!(c, JaroWinkler { len1: 6, len2: 6, matches: 6, transpositions: 1, prefix: 3 });
    assert_eq!(c.similarity(), Some(Ratio { num: 6228, den: 6480 }));
    assert_eq!(c.distance(), Some(Ratio { num: 252, den: 6480 }));
    assert!((value(c.similarity().unwrap()) - 0.9611111).abs() < 1e-6);
}

#[test]
fn jaro_winkler_counts_of_dixon_and_dicksonx() {
    let c = jaro_winkler::compute("DIXON", "DICKSONX");
    assert_eq!(c, JaroWinkler { len1: 5, len2: 8, matches: 4, transpositions: 0, prefix: 2 });
    assert_eq!(c.similarity(), Some(Ratio { num: 3904, den: 4800 }));
    assert!((value(c.similarity().unwrap()) - 0.8133333).abs() < 1e-6);
    assert!((value(c.distance().unwrap()) - 0.1866667).abs() < 1e-6);
}

#[test]
fn jaro_winkler_matches_only_within_the_window() {
    let c = jaro_winkler::compute("abcdef", "fxxxxa");
    assert_eq!(c.matches, 0);
    let c = jaro_winkler::compute("CRATE", "TRACE");
    assert_eq!(c, JaroWinkler { len1: 5, len2: 5, matches: 3, transpositions: 0, prefix: 0 });
    assert_eq!(c.similarity(), Some(Ratio { num: 1650, den: 2250 }));
}

#[test]
fn jaro_winkler_takes_each_position_once() {
    let c = jaro_winkler::compute("aa", "a");
    assert_eq!(c, JaroWinkler { len1: 2, len2: 1, matches: 1, transpositions: 0, prefix: 1 });
    let c = jaro_winkler::compute("ab", "ba");
    assert_eq!(c.matches, 0);
}

#[test]
fn jaro_winkler_prefix_stops_at_four() {
    let c = jaro_winkler::compute("abcdefgh", "abcdefgx");
    assert_eq!(c.prefix, 4);
    assert_eq!(c.matches, 7);
    assert_eq!(c.transpositions, 0);
}

#[test]
fn jaro_winkler_of_an_empty_string_has_similarity_zero() {
    for (a, b) in [("", "abc"), ("abc", ""), ("", "")] {
        let c = jaro_winkler::compute(a, b);
        assert_eq!(c.matches, 0);
        assert_eq!(c.similarity(), Some(Ratio { num: 0, den: 1 }));
        assert_eq!(c.distance(), Some(Ratio { num: 1, den: 1 }));
    }
}

#[test]
fn jaro_winkler_of_a_string_with_itself_has_distance_zero() {
    for a in ["a", "ab", "aab", "MARTHA", "caf\u{e9} \u{1F600}", "aaaaaaaaaa"] {
        let c = jaro_winkler::compute(a, a);
        let n = a.chars().count();
        assert_eq!(c.matches, n);
        assert_eq!(c.transpositions, 0);
        let s = c.similarity().unwrap();
        assert_eq!(s.num, s.den);
        assert_eq!(c.distance().unwrap().num, 0);
    }
}

#[test]
fn jaro_winkler_lies_between_zero_and_one() {
    let samples = ["a", "ab", "ba", "MARTHA", "MARHTA", "DIXON", "DICKSONX", "abcabc"];
    for a in samples {
        for b in samples {
            let s = jaro_winkler::compute(a, b).similarity().unwrap();
            assert!(s.den > 0);
            assert!(s.num <= s.den);
            let d = jaro_winkler::compute(a, b).distance().unwrap();
            assert_eq!(d.num + s.num, s.den);
        }
    }
}

#[test]
fn jaro_winkler_similarity_that_does_not_fit_is_not_given() {
    let c = JaroWinkler {
        len1: usize::MAX,
        len2: usize::MAX,
        matches: usize::MAX,
        transpositions: 0,
        prefix: 0,
    };
    if usize::BITS >= 64 {
        assert_eq!(c.similarity(), None);
        assert_eq!(c.distance(), None);
    }
}

#[test]
fn ratio_complement() {
    assert_eq!(Ratio { num: 1, den: 4 }.complement(), Ratio { num: 3, den: 4 });
    assert_eq!(Ratio { num: 0, den: 1 }.complement(), Ratio { num: 1, den: 1 });
}

#[test]
fn ngram_counts_shared_windows() {
    let c = ngram::compute("abcd", "bcde", 2).unwrap();
    assert_eq!(c, Ngram { windows1: 3, windows2: 3, shared: 2 });
    assert_eq!(c.distance(), Ratio { num: 2, den: 6 });
}

#[test]
fn ngram_counts_windows_with_multiplicity() {
    let c = ngram::compute("aaaa", "aa", 2).unwrap();
    assert_eq!(c, Ngram { windows1: 3, windows2: 1, shared: 1 });
    assert_eq!(c.distance(), Ratio { num: 2, den: 4 });
    let c = ngram::compute("abab", "abab", 2).unwrap();
    assert_eq!(c, Ngram { windows1: 3, windows2: 3, shared: 3 });
    let c = ngram::compute("ababab", "abxab", 2).unwrap();
    assert_eq!(c, Ngram { windows1: 5, windows2: 4, shared: 2 });
}

#[test]
fn ngram_with_windows_of_one_code_point() {
    let c = ngram::compute("abc", "cbd", 1).unwrap();
    assert_eq!(c, Ngram { windows1: 3, windows2: 3, shared: 2 });
    assert!((value(c.distance()) - 1.0 / 3.0).abs() < 1e-12);
}

#[test]
fn ngram_window_longer_than_both_strings() {
    let c = ngram::compute("abc", "ab", 5).unwrap();
    assert_eq!(c, Ngram { windows1: 0, windows2: 0, shared: 0 });
    assert_eq!(c.distance(), Ratio { num: 0, den: 1 });
    let c = ngram::compute("", "", 1).unwrap();
    assert_eq!(c.distance(), Ratio { num: 0, den: 1 });
}

#[test]
fn ngram_window_longer_than_one_string() {
    let c = ngram::compute("abc", "ab", 3).unwrap();
    assert_eq!(c, Ngram { windows1: 1, windows2: 0, shared: 0 });
    assert_eq!(c.distance(), Ratio { num: 1, den: 1 });
    let c = ngram::compute("ab", "abc", 3).unwrap();
    assert_eq!(c, Ngram { windows1: 0, windows2: 1, shared: 0 });
}

#[test]
fn ngram_refuses_a_window_size_below_one() {
    assert_eq!(ngram::compute("abc", "abc", 0), Err(MetricError::InvalidParameter));
    assert_eq!(ngram::compute("abc", "abc", -3), Err(MetricError::InvalidParameter));
    assert_eq!(ngram::compute("", "", i32::MIN), Err(MetricError::InvalidParameter));
}

#[test]
fn ngram_of_a_string_with_itself_has_distance_zero() {
    for a in ["", "a", "abc", "aaaa", "caf\u{e9} \u{1F600}"] {
        for n in 1..5 {
            let c = ngram::compute(a, a, n).unwrap();
            assert_eq!(c.shared, c.windows1);
            assert_eq!(c.distance().num, 0);
        }
    }
}

#[test]
fn ngram_is_symmetric() {
    let samples = ["", "a", "abab", "baba", "abcabc", "aaaa"];
    for a in samples {
        for b in samples {
            for n in 1..4 {
                let ab = ngram::compute(a, b, n).unwrap();
                let ba = ngram::compute(b, a, n).unwrap();
                assert_eq!(ab.shared, ba.shared);
                assert_eq!(ab.distance(), ba.distance());
            }
        }
    }
}

#[test]
fn jaro_winkler_is_symmetric() {
    let samples =
        ["", "a", "ab", "ba", "MARTHA", "MARHTA", "DIXON", "DICKSONX", "abcabc", "aabbaab", "babab"];
    for a in samples {
        for b in samples {
            let ab = jaro_winkler::compute(a, b);
            let ba = jaro_winkler::compute(b, a);
            assert_eq!(ab.matches, ba.matches);
            assert_eq!(ab.transpositions, ba.transpositions);
            assert_eq!(ab.prefix, ba.prefix);
            assert_eq!((ab.len1, ab.len2), (ba.len2, ba.len1));
            assert_eq!(ab.similarity(), ba.similarity());
            assert_eq!(ab.distance(), ba.distance());
        }
    }
}

#[test]
fn jaro_winkler_counts_transpositions_in_pairs() {
    let c = jaro_winkler::compute("abcdef", "badcfe");
    assert_eq!(c, JaroWinkler { len1: 6, len2: 6, matches: 6, transpositions: 3, prefix: 0 });
    assert_eq!(c.similarity(), Some(Ratio { num: 5400, den: 6480 }));
    let c = jaro_winkler::compute("abcd", "abdc");
    assert_eq!(c, JaroWinkler { len1: 4, len2: 4, matches: 4, transpositions: 1, prefix: 2 });
}
