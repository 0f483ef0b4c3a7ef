use fuzzy_distance::string_matchers::damerau_levenshtein;
use fuzzy_distance::string_matchers::hamming;
use fuzzy_distance::string_matchers::lcs;
use fuzzy_distance::string_matchers::levenshtein;
use fuzzy_distance::string_matchers::wagner_fischer;

const SAMPLES: [&str; 9] =
    ["", "a", "ab", "ba", "kitten", "sitting", "ABCBDAB", "BDCABA", "\u{fc}ber \u{1F600} caf\u{e9}"];

#[test]
fn hamming_counts_differing_positions() {
    assert_eq!(hamming::compute("karolin", "kathrin"), 3);
    assert_eq!(hamming::compute("1011101", "1001001"), 2);
    assert_eq!(hamming::compute("abc", "abc"), 0);
}

#[test]
fn hamming_counts_positions_beyond_the_shorter_string() {
    assert_eq!(hamming::compute("abc", "abcde"), 2);
    assert_eq!(hamming::compute("abcde", "abc"), 2);
    assert_eq!(hamming::compute("abc", "xbcd"), 2);
    assert_eq!(hamming::compute("", "abcd"), 4);
    assert_eq!(hamming::compute("", ""), 0);
}

#[test]
fn hamming_works_on_code_points_not_bytes() {
    assert_eq!(hamming::compute("caf\u{e9}", "cafe"), 1);
    assert_eq!(hamming::compute("\u{1F600}a", "\u{1F601}a"), 1);
}

#[test]
fn levenshtein_known_values() {
    assert_eq!(levenshtein::compute("kitten", "sitting"), 3);
    assert_eq!(levenshtein::compute("flaw", "lawn"), 2);
    assert_eq!(levenshtein::compute("saturday", "sunday"), 3);
    assert_eq!(levenshtein::compute("\u{fc}ber", "uber"), 1);
}

#[test]
fn levenshtein_from_the_empty_string_is_the_length() {
    assert_eq!(levenshtein::compute("", ""), 0);
    assert_eq!(levenshtein::compute("", "abc"), 3);
    assert_eq!(levenshtein::compute("abcd", ""), 4);
    assert_eq!(levenshtein::compute("", "\u{1F600}\u{1F600}"), 2);
}

#[test]
fn wagner_fischer_known_values() {
    assert_eq!(wagner_fischer::compute("kitten", "sitting"), 3);
    assert_eq!(wagner_fischer::compute("flaw", "lawn"), 2);
    assert_eq!(wagner_fischer::compute("", "abc"), 3);
    assert_eq!(wagner_fischer::compute("abcd", ""), 4);
    assert_eq!(wagner_fischer::compute("", ""), 0);
}

#[test]
fn wagner_fischer_matrix_has_the_boundary_row_and_column() {
    let a: Vec<char> = "kitten".chars().collect();
    let b: Vec<char> = "sitting".chars().collect();
    let table = wagner_fischer::distance_matrix(&a, &b);
    assert_eq!(table.len(), 7);
    for (i, row) in table.iter().enumerate() {
        assert_eq!(row.len(), 8);
        assert_eq!(row[0], i);
    }
    for j in 0..8 {
        assert_eq!(table[0][j], j);
    }
    assert_eq!(table[6][7], 3);
    assert_eq!(table[1][1], 1);
    assert_eq!(table[2][2], 1);
}

#[test]
fn levenshtein_agrees_with_wagner_fischer() {
    for a in SAMPLES {
        for b in SAMPLES {
            assert_eq!(levenshtein::compute(a, b), wagner_fischer::compute(a, b));
        }
    }
}

#[test]
fn levenshtein_lies_between_the_length_difference_and_the_longer_length() {
    for a in SAMPLES {
        for b in SAMPLES {
            let la = a.chars().count();
            let lb = b.chars().count();
            let d = levenshtein::compute(a, b);
            assert!(d <= la.max(lb));
            assert!(d >= la.abs_diff(lb));
        }
    }
}

#[test]
fn damerau_levenshtein_counts_a_transposition_once() {
    assert_eq!(damerau_levenshtein::compute("ca", "ac"), 1);
    assert_eq!(damerau_levenshtein::compute("abcdef", "abcdfe"), 1);
    assert_eq!(damerau_levenshtein::compute("ab", "ba"), 1);
    assert_eq!(levenshtein::compute("ab", "ba"), 2);
}

#[test]
fn damerau_levenshtein_edits_no_part_twice() {
    assert_eq!(damerau_levenshtein::compute("ca", "abc"), 3);
}

#[test]
fn damerau_levenshtein_known_values() {
    assert_eq!(damerau_levenshtein::compute("kitten", "sitting"), 3);
    assert_eq!(damerau_levenshtein::compute("", "abc"), 3);
    assert_eq!(damerau_levenshtein::compute("abc", ""), 3);
    assert_eq!(damerau_levenshtein::compute("", ""), 0);
    assert_eq!(damerau_levenshtein::compute("aa", "aa"), 0);
}

#[test]
fn lcs_known_values() {
    assert_eq!(lcs::compute("ABCBDAB", "BDCABA"), 4);
    assert_eq!(lcs::compute("AGGTAB", "GXTXAYB"), 4);
    assert_eq!(lcs::compute("abc", "def"), 0);
    assert_eq!(lcs::compute("", "abc"), 0);
    assert_eq!(lcs::compute("abc", ""), 0);
    assert_eq!(lcs::compute("", ""), 0);
    assert_eq!(lcs::compute("caf\u{e9}", "\u{e9}"), 1);
}

#[test]
fn self_distance_is_the_identity_value() {
    for a in SAMPLES {
        assert_eq!(hamming::compute(a, a), 0);
        assert_eq!(levenshtein::compute(a, a), 0);
        assert_eq!(wagner_fischer::compute(a, a), 0);
        assert_eq!(damerau_levenshtein::compute(a, a), 0);
        assert_eq!(lcs::compute(a, a), a.chars().count());
    }
}

#[test]
fn whole_number_metrics_are_symmetric() {
    for a in SAMPLES {
        for b in SAMPLES {
            assert_eq!(hamming::compute(a, b), hamming::compute(b, a));
            assert_eq!(levenshtein::compute(a, b), levenshtein::compute(b, a));
            assert_eq!(wagner_fischer::compute(a, b), wagner_fischer::compute(b, a));
            assert_eq!(damerau_levenshtein::compute(a, b), damerau_levenshtein::compute(b, a));
            assert_eq!(lcs::compute(a, b), lcs::compute(b, a));
        }
    }
}

#[test]
fn damerau_levenshtein_is_at_most_levenshtein() {
    for a in SAMPLES {
        for b in SAMPLES {
            let d = damerau_levenshtein::compute(a, b);
            assert!(d <= levenshtein::compute(a, b));
            assert!(d >= a.chars().count().abs_diff(b.chars().count()));
        }
    }
}

#[test]
fn hamming_lies_between_the_length_difference_and_the_longer_length() {
    for a in SAMPLES {
        for b in SAMPLES {
            let la = a.chars().count();
            let lb = b.chars().count();
            let d = hamming::compute(a, b);
            assert!(d <= la.max(lb));
            assert!(d >= la.abs_diff(lb));
            assert!(d >= levenshtein::compute(a, b));
        }
    }
}

#[test]
fn lcs_is_at_most_the_shorter_length() {
    for a in SAMPLES {
        for b in SAMPLES {
            assert!(lcs::compute(a, b) <= a.chars().count().min(b.chars().count()));
        }
    }
}
