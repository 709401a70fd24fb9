use algs4::aho_corasick::AhoCorasick;
use algs4::transition::{BitmapStore, DenseStore, HashStore, TransitionStore};

fn automaton(patterns: &[&str]) -> AhoCorasick<DenseStore> {
    let mut ac: AhoCorasick<DenseStore> = AhoCorasick::with_num_patterns(patterns.len());
    for (k, p) in patterns.iter().enumerate() {
        assert_eq!(ac.add_pattern(p), Some(k));
    }
    assert!(!ac.ready());
    ac.build();
    assert!(ac.ready());
    ac
}

fn naive_count(pattern: &str, text: &str) -> u64 {
    let p = pattern.as_bytes();
    let t = text.as_bytes();
    if p.len() > t.len() {
        return 0;
    }
    (0..=t.len() - p.len()).filter(|&s| &t[s..s + p.len()] == p).count() as u64
}

#[test]
fn counts_in_ushers() {
    let ac = automaton(&["he", "she", "his", "hers"]);
    assert_eq!(ac.get_pattern_counts("ushers"), vec![1, 1, 0, 1]);
}

#[test]
fn counts_in_abc() {
    let ac = automaton(&["a", "ab", "bc"]);
    assert_eq!(ac.get_pattern_counts("abc"), vec![1, 1, 1]);
}

#[test]
fn empty_pattern_set_finds_nothing() {
    let ac = automaton(&[]);
    assert_eq!(ac.num_patterns(), 0);
    assert_eq!(ac.get_pattern_counts("any text at all"), Vec::<u64>::new());
    assert_eq!(ac.find_matches("any text at all"), Vec::<(usize, usize)>::new());
    assert_eq!(ac.get_pattern_counts(""), Vec::<u64>::new());
}

#[test]
fn counts_equal_naive_search() {
    let patterns = ["a", "aa", "aaa", "ab", "ba", "bab", "abab", "b", "c", "abc", "bca", "aab"];
    let texts = [
        "",
        "a",
        "aaaaaaa",
        "abababab",
        "abcabcabcaabbaabab",
        "bbbbabbbbababababbbaaaabaab",
        "cccccc",
        "xyz",
    ];
    let ac = automaton(&patterns);
    for text in texts {
        let counts = ac.get_pattern_counts(text);
        assert_eq!(counts.len(), patterns.len());
        for (k, p) in patterns.iter().enumerate() {
            assert_eq!(counts[k], naive_count(p, text), "pattern {} in {}", p, text);
        }
    }
}

#[test]
fn overlapping_occurrences_are_counted() {
    let ac = automaton(&["aa", "aba"]);
    assert_eq!(ac.get_pattern_counts("aaaa"), vec![3, 0]);
    assert_eq!(ac.get_pattern_counts("abababa"), vec![0, 3]);
}

#[test]
fn duplicate_patterns_get_equal_counts() {
    let mut ac: AhoCorasick<DenseStore> = AhoCorasick::new();
    assert_eq!(ac.add_pattern("ab"), Some(0));
    assert_eq!(ac.add_pattern("b"), Some(1));
    assert_eq!(ac.add_pattern("ab"), Some(2));
    ac.build();
    let counts = ac.get_pattern_counts("abxabab");
    assert_eq!(counts, vec![3, 3, 3]);
    assert_eq!(counts[0], counts[2]);
    assert_eq!(ac.find_matches("ab"), vec![(0, 2), (1, 2)]);
}

#[test]
fn empty_text_gives_zeros() {
    let ac = automaton(&["he", "she", "his", "hers"]);
    assert_eq!(ac.get_pattern_counts(""), vec![0, 0, 0, 0]);
    assert_eq!(ac.find_matches(""), vec![]);
}

#[test]
fn absent_or_too_long_patterns_count_zero() {
    let ac = automaton(&["abcdef", "zz", "ab"]);
    assert_eq!(ac.get_pattern_counts("abc"), vec![0, 0, 1]);
}

#[test]
fn empty_pattern_is_refused() {
    let mut ac: AhoCorasick<DenseStore> = AhoCorasick::new();
    assert_eq!(ac.add_pattern(""), None);
    assert_eq!(ac.num_patterns(), 0);
    assert_eq!(ac.add_pattern("x"), Some(0));
    assert_eq!(ac.add_pattern(""), None);
    assert_eq!(ac.num_patterns(), 1);
    ac.build();
    assert_eq!(ac.get_pattern_counts("xx"), vec![2]);
}

#[test]
fn matches_in_ushers_are_ordered_spans() {
    let ac = automaton(&["he", "she", "his", "hers"]);
    assert_eq!(ac.find_matches("ushers"), vec![(1, 4), (2, 4), (2, 6)]);
}

#[test]
fn every_span_is_an_occurrence_of_a_pattern() {
    let patterns = ["a", "ab", "bab", "b", "abba"];
    let text = "abbabababba";
    let ac = automaton(&patterns);
    let found = ac.find_matches(text);
    let mut expected = Vec::new();
    for end in 1..=text.len() {
        for start in 0..end {
            if patterns.iter().any(|p| p.as_bytes() == &text.as_bytes()[start..end]) {
                expected.push((start, end));
            }
        }
    }
    assert_eq!(found, expected);
    for (start, end) in found {
        assert!(patterns.iter().any(|p| p.len() == end - start && *p == &text[start..end]));
    }
}

#[test]
fn bytes_above_127_are_matched() {
    let ac = automaton(&["é", "ñandú", "\u{00e9}t\u{00e9}"]);
    assert_eq!(ac.get_pattern_counts("été, ñandú, café"), vec![3, 1, 1]);
    assert_eq!(ac.find_matches("é"), vec![(0, 2)]);
}

#[test]
fn one_automaton_scans_many_texts() {
    let ac = automaton(&["ab"]);
    assert_eq!(ac.get_pattern_counts("abab"), vec![2]);
    assert_eq!(ac.get_pattern_counts("abab"), vec![2]);
    assert_eq!(ac.get_pattern_counts("ba"), vec![0]);
}

fn automaton_over<S: TransitionStore>(patterns: &[&str]) -> AhoCorasick<S> {
    let mut ac: AhoCorasick<S> = AhoCorasick::new();
    for (k, p) in patterns.iter().enumerate() {
        assert_eq!(ac.add_pattern(p), Some(k));
    }
    ac.build();
    ac
}

fn agrees_with_naive_search<S: TransitionStore>() {
    let patterns = ["he", "she", "his", "hers", "s", "ers", "\u{00ff}x", "rs\u{00e9}"];
    let texts = ["ushers", "", "hishershehe", "sssss", "\u{00ff}x\u{00ff}xhers\u{00e9}", "zzz"];
    let ac = automaton_over::<S>(&patterns);
    for text in texts {
        let counts = ac.get_pattern_counts(text);
        for (k, p) in patterns.iter().enumerate() {
            assert_eq!(counts[k], naive_count(p, text), "pattern {} in {}", p, text);
        }
    }
    assert_eq!(
        automaton_over::<S>(&["he", "she", "his", "hers"]).find_matches("ushers"),
        vec![(1, 4), (2, 4), (2, 6)]
    );
}

#[test]
fn dense_store_automaton_agrees_with_naive_search() {
    agrees_with_naive_search::<DenseStore>();
}

#[test]
fn hash_store_automaton_agrees_with_naive_search() {
    agrees_with_naive_search::<HashStore>();
}

#[test]
fn bitmap_store_automaton_agrees_with_naive_search() {
    agrees_with_naive_search::<BitmapStore>();
}

#[test]
fn hash_store_counts_in_ushers() {
    let ac = automaton_over::<HashStore>(&["he", "she", "his", "hers"]);
    assert_eq!(ac.get_pattern_counts("ushers"), vec![1, 1, 0, 1]);
}

#[test]
fn bitmap_store_counts_in_abc() {
    let ac = automaton_over::<BitmapStore>(&["a", "ab", "bc"]);
    assert_eq!(ac.get_pattern_counts("abc"), vec![1, 1, 1]);
}

fn indexed(patterns: &[(&str, u32)]) -> Vec<(String, u32)> {
    patterns.iter().map(|(p, k)| (p.to_string(), *k)).collect()
}

#[test]
fn indexed_patterns_are_counted_under_their_indices() {
    let patterns = indexed(&[("he", 2), ("hers", 0), ("his", 3), ("she", 1)]);
    let ac: AhoCorasick<BitmapStore> = AhoCorasick::with_indexed_patterns(&patterns).unwrap();
    assert!(ac.ready());
    assert_eq!(ac.num_patterns(), 4);
    assert_eq!(ac.get_pattern_counts("ushers"), vec![1, 1, 1, 0]);
    assert_eq!(ac.get_pattern_counts("hishe"), vec![0, 1, 1, 1]);
}

#[test]
fn indexed_patterns_must_be_numbered_and_not_empty() {
    assert!(AhoCorasick::<DenseStore>::with_indexed_patterns(&indexed(&[("a", 0), ("b", 2)])).is_none());
    assert!(AhoCorasick::<DenseStore>::with_indexed_patterns(&indexed(&[("a", 1), ("b", 1)])).is_none());
    assert!(AhoCorasick::<DenseStore>::with_indexed_patterns(&indexed(&[("a", 0), ("", 1)])).is_none());
    let none = AhoCorasick::<HashStore>::with_indexed_patterns(&[]).unwrap();
    assert_eq!(none.get_pattern_counts("abc"), Vec::<u64>::new());
    let one = AhoCorasick::<HashStore>::with_indexed_patterns(&indexed(&[("bc", 0)])).unwrap();
    assert_eq!(one.get_pattern_counts("abcbc"), vec![2]);
}
