use algs4::aho_corasick_bitmap;
use algs4::aho_corasick_fixed_vector;
use algs4::aho_corasick_hashmap;

#[test]
fn fixed_vector_automaton_counts() {
    let mut ac = aho_corasick_fixed_vector::AhoCorasick::with_num_patterns(3);
    for p in ["a", "ab", "bc"] {
        ac.add_pattern(p);
    }
    ac.build();
    assert_eq!(ac.get_pattern_counts("abc"), vec![1, 1, 1]);
}

#[test]
fn hashmap_automaton_counts() {
    let mut ac = aho_corasick_hashmap::AhoCorasick::with_num_patterns(4);
    for p in ["he", "she", "his", "hers"] {
        ac.add_pattern(p);
    }
    ac.build();
    assert_eq!(ac.get_pattern_counts("ushers"), vec![1, 1, 0, 1]);
}

#[test]
fn bitmap_automaton_counts_sorted_patterns_under_their_indices() {
    let mut patterns: Vec<(String, u32)> = ["she", "he", "hers", "his"]
        .iter()
        .enumerate()
        .map(|(i, p)| (p.to_string(), i as u32))
        .collect();
    patterns.sort_unstable();
    let ac = aho_corasick_bitmap::AhoCorasick::with_indexed_patterns(&patterns).unwrap();
    assert_eq!(ac.get_pattern_counts("ushers"), vec![1, 1, 1, 0]);
    assert_eq!(ac.find_matches("ushers"), vec![(1, 4), (2, 4), (2, 6)]);
}
