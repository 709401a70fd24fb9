//! Classic algorithms with machine-checked contracts: multi-pattern string
//! matching over three kinds of transition tables, comparison sorts, a d-ary
//! heap, union-find structures and a percolation grid.

pub mod aho_corasick;
pub mod aho_corasick_bitmap;
pub mod aho_corasick_fixed_vector;
pub mod aho_corasick_hashmap;
pub mod dary_heap;
pub mod percolation;
pub mod sort;
pub mod substring;
pub mod transition;
pub mod union_find;
