//! The automaton over dense tables: one slot per byte value in every node.

use vstd::prelude::*;

verus! {

/// The automaton with a `DenseStore` in every node.
pub type AhoCorasick = crate::aho_corasick::AhoCorasick<crate::transition::DenseStore>;

} // verus!
