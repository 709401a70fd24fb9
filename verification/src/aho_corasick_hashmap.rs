//! The automaton over hash maps that hold the bound bytes only.

use vstd::prelude::*;

verus! {

/// The automaton with a `HashStore` in every node.
pub type AhoCorasick = crate::aho_corasick::AhoCorasick<crate::transition::HashStore>;

} // verus!
