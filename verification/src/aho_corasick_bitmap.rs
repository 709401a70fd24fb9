//! The automaton over bitmap-indexed arrays: a 256-bit set of the bound
//! bytes and their targets in byte order.

use vstd::prelude::*;

verus! {

/// The automaton with a `BitmapStore` in every node.
pub type AhoCorasick = crate::aho_corasick::AhoCorasick<crate::transition::BitmapStore>;

} // verus!
