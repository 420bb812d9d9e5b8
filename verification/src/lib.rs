//! A character-keyed prefix tree (trie) with verified insertion, exact
//! lookup, and deletion with branch pruning, plus a running entry count.

use vstd::prelude::*;

pub mod laws;
pub mod model;
mod node;
pub mod trie;

verus! {

pub use crate::model::TrieView;
pub use crate::trie::Trie;
pub use crate::trie::TrieError;

} // verus!
