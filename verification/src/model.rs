use vstd::prelude::*;

verus! {

/// Abstract state of a trie: the set of words currently stored, and the
/// running entry count.
///
/// The count is kept apart from the word set because insertion increments
/// it even when the word is already present, so it can exceed the number
/// of distinct stored words.
#[verifier::ext_equal]
pub struct TrieView {
    pub words: Set<Seq<char>>,
    pub count: int,
}

impl TrieView {
    /// The state of a trie with no entries.
    pub open spec fn empty() -> TrieView {
        TrieView { words: Set::empty(), count: 0 }
    }

    /// Whether `w` is currently stored.
    pub open spec fn contains_word(self, w: Seq<char>) -> bool {
        self.words.contains(w)
    }

    /// The state after adding `w`: the word is stored, and the count grows
    /// by one whether or not `w` was already present.
    pub open spec fn add_word(self, w: Seq<char>) -> TrieView {
        TrieView { words: self.words.insert(w), count: self.count + 1 }
    }

    /// The state after removing the stored word `w`.
    pub open spec fn remove_word(self, w: Seq<char>) -> TrieView {
        TrieView { words: self.words.remove(w), count: self.count - 1 }
    }

    /// The state after a deletion request for `w`: removal when `w` is
    /// stored, no change at all otherwise.
    pub open spec fn delete_word(self, w: Seq<char>) -> TrieView {
        if self.contains_word(w) {
            self.remove_word(w)
        } else {
            self
        }
    }
}

} // verus!
