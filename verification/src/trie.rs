use vstd::prelude::*;
use vstd::string::StrSliceExecFns;

use crate::model::TrieView;
use crate::node::{
    add_at, delete_at, end_count, lemma_dead_node, lemma_has_end, node_words, search_at,
    suffix_from, wf_node, Node,
};

verus! {

/// The error returned by [`Trie::delete`] when the word to delete is not
/// currently stored.
#[derive(Debug)]
pub enum TrieError {
    WordNotFound,
}

/// A character-keyed prefix tree storing a set of words, with a running
/// count of entries.
///
/// Its abstract state is a [`TrieView`]: the set of stored words and the
/// count. Adding a word always increments the count, even when the word is
/// already stored, so the count can exceed the number of distinct words.
pub struct Trie {
    root: Node,
    count: i32,
}

impl View for Trie {
    type V = TrieView;

    closed spec fn view(&self) -> TrieView {
        TrieView { words: node_words(self.root), count: self.count as int }
    }
}

impl Trie {
    /// Structural soundness: the tree is well formed (child keys distinct,
    /// no dead leaves below the root), and the running count is at least
    /// the number of end markers in the tree.
    pub closed spec fn wf(self) -> bool {
        &&& wf_node(self.root)
        &&& end_count(self.root) <= self.count as int
    }

    /// The running entry count: every `add` raises it by one, every
    /// successful `delete` lowers it by one. Adding a word that is already
    /// stored still counts, so this can exceed the number of distinct words.
    pub fn count(&self) -> (n: i32)
        ensures
            n as int == self@.count,
    {
        self.count
    }

    /// Stores `word`, creating nodes along its path as needed, and raises
    /// the count — even when the word is already present.
    pub fn add(&mut self, word: &str)
        requires
            old(self).wf(),
            old(self)@.count < i32::MAX as int,
        ensures
            final(self).wf(),
            final(self)@ == old(self)@.add_word(word@),
    {
        let chars = to_char_vec(word);
        add_at(&mut self.root, &chars, 0);
        self.count = self.count + 1;
        proof {
            assert(suffix_from(chars@, 0) =~= word@);
            assert(self@.words =~= old(self)@.words.insert(word@));
            assert(self@ =~= old(self)@.add_word(word@));
        }
    }

    /// Whether `word` is currently stored as a complete entry. A strict
    /// prefix of a stored word is not itself found unless it was added.
    pub fn search(&self, word: &str) -> (found: bool)
        requires
            self.wf(),
        ensures
            found == self@.contains_word(word@),
    {
        let chars = to_char_vec(word);
        let found = search_at(&self.root, &chars, 0);
        proof {
            assert(suffix_from(chars@, 0) =~= word@);
        }
        found
    }

    /// Removes `word` and prunes branches left with no end marker and no
    /// children; fails with [`TrieError::WordNotFound`] — changing nothing —
    /// when `word` is not stored as a complete entry.
    pub fn delete(&mut self, word: &str) -> (r: Result<(), TrieError>)
        requires
            old(self).wf(),
        ensures
            final(self).wf(),
            final(self)@ == old(self)@.delete_word(word@),
            (r matches Ok(_)) <==> old(self)@.contains_word(word@),
            (r matches Err(e) && e == TrieError::WordNotFound) <==> !old(self)@.contains_word(
                word@,
            ),
    {
        let chars = to_char_vec(word);
        proof {
            assert(suffix_from(chars@, 0) =~= word@);
        }
        match delete_at(&mut self.root, &chars, 0) {
            Some(_) => {
                proof {
                    lemma_has_end(old(self).root, word@);
                }
                self.count = self.count - 1;
                proof {
                    assert(old(self)@.contains_word(word@));
                    assert(self@.words =~= old(self)@.words.remove(word@));
                    assert(self@ =~= old(self)@.delete_word(word@));
                }
                Ok(())
            },
            None => {
                proof {
                    assert(!old(self)@.contains_word(word@));
                    assert(self@.words =~= old(self)@.words);
                    assert(self@ =~= old(self)@.delete_word(word@));
                }
                Err(TrieError::WordNotFound)
            },
        }
    }
}

impl Default for Trie {
    /// An empty trie: no words stored, count zero.
    fn default() -> (t: Trie)
        ensures
            t.wf(),
            t@ == TrieView::empty(),
    {
        let t = Trie { root: Node { children: Vec::new(), is_end: false }, count: 0 };
        proof {
            lemma_dead_node(t.root);
            assert(node_words(t.root) =~= Set::<Seq<char>>::empty());
            assert(t@ =~= TrieView::empty());
        }
        t
    }
}

/// The characters of `word`, in order, as a vector.
fn to_char_vec(word: &str) -> (chars: Vec<char>)
    ensures
        chars@ == word@,
{
    let n = word.unicode_len();
    let mut chars: Vec<char> = Vec::new();
    let mut k: usize = 0;
    while k < n
        invariant
            k <= n,
            n == word@.len(),
            chars@ == word@.subrange(0, k as int),
        decreases n - k,
    {
        let c = word.get_char(k);
        chars.push(c);
        proof {
            assert(chars@ =~= word@.subrange(0, k as int + 1));
        }
        k += 1;
    }
    proof {
        assert(chars@ =~= word@);
    }
    chars
}

} // verus!
