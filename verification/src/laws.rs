use vstd::prelude::*;

use crate::model::TrieView;

verus! {

/// One request made of a trie: adding a word, or asking to delete one.
pub enum TrieOp {
    Add(Seq<char>),
    Delete(Seq<char>),
}

/// The state after one request. Additions always go through; a deletion
/// changes the state only when the word is stored.
pub open spec fn apply_op(v: TrieView, op: TrieOp) -> TrieView {
    match op {
        TrieOp::Add(w) => v.add_word(w),
        TrieOp::Delete(w) => v.delete_word(w),
    }
}

/// The state after a sequence of requests, applied in order.
pub open spec fn apply_ops(v: TrieView, ops: Seq<TrieOp>) -> TrieView
    decreases ops.len(),
{
    if ops.len() == 0 {
        v
    } else {
        apply_op(apply_ops(v, ops.drop_last()), ops.last())
    }
}

/// How many of the requests are additions.
pub open spec fn num_adds(ops: Seq<TrieOp>) -> int
    decreases ops.len(),
{
    if ops.len() == 0 {
        0
    } else {
        num_adds(ops.drop_last()) + (if ops.last() matches TrieOp::Add(_) {
            1int
        } else {
            0int
        })
    }
}

/// How many of the deletion requests succeed when the requests are applied
/// in order starting from `v`.
pub open spec fn num_ok_deletes(v: TrieView, ops: Seq<TrieOp>) -> int
    decreases ops.len(),
{
    if ops.len() == 0 {
        0
    } else {
        num_ok_deletes(v, ops.drop_last()) + (match ops.last() {
            TrieOp::Delete(w) => if apply_ops(v, ops.drop_last()).contains_word(w) {
                1int
            } else {
                0int
            },
            TrieOp::Add(_) => 0int,
        })
    }
}

/// The state of a trie built by adding exactly the words of `ws`, in
/// order, starting from the empty trie.
pub open spec fn built_from(ws: Seq<Seq<char>>) -> TrieView
    decreases ws.len(),
{
    if ws.len() == 0 {
        TrieView::empty()
    } else {
        built_from(ws.drop_last()).add_word(ws.last())
    }
}

/// Round trip: after adding `w`, a lookup of `w` succeeds.
pub proof fn lemma_add_then_found(v: TrieView, w: Seq<char>)
    ensures
        v.add_word(w).contains_word(w),
{
}

/// Negative lookup: a trie built only from the words of `ws` stores no
/// other word — in particular, no strict prefix of a member of `ws` that
/// is not itself a member.
pub proof fn lemma_absent_not_found(ws: Seq<Seq<char>>, w: Seq<char>)
    requires
        !ws.contains(w),
    ensures
        !built_from(ws).contains_word(w),
    decreases ws.len(),
{
    if ws.len() > 0 {
        assert(!ws.drop_last().contains(w)) by {
            if ws.drop_last().contains(w) {
                let k = choose|k: int| 0 <= k < ws.drop_last().len() && ws.drop_last()[k] == w;
                assert(ws[k] == w);
            }
        }
        assert(ws.last() != w) by {
            if ws.last() == w {
                assert(ws[ws.len() - 1] == w);
            }
        }
        lemma_absent_not_found(ws.drop_last(), w);
    }
}

/// Deleting a word right after adding it leaves the word unstored and the
/// count as it was; done on the empty trie, the state is empty again.
pub proof fn lemma_add_delete_round_trip(v: TrieView, w: Seq<char>)
    ensures
        !v.add_word(w).delete_word(w).contains_word(w),
        v.add_word(w).delete_word(w).count == v.count,
        TrieView::empty().add_word(w).delete_word(w) == TrieView::empty(),
{
    assert(TrieView::empty().add_word(w).delete_word(w).words =~= Set::<Seq<char>>::empty());
    assert(TrieView::empty().add_word(w).delete_word(w) =~= TrieView::empty());
}

/// A deletion request for a word that is not stored changes nothing: the
/// word set and the count stay exactly as they were.
pub proof fn lemma_delete_missing_keeps_state(v: TrieView, w: Seq<char>)
    requires
        !v.contains_word(w),
    ensures
        v.delete_word(w) == v,
{
}

/// Count consistency: after any sequence of requests, the count has grown
/// by the number of additions and shrunk by the number of deletions that
/// succeeded — duplicate additions of one word each count on their own.
pub proof fn lemma_count_consistency(v: TrieView, ops: Seq<TrieOp>)
    ensures
        apply_ops(v, ops).count == v.count + num_adds(ops) - num_ok_deletes(v, ops),
    decreases ops.len(),
{
    if ops.len() > 0 {
        lemma_count_consistency(v, ops.drop_last());
    }
}

} // verus!
