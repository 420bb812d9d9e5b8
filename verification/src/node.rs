use vstd::prelude::*;

verus! {

/// One node of the trie: a mapping from characters to owned child nodes,
/// plus a flag marking whether the path from the root to this node spells
/// a stored word.
pub struct Node {
    pub children: Vec<(char, Node)>,
    pub is_end: bool,
}

/// The suffix of `w` starting at position `i`.
pub open spec fn suffix_from(w: Seq<char>, i: int) -> Seq<char> {
    w.subrange(i, w.len() as int)
}

/// Whether the subtree rooted at `n` stores the word `w`.
pub open spec fn node_has(n: Node, w: Seq<char>) -> bool
    decreases w.len(),
{
    if w.len() == 0 {
        n.is_end
    } else {
        exists|j: int|
            0 <= j < n.children@.len() && (#[trigger] n.children@[j]).0 == w[0] && node_has(
                n.children@[j].1,
                w.drop_first(),
            )
    }
}

/// The set of words stored in the subtree rooted at `n`.
pub open spec fn node_words(n: Node) -> Set<Seq<char>> {
    Set::new(|w: Seq<char>| node_has(n, w))
}

/// A node that neither marks the end of a word nor has children stores
/// nothing; the deletion algorithm must never leave one behind.
pub open spec fn live(n: Node) -> bool {
    n.is_end || n.children@.len() > 0
}

/// The characters labelling the children of a node, all distinct.
pub open spec fn uniq_keys(s: Seq<(char, Node)>) -> bool {
    forall|j: int, k: int|
        0 <= j < k < s.len() ==> (#[trigger] s[j]).0 != (#[trigger] s[k]).0
}

/// Well-formedness of a subtree: child keys are distinct, and every child
/// is itself well formed and live.
pub open spec fn wf_node(n: Node) -> bool
    decreases n,
{
    &&& uniq_keys(n.children@)
    &&& forall|j: int|
        0 <= j < n.children@.len() ==> wf_node((#[trigger] n.children@[j]).1) && live(
            n.children@[j].1,
        )
}

/// The number of end-of-word markers in the subtree rooted at `n`.
pub open spec fn end_count(n: Node) -> nat
    decreases n, 1nat,
{
    (if n.is_end {
        1nat
    } else {
        0nat
    }) + ends_in(n.children@)
}

/// The number of end-of-word markers below a sequence of children.
pub open spec fn ends_in(s: Seq<(char, Node)>) -> nat
    decreases s, 0nat,
{
    if s.len() == 0 {
        0nat
    } else {
        end_count(s[0].1) + ends_in(s.drop_first())
    }
}

/// A node that is not an end marker and has no children stores no word at all.
pub proof fn lemma_dead_node(n: Node)
    requires
        !n.is_end,
        n.children@.len() == 0,
    ensures
        forall|w: Seq<char>| !(#[trigger] node_has(n, w)),
        end_count(n) == 0,
{
    assert forall|w: Seq<char>| !(#[trigger] node_has(n, w)) by {
        if w.len() == 0 {
        }
    }
}

/// Basic facts about the suffix of `w` from position `i`, for `i` within `w`.
pub proof fn lemma_suffix_step(w: Seq<char>, i: int)
    requires
        0 <= i < w.len(),
    ensures
        suffix_from(w, i).len() == w.len() - i,
        suffix_from(w, i)[0] == w[i],
        suffix_from(w, i).drop_first() == suffix_from(w, i + 1),
{
    assert(suffix_from(w, i).drop_first() =~= suffix_from(w, i + 1));
}

/// Two words with the same first character are equal exactly when their
/// tails are equal.
pub proof fn lemma_eq_by_tail(x: Seq<char>, y: Seq<char>)
    requires
        x.len() > 0,
        y.len() > 0,
        x[0] == y[0],
    ensures
        x == y <==> x.drop_first() == y.drop_first(),
{
    if x.drop_first() == y.drop_first() {
        assert(x.drop_first().len() == x.len() - 1);
        assert(y.drop_first().len() == y.len() - 1);
        assert(x.len() == y.len());
        assert forall|k: int| 0 <= k < x.len() implies x[k] == y[k] by {
            if k > 0 {
                assert(x[k] == x.drop_first()[k - 1]);
                assert(y[k] == y.drop_first()[k - 1]);
            }
        }
        assert(x =~= y);
    }
}

/// With distinct child keys, a nonempty word is stored at `n` exactly when
/// its tail is stored at the unique child labelled with its first character.
pub proof fn lemma_has_via_child(n: Node, j: int, w: Seq<char>)
    requires
        uniq_keys(n.children@),
        0 <= j < n.children@.len(),
        w.len() > 0,
        n.children@[j].0 == w[0],
    ensures
        node_has(n, w) <==> node_has(n.children@[j].1, w.drop_first()),
{
    if node_has(n, w) {
        let k = choose|k: int|
            0 <= k < n.children@.len() && (#[trigger] n.children@[k]).0 == w[0] && node_has(
                n.children@[k].1,
                w.drop_first(),
            );
        if k < j {
            assert((n.children@[k]).0 != (n.children@[j]).0);
        } else if j < k {
            assert((n.children@[j]).0 != (n.children@[k]).0);
        }
    }
    if node_has(n.children@[j].1, w.drop_first()) {
        assert(0 <= j < n.children@.len() && (n.children@[j]).0 == w[0] && node_has(
            n.children@[j].1,
            w.drop_first(),
        ));
        assert(node_has(n, w));
    }
}

/// A nonempty word whose first character labels no child is not stored.
pub proof fn lemma_has_no_key(n: Node, w: Seq<char>)
    requires
        w.len() > 0,
        forall|k: int| 0 <= k < n.children@.len() ==> (#[trigger] n.children@[k]).0 != w[0],
    ensures
        !node_has(n, w),
{
}

/// Storage of nonempty words depends only on the children.
pub proof fn lemma_has_same_children(n1: Node, n2: Node, w: Seq<char>)
    requires
        n1.children@ == n2.children@,
        w.len() > 0,
    ensures
        node_has(n1, w) == node_has(n2, w),
{
}

/// Replacing the child at position `j` leaves storage of words that start
/// with a different character untouched.
pub proof fn lemma_has_update(n1: Node, n2: Node, j: int, w: Seq<char>)
    requires
        0 <= j < n1.children@.len(),
        n2.children@.len() == n1.children@.len(),
        forall|k: int|
            0 <= k < n1.children@.len() && k != j ==> #[trigger] n2.children@[k]
                == n1.children@[k],
        w.len() > 0,
        w[0] != n1.children@[j].0,
        w[0] != n2.children@[j].0,
    ensures
        node_has(n1, w) == node_has(n2, w),
{
    if node_has(n1, w) {
        let k = choose|k: int|
            0 <= k < n1.children@.len() && (#[trigger] n1.children@[k]).0 == w[0] && node_has(
                n1.children@[k].1,
                w.drop_first(),
            );
        assert(k != j);
        assert((n2.children@[k]).0 == w[0] && node_has(n2.children@[k].1, w.drop_first()));
        assert(node_has(n2, w));
    }
    if node_has(n2, w) {
        let k = choose|k: int|
            0 <= k < n2.children@.len() && (#[trigger] n2.children@[k]).0 == w[0] && node_has(
                n2.children@[k].1,
                w.drop_first(),
            );
        assert(k != j);
        assert((n1.children@[k]).0 == w[0] && node_has(n1.children@[k].1, w.drop_first()));
        assert(node_has(n1, w));
    }
}

/// Removing the child at position `j` leaves storage of words that start
/// with a different character untouched.
pub proof fn lemma_has_remove(n1: Node, n2: Node, j: int, w: Seq<char>)
    requires
        0 <= j < n1.children@.len(),
        n2.children@ == n1.children@.remove(j),
        w.len() > 0,
        w[0] != n1.children@[j].0,
    ensures
        node_has(n1, w) == node_has(n2, w),
{
    if node_has(n1, w) {
        let k = choose|k: int|
            0 <= k < n1.children@.len() && (#[trigger] n1.children@[k]).0 == w[0] && node_has(
                n1.children@[k].1,
                w.drop_first(),
            );
        assert(k != j);
        if k < j {
            assert(n2.children@[k] == n1.children@[k]);
            assert(node_has(n2, w));
        } else {
            assert(n2.children@[k - 1] == n1.children@[k]);
            assert(node_has(n2, w));
        }
    }
    if node_has(n2, w) {
        let k = choose|k: int|
            0 <= k < n2.children@.len() && (#[trigger] n2.children@[k]).0 == w[0] && node_has(
                n2.children@[k].1,
                w.drop_first(),
            );
        if k < j {
            assert(n1.children@[k] == n2.children@[k]);
        } else {
            assert(n1.children@[k + 1] == n2.children@[k]);
        }
        assert(node_has(n1, w));
    }
}

/// Appending a child leaves storage of words that start with a different
/// character untouched.
pub proof fn lemma_has_push(n1: Node, n2: Node, w: Seq<char>)
    requires
        n2.children@.len() == n1.children@.len() + 1,
        forall|k: int|
            0 <= k < n1.children@.len() ==> #[trigger] n2.children@[k] == n1.children@[k],
        w.len() > 0,
        w[0] != n2.children@[n1.children@.len() as int].0,
    ensures
        node_has(n1, w) == node_has(n2, w),
{
    if node_has(n1, w) {
        let k = choose|k: int|
            0 <= k < n1.children@.len() && (#[trigger] n1.children@[k]).0 == w[0] && node_has(
                n1.children@[k].1,
                w.drop_first(),
            );
        assert((n2.children@[k]).0 == w[0] && node_has(n2.children@[k].1, w.drop_first()));
        assert(node_has(n2, w));
    }
    if node_has(n2, w) {
        let k = choose|k: int|
            0 <= k < n2.children@.len() && (#[trigger] n2.children@[k]).0 == w[0] && node_has(
                n2.children@[k].1,
                w.drop_first(),
            );
        assert(k < n1.children@.len());
        assert((n1.children@[k]).0 == w[0] && node_has(n1.children@[k].1, w.drop_first()));
        assert(node_has(n1, w));
    }
}

/// Replacing the child at position `j` changes the marker total by the
/// difference between the new and the old subtree.
pub proof fn lemma_ends_in_update(s: Seq<(char, Node)>, j: int, p: (char, Node))
    requires
        0 <= j < s.len(),
    ensures
        ends_in(s.update(j, p)) + end_count(s[j].1) == ends_in(s) + end_count(p.1),
    decreases j,
{
    if j == 0 {
        assert(s.update(0, p).drop_first() =~= s.drop_first());
    } else {
        assert(s.update(j, p).drop_first() =~= s.drop_first().update(j - 1, p));
        lemma_ends_in_update(s.drop_first(), j - 1, p);
    }
}

/// Removing the child at position `j` lowers the marker total by that
/// subtree's own total.
pub proof fn lemma_ends_in_remove(s: Seq<(char, Node)>, j: int)
    requires
        0 <= j < s.len(),
    ensures
        ends_in(s.remove(j)) + end_count(s[j].1) == ends_in(s),
    decreases j,
{
    if j == 0 {
        assert(s.remove(0) =~= s.drop_first());
    } else {
        assert(s.remove(j).drop_first() =~= s.drop_first().remove(j - 1));
        assert(s.remove(j)[0] == s[0]);
        lemma_ends_in_remove(s.drop_first(), j - 1);
    }
}

/// Appending a child raises the marker total by that subtree's own total.
pub proof fn lemma_ends_in_push(s: Seq<(char, Node)>, p: (char, Node))
    ensures
        ends_in(s.push(p)) == ends_in(s) + end_count(p.1),
    decreases s.len(),
{
    if s.len() == 0 {
        assert(s.push(p)[0] == p);
        assert(s.push(p).drop_first() =~= Seq::<(char, Node)>::empty());
        assert(ends_in(Seq::<(char, Node)>::empty()) == 0);
        assert(ends_in(s) == 0);
    } else {
        assert(s.push(p).drop_first() =~= s.drop_first().push(p));
        assert(s.push(p)[0] == s[0]);
        lemma_ends_in_push(s.drop_first(), p);
    }
}

/// The marker total of a sequence of children is at least the total of any
/// one of them.
pub proof fn lemma_ends_in_at(s: Seq<(char, Node)>, j: int)
    requires
        0 <= j < s.len(),
    ensures
        ends_in(s) >= end_count(s[j].1),
    decreases j,
{
    if j > 0 {
        lemma_ends_in_at(s.drop_first(), j - 1);
    }
}

/// A subtree that stores some word carries at least one end marker.
pub proof fn lemma_has_end(n: Node, w: Seq<char>)
    requires
        node_has(n, w),
    ensures
        end_count(n) >= 1,
    decreases w.len(),
{
    if w.len() == 0 {
    } else {
        let k = choose|k: int|
            0 <= k < n.children@.len() && (#[trigger] n.children@[k]).0 == w[0] && node_has(
                n.children@[k].1,
                w.drop_first(),
            );
        lemma_has_end(n.children@[k].1, w.drop_first());
        lemma_ends_in_at(n.children@, k);
    }
}

/// Position of the child labelled `c`, if there is one.
pub fn find_child(children: &Vec<(char, Node)>, c: char) -> (r: Option<usize>)
    ensures
        match r {
            Some(j) => j < children@.len() && children@[j as int].0 == c,
            None => forall|k: int|
                0 <= k < children@.len() ==> (#[trigger] children@[k]).0 != c,
        },
{
    let mut k: usize = 0;
    while k < children.len()
        invariant
            k <= children@.len(),
            forall|t: int| 0 <= t < k ==> (#[trigger] children@[t]).0 != c,
        decreases children@.len() - k,
    {
        if children[k].0 == c {
            return Some(k);
        }
        k += 1;
    }
    None
}

/// Exact lookup of the suffix of `w` from position `i` below `n`.
pub fn search_at(n: &Node, w: &Vec<char>, i: usize) -> (found: bool)
    requires
        wf_node(*n),
        i <= w@.len(),
    ensures
        found == node_has(*n, suffix_from(w@, i as int)),
    decreases w@.len() - i,
{
    proof {
        let ghost sfx = suffix_from(w@, i as int);
        assert(sfx.len() == w@.len() - i);
    }
    if i == w.len() {
        n.is_end
    } else {
        let c = w[i];
        proof {
            lemma_suffix_step(w@, i as int);
        }
        match find_child(&n.children, c) {
            Some(j) => {
                assert(wf_node(n.children@[j as int].1)) by {
                    assert(wf_node((n.children@[j as int]).1) && live(n.children@[j as int].1));
                }
                let found = search_at(&n.children[j].1, w, i + 1);
                proof {
                    lemma_has_via_child(*n, j as int, suffix_from(w@, i as int));
                }
                found
            },
            None => {
                proof {
                    lemma_has_no_key(*n, suffix_from(w@, i as int));
                }
                false
            },
        }
    }
}

/// Inserts the suffix of `w` from position `i` below `n`, creating nodes
/// along the path as needed and marking the final one as an end of word.
pub fn add_at(n: &mut Node, w: &Vec<char>, i: usize)
    requires
        wf_node(*old(n)),
        i <= w@.len(),
    ensures
        wf_node(*final(n)),
        live(*final(n)),
        forall|x: Seq<char>|
            #![trigger node_has(*final(n), x)]
            #![trigger node_has(*old(n), x)]
            node_has(*final(n), x) <==> (node_has(*old(n), x) || x == suffix_from(w@, i as int)),
        end_count(*final(n)) <= end_count(*old(n)) + 1,
    decreases w@.len() - i,
{
    let ghost o = *old(n);
    let ghost sfx = suffix_from(w@, i as int);
    if i == w.len() {
        n.is_end = true;
        proof {
            assert(sfx =~= Seq::<char>::empty());
            assert forall|x: Seq<char>|
                #![trigger node_has(*n, x)]
                #![trigger node_has(o, x)]
                node_has(*n, x) <==> (node_has(o, x) || x == sfx) by {
                if x.len() == 0 {
                    assert(x =~= sfx);
                } else {
                    lemma_has_same_children(o, *n, x);
                }
            }
            assert(end_count(*n) <= end_count(o) + 1);
        }
    } else {
        let c = w[i];
        proof {
            lemma_suffix_step(w@, i as int);
        }
        let ghost sfx1 = suffix_from(w@, i as int + 1);
        match find_child(&n.children, c) {
            Some(j) => {
                let ghost jj = j as int;
                assert(wf_node((o.children@[jj]).1) && live(o.children@[jj].1));
                let (ck, mut child) = n.children.remove(j);
                let ghost oc = o.children@[jj].1;
                assert(ck == c && child == oc);
                add_at(&mut child, w, i + 1);
                let ghost nc = child;
                n.children.insert(j, (ck, child));
                proof {
                    assert(n.children@ =~= o.children@.update(jj, (c, nc)));
                    assert(n.is_end == o.is_end);
                    // keys are unchanged, so they stay distinct
                    assert forall|a: int, b: int|
                        0 <= a < b < n.children@.len() implies (#[trigger] n.children@[a]).0 != (
                    #[trigger] n.children@[b]).0 by {
                        assert((o.children@[a]).0 == n.children@[a].0);
                        assert((o.children@[b]).0 == n.children@[b].0);
                    }
                    assert forall|k: int|
                        0 <= k < n.children@.len() implies wf_node(
                        (#[trigger] n.children@[k]).1,
                    ) && live(n.children@[k].1) by {
                        if k != jj {
                            assert(wf_node((o.children@[k]).1) && live(o.children@[k].1));
                        }
                    }
                    assert(wf_node(*n));
                    assert forall|x: Seq<char>|
                        #![trigger node_has(*n, x)]
                        #![trigger node_has(o, x)]
                        node_has(*n, x) <==> (node_has(o, x) || x == sfx) by {
                        if x.len() == 0 {
                            lemma_suffix_step(w@, i as int);
                        } else if x[0] == c {
                            lemma_has_via_child(*n, jj, x);
                            lemma_has_via_child(o, jj, x);
                            lemma_suffix_step(w@, i as int);
                            lemma_eq_by_tail(x, sfx);
                            assert(node_has(nc, x.drop_first()) <==> (node_has(oc, x.drop_first())
                                || x.drop_first() == sfx1));
                        } else {
                            lemma_has_update(o, *n, jj, x);
                            lemma_suffix_step(w@, i as int);
                            assert(x != sfx);
                        }
                    }
                    lemma_ends_in_update(o.children@, jj, (c, nc));
                    assert(end_count(*n) <= end_count(o) + 1);
                }
            },
            None => {
                let mut child = Node { children: Vec::new(), is_end: false };
                let ghost fresh = child;
                proof {
                    lemma_dead_node(fresh);
                }
                add_at(&mut child, w, i + 1);
                let ghost nc = child;
                n.children.push((c, child));
                proof {
                    assert(n.children@ == o.children@.push((c, nc)));
                    assert(n.is_end == o.is_end);
                    assert forall|a: int, b: int|
                        0 <= a < b < n.children@.len() implies (#[trigger] n.children@[a]).0 != (
                    #[trigger] n.children@[b]).0 by {
                        if b < o.children@.len() {
                            assert((o.children@[a]).0 != (o.children@[b]).0);
                        } else {
                            assert((o.children@[a]).0 != c);
                        }
                    }
                    assert forall|k: int|
                        0 <= k < n.children@.len() implies wf_node(
                        (#[trigger] n.children@[k]).1,
                    ) && live(n.children@[k].1) by {
                        if k < o.children@.len() {
                            assert(wf_node((o.children@[k]).1) && live(o.children@[k].1));
                        }
                    }
                    assert(wf_node(*n));
                    assert forall|x: Seq<char>|
                        #![trigger node_has(*n, x)]
                        #![trigger node_has(o, x)]
                        node_has(*n, x) <==> (node_has(o, x) || x == sfx) by {
                        if x.len() == 0 {
                            lemma_suffix_step(w@, i as int);
                        } else if x[0] == c {
                            lemma_has_via_child(*n, o.children@.len() as int, x);
                            lemma_has_no_key(o, x);
                            lemma_suffix_step(w@, i as int);
                            lemma_eq_by_tail(x, sfx);
                            assert(node_has(nc, x.drop_first()) <==> (node_has(
                                fresh,
                                x.drop_first(),
                            ) || x.drop_first() == sfx1));
                            assert(!node_has(fresh, x.drop_first()));
                        } else {
                            lemma_has_push(o, *n, x);
                            lemma_suffix_step(w@, i as int);
                            assert(x != sfx);
                        }
                    }
                    lemma_ends_in_push(o.children@, (c, nc));
                    assert(end_count(nc) <= 1) by {
                        lemma_dead_node(fresh);
                    }
                    assert(end_count(*n) <= end_count(o) + 1);
                }
            },
        }
    }
}

/// Removes the suffix of `w` from position `i` below `n`, pruning branches
/// that end up with no end marker and no children.
///
/// `Some(prune)` reports success; `prune` tells the caller whether this node
/// itself is now dead and should be unlinked. `None` reports that the suffix
/// is not stored here, in which case nothing below `n` has changed.
pub fn delete_at(n: &mut Node, w: &Vec<char>, i: usize) -> (r: Option<bool>)
    requires
        wf_node(*old(n)),
        i <= w@.len(),
    ensures
        match r {
            Some(prune) => {
                &&& node_has(*old(n), suffix_from(w@, i as int))
                &&& wf_node(*final(n))
                &&& forall|x: Seq<char>|
                    #![trigger node_has(*final(n), x)]
                    #![trigger node_has(*old(n), x)]
                    node_has(*final(n), x) <==> (node_has(*old(n), x) && x != suffix_from(
                        w@,
                        i as int,
                    ))
                &&& prune == (!final(n).is_end && final(n).children@.len() == 0)
                &&& end_count(*final(n)) + 1 == end_count(*old(n))
            },
            None => {
                &&& !node_has(*old(n), suffix_from(w@, i as int))
                &&& final(n).is_end == old(n).is_end
                &&& final(n).children@.len() == old(n).children@.len()
                &&& wf_node(*final(n))
                &&& forall|x: Seq<char>|
                    #![trigger node_has(*final(n), x)]
                    #![trigger node_has(*old(n), x)]
                    node_has(*final(n), x) == node_has(*old(n), x)
                &&& end_count(*final(n)) == end_count(*old(n))
            },
        },
    decreases w@.len() - i,
{
    let ghost o = *old(n);
    let ghost sfx = suffix_from(w@, i as int);
    if i == w.len() {
        proof {
            assert(sfx =~= Seq::<char>::empty());
        }
        if !n.is_end {
            return None;
        }
        n.is_end = false;
        let prune = n.children.len() == 0;
        proof {
            assert(node_has(o, sfx));
            assert forall|x: Seq<char>|
                #![trigger node_has(*n, x)]
                #![trigger node_has(o, x)]
                node_has(*n, x) <==> (node_has(o, x) && x != sfx) by {
                if x.len() == 0 {
                    assert(x =~= sfx);
                } else {
                    lemma_has_same_children(o, *n, x);
                }
            }
        }
        return Some(prune);
    }
    let c = w[i];
    proof {
        lemma_suffix_step(w@, i as int);
    }
    let ghost sfx1 = suffix_from(w@, i as int + 1);
    match find_child(&n.children, c) {
        None => {
            proof {
                lemma_has_no_key(o, sfx);
            }
            None
        },
        Some(j) => {
            let ghost jj = j as int;
            assert(wf_node((o.children@[jj]).1) && live(o.children@[jj].1));
            let (ck, mut child) = n.children.remove(j);
            let ghost oc = o.children@[jj].1;
            assert(ck == c && child == oc);
            let res = delete_at(&mut child, w, i + 1);
            let ghost nc = child;
            proof {
                lemma_has_via_child(o, jj, sfx);
            }
            match res {
                None => {
                    n.children.insert(j, (ck, child));
                    proof {
                        assert(n.children@ =~= o.children@.update(jj, (c, nc)));
                        assert forall|a: int, b: int|
                            0 <= a < b < n.children@.len() implies (#[trigger] n.children@[a]).0
                            != (#[trigger] n.children@[b]).0 by {
                            assert((o.children@[a]).0 == n.children@[a].0);
                            assert((o.children@[b]).0 == n.children@[b].0);
                        }
                        assert forall|k: int|
                            0 <= k < n.children@.len() implies wf_node(
                            (#[trigger] n.children@[k]).1,
                        ) && live(n.children@[k].1) by {
                            if k != jj {
                                assert(wf_node((o.children@[k]).1) && live(o.children@[k].1));
                            } else {
                                assert(live(oc));
                            }
                        }
                        assert(wf_node(*n));
                        assert forall|x: Seq<char>|
                            #![trigger node_has(*n, x)]
                            #![trigger node_has(o, x)]
                            node_has(*n, x) == node_has(o, x) by {
                            if x.len() == 0 {
                            } else if x[0] == c {
                                lemma_has_via_child(*n, jj, x);
                                lemma_has_via_child(o, jj, x);
                            } else {
                                lemma_has_update(o, *n, jj, x);
                            }
                        }
                        lemma_ends_in_update(o.children@, jj, (c, nc));
                        assert(end_count(*n) == end_count(o));
                    }
                    None
                },
                Some(prune_child) => {
                    if prune_child {
                        proof {
                            lemma_dead_node(nc);
                            assert(n.children@ == o.children@.remove(jj));
                            assert forall|a: int, b: int|
                                0 <= a < b < n.children@.len() implies (#[trigger] n.children@[a]).0
                                != (#[trigger] n.children@[b]).0 by {
                                if a < jj {
                                    if b < jj {
                                        assert((o.children@[a]).0 != (o.children@[b]).0);
                                    } else {
                                        assert((o.children@[a]).0 != (o.children@[b + 1]).0);
                                    }
                                } else {
                                    assert((o.children@[a + 1]).0 != (o.children@[b + 1]).0);
                                }
                            }
                            assert forall|k: int|
                                0 <= k < n.children@.len() implies wf_node(
                                (#[trigger] n.children@[k]).1,
                            ) && live(n.children@[k].1) by {
                                if k < jj {
                                    assert(wf_node((o.children@[k]).1) && live(o.children@[k].1));
                                } else {
                                    assert(wf_node((o.children@[k + 1]).1) && live(
                                        o.children@[k + 1].1,
                                    ));
                                }
                            }
                            assert(wf_node(*n));
                            assert forall|k: int|
                                0 <= k < n.children@.len() implies (#[trigger] n.children@[k]).0
                                != c by {
                                if k < jj {
                                    assert((o.children@[k]).0 != (o.children@[jj]).0);
                                } else {
                                    assert((o.children@[k + 1]).0 != (o.children@[jj]).0);
                                }
                            }
                            assert forall|x: Seq<char>|
                                #![trigger node_has(*n, x)]
                                #![trigger node_has(o, x)]
                                node_has(*n, x) <==> (node_has(o, x) && x != sfx) by {
                                if x.len() == 0 {
                                    assert(x != sfx);
                                } else if x[0] == c {
                                    lemma_has_no_key(*n, x);
                                    lemma_has_via_child(o, jj, x);
                                    lemma_eq_by_tail(x, sfx);
                                    assert(!node_has(nc, x.drop_first()));
                                } else {
                                    lemma_has_remove(o, *n, jj, x);
                                    assert(x != sfx);
                                }
                            }
                            lemma_ends_in_remove(o.children@, jj);
                            assert(end_count(nc) == 0);
                            assert(end_count(*n) + 1 == end_count(o));
                        }
                        Some(n.children.len() == 0 && !n.is_end)
                    } else {
                        n.children.insert(j, (ck, child));
                        proof {
                            assert(n.children@ =~= o.children@.update(jj, (c, nc)));
                            assert forall|a: int, b: int|
                                0 <= a < b < n.children@.len() implies (#[trigger] n.children@[a]).0
                                != (#[trigger] n.children@[b]).0 by {
                                assert((o.children@[a]).0 == n.children@[a].0);
                                assert((o.children@[b]).0 == n.children@[b].0);
                            }
                            assert forall|k: int|
                                0 <= k < n.children@.len() implies wf_node(
                                (#[trigger] n.children@[k]).1,
                            ) && live(n.children@[k].1) by {
                                if k != jj {
                                    assert(wf_node((o.children@[k]).1) && live(o.children@[k].1));
                                } else {
                                    assert(live(nc));
                                }
                            }
                            assert(wf_node(*n));
                            assert forall|x: Seq<char>|
                                #![trigger node_has(*n, x)]
                                #![trigger node_has(o, x)]
                                node_has(*n, x) <==> (node_has(o, x) && x != sfx) by {
                                if x.len() == 0 {
                                    assert(x != sfx);
                                } else if x[0] == c {
                                    lemma_has_via_child(*n, jj, x);
                                    lemma_has_via_child(o, jj, x);
                                    lemma_eq_by_tail(x, sfx);
                                    assert(node_has(nc, x.drop_first()) <==> (node_has(
                                        oc,
                                        x.drop_first(),
                                    ) && x.drop_first() != sfx1));
                                } else {
                                    lemma_has_update(o, *n, jj, x);
                                    assert(x != sfx);
                                }
                            }
                            lemma_ends_in_update(o.children@, jj, (c, nc));
                            assert(end_count(*n) + 1 == end_count(o));
                            assert(n.children@.len() > 0);
                        }
                        Some(false)
                    }
                },
            }
        },
    }
}

} // verus!
