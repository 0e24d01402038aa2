//! What holds of ordered subtrees under insertion, proved once for all trees
//! and keys.

use vstd::prelude::*;
use vstd::set_lib::lemma_set_disjoint_lens;
use crate::link::Link;

verus! {

impl Link {
    /// Offering a key to an ordered subtree keeps it ordered, adds exactly
    /// that key to its key set, and grows it by one node unless the key was
    /// there already, in which case the subtree is returned as it was.
    pub proof fn lemma_inserted(self, elem: i32)
        requires
            self.is_bst(),
        ensures
            self.inserted(elem).is_bst(),
            self.inserted(elem).keys() == self.keys().insert(elem),
            self.keys().contains(elem) ==> self.inserted(elem) == self,
            !self.keys().contains(elem) ==> self.inserted(elem).size() == self.size() + 1,
        decreases self,
    {
        match self {
            Link::Empty => {},
            Link::More(node) => {
                if elem < node.elem {
                    node.left.lemma_inserted(elem);
                    assert(!node.right.keys().contains(elem));
                } else if elem > node.elem {
                    node.right.lemma_inserted(elem);
                    assert(!node.left.keys().contains(elem));
                }
            },
        }
    }

    /// A key that an ordered subtree does not hold is taken in: the subtree
    /// grows by exactly one node, which is what `insert` reports as `true`,
    /// and it holds the key afterwards, so that `search` finds it.
    pub proof fn lemma_insert_absent(self, elem: i32)
        requires
            self.is_bst(),
            !self.keys().contains(elem),
        ensures
            self.inserted(elem).size() == self.size() + 1,
            self.inserted(elem).keys().contains(elem),
            self.inserted(elem).is_bst(),
    {
        self.lemma_inserted(elem);
    }

    /// A key that an ordered subtree already holds changes nothing: the
    /// subtree, and with it the number of its nodes, stays as it was, which is
    /// what `insert` reports as `false`.
    pub proof fn lemma_insert_present(self, elem: i32)
        requires
            self.is_bst(),
            self.keys().contains(elem),
        ensures
            self.inserted(elem) == self,
            self.inserted(elem).size() == self.size(),
    {
        self.lemma_inserted(elem);
    }

    /// Inserting a key that an ordered subtree does not hold fills one vacant
    /// slot with a leaf and changes nothing else.
    pub proof fn lemma_inserted_extends(self, elem: i32)
        requires
            self.is_bst(),
            !self.keys().contains(elem),
        ensures
            self.extended_by_leaf(self.inserted(elem), elem),
        decreases self,
    {
        match self {
            Link::Empty => {},
            Link::More(node) => {
                if elem < node.elem {
                    node.left.lemma_inserted_extends(elem);
                } else {
                    node.right.lemma_inserted_extends(elem);
                }
            },
        }
    }

    /// The slot that insertion fills is the only one that will do: whenever
    /// filling a vacant slot with a leaf for `elem` gives an ordered subtree,
    /// that subtree is the one that insertion builds.
    pub proof fn lemma_ordered_extension_is_unique(self, other: Link, elem: i32)
        requires
            self.extended_by_leaf(other, elem),
            other.is_bst(),
        ensures
            other == self.inserted(elem),
            other.keys() == self.keys().insert(elem),
        decreases self,
    {
        match self {
            Link::Empty => {},
            Link::More(node) => {
                let grown = other->More_0;
                if node.left.extended_by_leaf(grown.left, elem) && grown.right == node.right {
                    node.left.lemma_ordered_extension_is_unique(grown.left, elem);
                    assert(grown.left.keys().contains(elem));
                } else {
                    node.right.lemma_ordered_extension_is_unique(grown.right, elem);
                    assert(grown.right.keys().contains(elem));
                }
            },
        }
    }

    /// The empty slot holds no key, so `search` on an empty tree finds
    /// nothing.
    pub proof fn lemma_empty_holds_nothing(elem: i32)
        ensures
            Link::Empty.is_bst(),
            !Link::Empty.keys().contains(elem),
            Link::Empty.size() == 0,
    {
    }

    /// Any run of insertions into an ordered subtree leaves it ordered, and
    /// its keys are then the keys it had together with the keys offered.
    pub proof fn lemma_inserted_all(self, elems: Seq<i32>)
        requires
            self.is_bst(),
        ensures
            self.inserted_all(elems).is_bst(),
            self.inserted_all(elems).keys() == self.keys().union(elems.to_set()),
        decreases elems.len(),
    {
        if elems.len() == 0 {
            assert(self.keys().union(elems.to_set()) =~= self.keys());
        } else {
            let front = elems.drop_last();
            let last = elems.last();
            self.lemma_inserted_all(front);
            self.inserted_all(front).lemma_inserted(last);
            assert(elems.to_set() =~= front.to_set().insert(last)) by {
                lemma_to_set_drop_last(elems);
            }
            assert(self.keys().union(front.to_set()).insert(last) =~= self.keys().union(
                elems.to_set(),
            ));
        }
    }

    /// Starting from the empty slot, any run of insertions builds an ordered
    /// tree: at every node the keys to the left are strictly less and the
    /// keys to the right strictly greater.
    pub proof fn lemma_built_tree_is_ordered(elems: Seq<i32>)
        ensures
            Link::Empty.inserted_all(elems).is_bst(),
            Link::Empty.inserted_all(elems).keys() == elems.to_set(),
    {
        Link::Empty.lemma_inserted_all(elems);
        assert(Link::Empty.keys().union(elems.to_set()) =~= elems.to_set());
    }

    /// Offering keys that differ from one another and from every key already
    /// held adds one node for each of them.
    pub proof fn lemma_distinct_inserts_grow(self, elems: Seq<i32>)
        requires
            self.is_bst(),
            elems.no_duplicates(),
            forall|i: int| 0 <= i < elems.len() ==> !self.keys().contains(#[trigger] elems[i]),
        ensures
            self.inserted_all(elems).size() == self.size() + elems.len(),
        decreases elems.len(),
    {
        if elems.len() > 0 {
            let front = elems.drop_last();
            let last = elems.last();
            self.lemma_distinct_inserts_grow(front);
            self.lemma_inserted_all(front);
            assert(!front.to_set().contains(last)) by {
                if front.contains(last) {
                    let i = choose|i: int| 0 <= i < front.len() && front[i] == last;
                    assert(elems[i] == elems[elems.len() - 1]);
                }
            }
            assert(!self.keys().contains(elems[elems.len() - 1]));
            self.inserted_all(front).lemma_inserted(last);
        }
    }

    /// After a sequence of keys without duplicates has been inserted into an
    /// empty tree, the tree has as many nodes as the sequence has keys.
    pub proof fn lemma_distinct_inserts_count(elems: Seq<i32>)
        requires
            elems.no_duplicates(),
        ensures
            Link::Empty.inserted_all(elems).size() == elems.len(),
    {
        Link::Empty.lemma_distinct_inserts_grow(elems);
    }

    /// An ordered subtree holds each of its keys once: its key set is finite
    /// and has as many elements as the subtree has nodes.
    pub proof fn lemma_keys_len(self)
        requires
            self.is_bst(),
        ensures
            self.keys().finite(),
            self.keys().len() == self.size(),
        decreases self,
    {
        match self {
            Link::Empty => {},
            Link::More(node) => {
                node.left.lemma_keys_len();
                node.right.lemma_keys_len();
                let below = node.left.keys().union(node.right.keys());
                assert(node.left.keys().disjoint(node.right.keys())) by {
                    assert forall|k: i32| node.left.keys().contains(k) implies !node.right.keys().contains(
                        k,
                    ) by {}
                }
                lemma_set_disjoint_lens(node.left.keys(), node.right.keys());
                assert(!below.contains(node.elem));
            },
        }
    }

    /// An ordered subtree whose keys all lie strictly between `lo` and `hi`
    /// has no more nodes than there are integers strictly between the two.
    pub proof fn lemma_size_within(self, lo: int, hi: int)
        requires
            self.is_bst(),
            lo < hi,
            forall|k: i32| self.keys().contains(k) ==> lo < k < hi,
        ensures
            self.size() <= hi - lo - 1,
        decreases self,
    {
        match self {
            Link::Empty => {},
            Link::More(node) => {
                assert(self.keys().contains(node.elem));
                assert forall|k: i32| node.left.keys().contains(k) implies lo < k < node.elem by {
                    assert(self.keys().contains(k));
                }
                assert forall|k: i32| node.right.keys().contains(k) implies node.elem < k < hi by {
                    assert(self.keys().contains(k));
                }
                node.left.lemma_size_within(lo, node.elem as int);
                node.right.lemma_size_within(node.elem as int, hi);
            },
        }
    }

    /// An ordered subtree has at most as many nodes as there are `i32` values.
    pub proof fn lemma_size_at_most(self)
        requires
            self.is_bst(),
        ensures
            self.size() <= 0x1_0000_0000,
    {
        self.lemma_size_within(i32::MIN - 1, i32::MAX + 1);
    }
}

/// The elements of a non-empty sequence are those of its front together with
/// its last element.
proof fn lemma_to_set_drop_last(elems: Seq<i32>)
    requires
        elems.len() > 0,
    ensures
        elems.to_set() =~= elems.drop_last().to_set().insert(elems.last()),
{
    let front = elems.drop_last();
    let last = elems.last();
    assert forall|k: i32| elems.to_set().contains(k) implies front.to_set().insert(last).contains(
        k,
    ) by {
        let i = choose|i: int| 0 <= i < elems.len() && elems[i] == k;
        if i < elems.len() - 1 {
            assert(front[i] == k);
        }
    }
    assert forall|k: i32| front.to_set().insert(last).contains(k) implies elems.to_set().contains(
        k,
    ) by {
        if k == last {
            assert(elems[elems.len() - 1] == k);
        } else {
            let i = choose|i: int| 0 <= i < front.len() && front[i] == k;
            assert(elems[i] == k);
        }
    }
}

} // verus!
