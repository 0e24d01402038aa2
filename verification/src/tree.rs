//! The tree container: a root slot together with a count of its nodes.

use vstd::prelude::*;
use crate::link::Link;

verus! {

/// A binary search tree of unique `i32` keys.
///
/// Its view is the tree of nodes that hangs from the root. Every value of
/// this type is ordered and carries the exact number of its nodes.
#[derive(Debug)]
pub struct BST {
    root: Link,
    num_nodes: u64,
}

impl View for BST {
    type V = Link;

    closed spec fn view(&self) -> Link {
        self.root
    }
}

impl BST {
    /// What holds of every tree: the nodes are ordered, and the stored count
    /// is the number of nodes reachable from the root.
    #[verifier::type_invariant]
    pub closed spec fn well_formed(self) -> bool {
        &&& self.root.is_bst()
        &&& self.num_nodes == self.root.size()
    }

    /// An empty tree: no root node, no keys, a count of zero.
    pub fn new() -> (tree: BST)
        ensures
            tree@ == Link::Empty,
            tree@.keys() == Set::<i32>::empty(),
            tree@.size() == 0,
    {
        BST { root: Link::Empty, num_nodes: 0 }
    }

    /// Inserts `elem` and returns `true`, or returns `false` and leaves the
    /// tree unchanged when `elem` is already stored.
    pub fn insert(&mut self, elem: i32) -> (added: bool)
        ensures
            added == !old(self)@.keys().contains(elem),
            final(self)@ == old(self)@.inserted(elem),
            final(self)@.is_bst(),
            final(self)@.keys() == old(self)@.keys().insert(elem),
            final(self)@.size() == old(self)@.size() + if added { 1nat } else { 0nat },
            !added ==> *final(self) == *old(self),
    {
        // The tree is moved out while it is worked on, so that `self` holds a
        // consistent tree at every point, also between the insertion and the
        // update of the count.
        let mut tree = BST::new();
        core::mem::swap(self, &mut tree);
        proof {
            use_type_invariant(&tree);
            tree.root.lemma_size_at_most();
        }
        let BST { mut root, num_nodes } = tree;
        match root.insert(elem) {
            true => {
                *self = BST { root, num_nodes: num_nodes + 1 };
                true
            },
            false => {
                *self = BST { root, num_nodes };
                false
            },
        }
    }

    /// A well-formed tree is ordered: at every node the keys to the left are
    /// strictly less and the keys to the right strictly greater.
    pub proof fn lemma_well_formed(self)
        requires
            self.well_formed(),
        ensures
            self@.is_bst(),
    {
    }

    /// Whether some node of the tree holds `elem`.
    pub fn search(&self, elem: i32) -> (found: bool)
        ensures
            found == self@.keys().contains(elem),
    {
        proof {
            use_type_invariant(self);
        }
        self.root.search(elem)
    }

    /// The number of nodes in the tree, which is the number of keys it holds.
    pub fn num_nodes(&self) -> (count: u64)
        ensures
            count == self@.size(),
            count == self@.keys().len(),
    {
        proof {
            use_type_invariant(self);
            self.root.lemma_keys_len();
        }
        self.num_nodes
    }

    /// The slot from which the whole tree hangs.
    pub fn root(&self) -> (root: &Link)
        ensures
            *root == self@,
            root.is_bst(),
    {
        proof {
            use_type_invariant(self);
        }
        &self.root
    }
}

} // verus!
