//! The recursive link structure: a slot that is either empty or owns one node,
//! with insertion and search by descent.

use vstd::prelude::*;

verus! {

/// A tree element: one key and two child slots.
#[derive(Debug)]
pub struct Node {
    pub elem: i32,
    pub left: Link,
    pub right: Link,
}

/// A slot that is either vacant or exclusively owns one node.
///
/// In executable code `==` on links compares root keys only, see
/// [`Link::same_root_key`]. In contracts `==` is equality of the whole
/// subtree.
#[derive(Debug)]
pub enum Link {
    Empty,
    More(Box<Node>),
}

impl Link {
    /// The set of keys stored in the subtree that hangs from this slot.
    pub open spec fn keys(self) -> Set<i32>
        decreases self,
    {
        match self {
            Link::Empty => Set::empty(),
            Link::More(node) => node.left.keys().union(node.right.keys()).insert(node.elem),
        }
    }

    /// The number of nodes in the subtree that hangs from this slot.
    pub open spec fn size(self) -> nat
        decreases self,
    {
        match self {
            Link::Empty => 0,
            Link::More(node) => 1 + node.left.size() + node.right.size(),
        }
    }

    /// The ordering invariant: at every node, each key of the left subtree is
    /// strictly less than the node's key and each key of the right subtree is
    /// strictly greater. It rules out duplicate keys.
    pub open spec fn is_bst(self) -> bool
        decreases self,
    {
        match self {
            Link::Empty => true,
            Link::More(node) => {
                &&& node.left.is_bst()
                &&& node.right.is_bst()
                &&& forall|k: i32| node.left.keys().contains(k) ==> k < node.elem
                &&& forall|k: i32| node.right.keys().contains(k) ==> k > node.elem
            },
        }
    }

    /// The key of the node in this slot, if there is one.
    pub open spec fn root_key(self) -> Option<i32> {
        match self {
            Link::Empty => None,
            Link::More(node) => Some(node.elem),
        }
    }

    /// A slot that holds a single node with key `elem` and no children.
    pub open spec fn leaf(elem: i32) -> Link {
        Link::More(Box::new(Node { elem, left: Link::Empty, right: Link::Empty }))
    }

    /// The subtree after `elem` has been offered to it: a new leaf hangs from
    /// the vacant slot that descent reaches, or nothing changes when descent
    /// meets a node that already holds `elem`.
    pub open spec fn inserted(self, elem: i32) -> Link
        decreases self,
    {
        match self {
            Link::Empty => Link::leaf(elem),
            Link::More(node) => if elem < node.elem {
                Link::More(
                    Box::new(
                        Node {
                            elem: node.elem,
                            left: node.left.inserted(elem),
                            right: node.right,
                        },
                    ),
                )
            } else if elem > node.elem {
                Link::More(
                    Box::new(
                        Node {
                            elem: node.elem,
                            left: node.left,
                            right: node.right.inserted(elem),
                        },
                    ),
                )
            } else {
                self
            },
        }
    }

    /// Whether `other` is this subtree with one of its vacant slots filled by
    /// a leaf that holds `elem`, and nothing else changed.
    pub open spec fn extended_by_leaf(self, other: Link, elem: i32) -> bool
        decreases self,
    {
        match self {
            Link::Empty => other == Link::leaf(elem),
            Link::More(node) => match other {
                Link::Empty => false,
                Link::More(grown) => {
                    &&& grown.elem == node.elem
                    &&& {
                        ||| (node.left.extended_by_leaf(grown.left, elem) && grown.right == node.right)
                        ||| (grown.left == node.left && node.right.extended_by_leaf(grown.right, elem))
                    }
                },
            },
        }
    }

    /// The subtree after the keys of `elems` have been offered to it one by
    /// one, first to last.
    pub open spec fn inserted_all(self, elems: Seq<i32>) -> Link
        decreases elems.len(),
    {
        if elems.len() == 0 {
            self
        } else {
            self.inserted_all(elems.drop_last()).inserted(elems.last())
        }
    }

    /// Inserts `elem` below this slot and reports whether a node was added.
    ///
    /// Descent compares `elem` with the key of each node it visits: it goes
    /// left when `elem` is less, right when it is greater, and stops with
    /// `false` when the two are equal, leaving the subtree as it was. When it
    /// reaches a vacant slot it fills the slot with a new leaf and returns
    /// `true`.
    ///
    /// The descent is recursive and as deep as the subtree, which is not
    /// balanced: keys offered in increasing or in decreasing order build a
    /// subtree as deep as it has nodes, and a very deep one can exhaust the
    /// stack.
    pub fn insert(&mut self, elem: i32) -> (added: bool)
        requires
            old(self).is_bst(),
        ensures
            added == !old(self).keys().contains(elem),
            *final(self) == old(self).inserted(elem),
            final(self).is_bst(),
            final(self).keys() == old(self).keys().insert(elem),
            final(self).size() == old(self).size() + if added { 1nat } else { 0nat },
            !added ==> *final(self) == *old(self),
        decreases *old(self),
    {
        proof {
            old(self).lemma_inserted(elem);
        }
        match self {
            Link::Empty => {
                let new_node = Box::new(Node { elem, left: Link::Empty, right: Link::Empty });
                *self = Link::More(new_node);
                true
            },
            Link::More(node) => {
                if node.elem > elem {
                    node.left.insert(elem)
                } else if node.elem < elem {
                    node.right.insert(elem)
                } else {
                    false
                }
            },
        }
    }

    /// Whether some node below this slot holds `elem`.
    ///
    /// Descent follows the same comparisons as [`Link::insert`] and is as deep
    /// as the subtree.
    pub fn search(&self, elem: i32) -> (found: bool)
        requires
            self.is_bst(),
        ensures
            found == self.keys().contains(elem),
        decreases self,
    {
        match self {
            Link::Empty => false,
            Link::More(node) => {
                if node.elem > elem {
                    assert(!node.right.keys().contains(elem));
                    node.left.search(elem)
                } else if node.elem < elem {
                    assert(!node.left.keys().contains(elem));
                    node.right.search(elem)
                } else {
                    true
                }
            },
        }
    }

    /// Shallow comparison: two slots agree when both are vacant, or both hold
    /// a node and the two nodes carry the same key. Children are not looked
    /// at, so this is not structural equality.
    pub fn same_root_key(&self, other: &Link) -> (same: bool)
        ensures
            same == (self.root_key() == other.root_key()),
    {
        match (self, other) {
            (Link::Empty, Link::Empty) => true,
            (Link::More(a), Link::More(b)) => a.elem == b.elem,
            _ => false,
        }
    }
}

/// `==` on links is the shallow comparison of [`Link::same_root_key`].
impl PartialEq for Link {
    fn eq(&self, other: &Link) -> (same: bool) {
        self.same_root_key(other)
    }
}

impl vstd::std_specs::cmp::PartialEqSpecImpl for Link {
    open spec fn obeys_eq_spec() -> bool {
        true
    }

    open spec fn eq_spec(&self, other: &Link) -> bool {
        self.root_key() == other.root_key()
    }
}

} // verus!
