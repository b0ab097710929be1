//! The tree handle and its public operations.

use crate::insertion::{lemma_leaf, lemma_tree_inserted};
use crate::iter::{BSTConsumingIter, BSTRefIter};
use crate::laws::{lemma_height_fits, lemma_values_counted};
use crate::node::{height_of, inorder_of, valid, values_of, Node};
use crate::order::{lemma_trichotomy, total_order};
use crate::removal::lemma_tree_removed;
use crate::shape::{tree_inserted, tree_removed};
use vstd::prelude::*;

verus! {

/// A set of values of a totally ordered type, kept in a height-balanced binary search tree.
#[derive(Debug, PartialEq)]
pub struct BST<T: PartialOrd + PartialEq> {
    pub root: Option<Box<Node<T>>>,
}

impl<T: PartialOrd + PartialEq> View for BST<T> {
    type V = Set<T>;

    /// The set of values that the tree holds.
    open spec fn view(&self) -> Set<T> {
        values_of(self.root)
    }
}

impl<T: PartialOrd + PartialEq> Default for BST<T> {
    fn default() -> (tree: Self)
        ensures
            tree.root is None,
            tree.wf(),
            tree@ == Set::<T>::empty(),
    {
        Self::new()
    }
}

impl<T: PartialOrd + PartialEq> BST<T> {
    /// The tree is in search-tree order, every node's subtrees differ in height by at most
    /// one, every node caches its true height and balance factor, and the tree is no taller
    /// than `MAX_HEIGHT`.
    pub open spec fn wf(&self) -> bool {
        valid(self.root)
    }

    /// The values of the tree in ascending order.
    pub open spec fn inorder(&self) -> Seq<T> {
        inorder_of(self.root)
    }

    /// The height of the tree: -1 where it is empty, 0 where it holds one value.
    pub open spec fn height(&self) -> int {
        height_of(self.root)
    }

    /// The empty tree.
    pub fn new() -> (tree: BST<T>)
        ensures
            tree.root is None,
            tree.wf(),
            tree@ == Set::<T>::empty(),
    {
        BST { root: None }
    }

    /// Adds `value` to the set. The tree is rebalanced on the way back up from where the
    /// value went in; a value that is present already changes nothing.
    pub fn insert(&mut self, value: T)
        requires
            total_order::<T>(),
            old(self).wf(),
            old(self)@.len() < usize::MAX,
        ensures
            final(self).wf(),
            final(self)@ == old(self)@.insert(value),
            final(self).root == tree_inserted(old(self).root, value),
            old(self)@.contains(value) ==> *final(self) == *old(self),
            old(self).height() <= final(self).height() <= old(self).height() + 1,
    {
        proof {
            lemma_tree_inserted(self.root, value);
            lemma_leaf(value);
            lemma_values_counted(self.root);
            lemma_values_counted(tree_inserted(self.root, value));
            lemma_height_fits(tree_inserted(self.root, value));
        }
        match self.root.take() {
            None => self.root = Node::new_node(value, None, None),
            Some(root_node) => self.root = root_node.insert(value),
        };
    }

    /// Whether `value` is in the set.
    pub fn contains(&self, value: T) -> (found: bool)
        requires
            total_order::<T>(),
            self.wf(),
        ensures
            found == self@.contains(value),
    {
        match &self.root {
            None => false,
            Some(root) => root.contains(value),
        }
    }

    /// Takes `value` out of the set. The tree is rebalanced on the way back up from where
    /// the value was; a value that is not present changes nothing.
    pub fn delete(&mut self, value: T)
        requires
            total_order::<T>(),
            old(self).wf(),
        ensures
            final(self).wf(),
            final(self)@ == old(self)@.remove(value),
            final(self).root == tree_removed(old(self).root, value),
            !old(self)@.contains(value) ==> *final(self) == *old(self),
            old(self).height() - 1 <= final(self).height() <= old(self).height(),
    {
        proof {
            lemma_tree_removed(self.root, value);
        }
        match self.root.take() {
            None => {},
            Some(root) => {
                proof {
                    lemma_trichotomy(value, root.value);
                }
                if value == root.value {
                    self.root = Node::delete_by_node(Some(root));
                } else {
                    self.root = root.delete(value);
                }
            },
        }
    }

    /// Walks the tree in ascending order, by reference.
    pub fn iter(&self) -> (it: BSTRefIter<'_, T>)
        ensures
            it@ == self.inorder(),
    {
        BSTRefIter::new(self)
    }

    /// Walks the tree in ascending order, by value, taking it apart.
    pub fn into_iter(self) -> (it: BSTConsumingIter<T>)
        ensures
            it@ == self.inorder(),
    {
        BSTConsumingIter::new(self)
    }
}

} // verus!
