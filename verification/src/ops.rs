//! The operations on nodes: bookkeeping, rotations, the rebalancer, search, insertion and
//! deletion.

use crate::balance::{lemma_rebalanced, lemma_rotated_left, lemma_rotated_left_heights,
    lemma_rotated_right, lemma_rotated_right_heights, lemma_settled};
use crate::insertion::{lemma_inserted, lemma_sound_below};
use crate::node::{balanced, cached, height_of, inorder_of, lemma_cached_root, lemma_search_step,
    ordered, sound, stored_height, values_of, Node};
use crate::order::{lemma_trichotomy, less, total_order};
use crate::removal::{lemma_detach_step, lemma_removed, lemma_splice_step, lemma_spliced,
    lemma_without_leftmost};
use crate::shape::{grafted, inserted, joined, leaf, leftmost, pruned, rebalanced, removed,
    rotated_left, rotated_right, settled, spliced, with_left, with_right, without_leftmost};
use vstd::prelude::*;

verus! {

impl<T: PartialOrd + PartialEq> Node<T> {
    /// Builds the node that holds `value` above `left` and `right`, with its height and
    /// balance factor computed from the heights that the two subtrees cache.
    pub fn new_node(value: T, left: Option<Box<Node<T>>>, right: Option<Box<Node<T>>>) -> (r:
        Option<Box<Node<T>>>)
        requires
            stored_height(left) < i32::MAX,
            stored_height(right) < i32::MAX,
        ensures
            r == Some(Box::new(joined(value, left, right))),
            cached(left) && cached(right) ==> cached(r),
    {
        proof {
            if cached(left) && cached(right) {
                let raw = Node { value, left, right, height: 0, balance_factor: 0 };
                lemma_cached_root(left);
                lemma_cached_root(right);
                lemma_settled(raw);
            }
        }
        let mut new_node = Box::new(Node { value, left, right, height: 0, balance_factor: 0 });
        new_node.update_height();
        Some(new_node)
    }

    /// Hangs a new leaf holding `value` in the place of the left subtree.
    pub fn add_left(&mut self, value: T)
        ensures
            *final(self) == with_left(*old(self), leaf(value)),
    {
        self.left = Node::new_node(value, None, None)
    }

    /// Hangs a new leaf holding `value` in the place of the right subtree.
    pub fn add_right(&mut self, value: T)
        ensures
            *final(self) == with_right(*old(self), leaf(value)),
    {
        self.right = Node::new_node(value, None, None)
    }

    /// Recomputes the cached height and balance factor from the heights the children cache.
    pub fn update_height(&mut self)
        requires
            stored_height(old(self).left) < i32::MAX,
            stored_height(old(self).right) < i32::MAX,
        ensures
            *final(self) == settled(*old(self)),
    {
        let left_part: u32 = match &self.left {
            None => 0,
            Some(v) => v.height + 1,
        };
        let right_part: u32 = match &self.right {
            None => 0,
            Some(v) => v.height + 1,
        };
        self.height = if left_part >= right_part {
            left_part
        } else {
            right_part
        };
        self.balance_factor = self.get_balance_factor();
    }

    /// Height of the right subtree minus height of the left one, as the children cache them,
    /// an absent child counting -1.
    pub fn get_balance_factor(&self) -> (bf: i32)
        requires
            stored_height(self.left) < i32::MAX,
            stored_height(self.right) < i32::MAX,
        ensures
            bf == stored_height(self.right) - stored_height(self.left),
    {
        match (&self.left, &self.right) {
            (None, None) => 0,
            (None, Some(right)) => (right.height as i32) + 1,
            (Some(left), None) => -(left.height as i32) - 1,
            (Some(left), Some(right)) => (right.height as i32) - (left.height as i32),
        }
    }

    /// Left rotation about this node: its right child comes up and the node goes down to the
    /// left, taking over the child's former left subtree. `None` where there is no right child.
    pub fn left_rotation(self) -> (r: Option<Box<Node<T>>>)
        requires
            stored_height(self.left) + 1 < i32::MAX,
            self.right matches Some(right) ==> stored_height(right.left) + 1 < i32::MAX
                && stored_height(right.right) < i32::MAX,
        ensures
            r == rotated_left(self),
            r is Some <==> self.right is Some,
            r is Some ==> values_of(r) == values_of(self.tree()) && inorder_of(r) == inorder_of(
                self.tree(),
            ),
            r is Some && cached(self.left) && cached(self.right) ==> cached(r),
            r is Some && total_order::<T>() && ordered(self.tree()) ==> ordered(r),
    {
        proof {
            if self.right is Some {
                lemma_rotated_left(self);
                if cached(self.left) && cached(self.right) {
                    lemma_cached_root(self.left);
                    lemma_cached_root(self.right);
                    lemma_cached_root(self.right.unwrap().left);
                    lemma_cached_root(self.right.unwrap().right);
                    lemma_rotated_left_heights(self);
                }
            }
        }
        let mut node = self;
        if let Some(mut right) = node.right.take() {
            node.right = right.left.take();
            node.update_height();
            right.left = Some(Box::new(node));
            right.update_height();
            return Some(right);
        }
        None
    }

    /// Right rotation about this node, the mirror image of `left_rotation`.
    pub fn right_rotation(self) -> (r: Option<Box<Node<T>>>)
        requires
            stored_height(self.right) + 1 < i32::MAX,
            self.left matches Some(left) ==> stored_height(left.right) + 1 < i32::MAX
                && stored_height(left.left) < i32::MAX,
        ensures
            r == rotated_right(self),
            r is Some <==> self.left is Some,
            r is Some ==> values_of(r) == values_of(self.tree()) && inorder_of(r) == inorder_of(
                self.tree(),
            ),
            r is Some && cached(self.left) && cached(self.right) ==> cached(r),
            r is Some && total_order::<T>() && ordered(self.tree()) ==> ordered(r),
    {
        proof {
            if self.left is Some {
                lemma_rotated_right(self);
                if cached(self.left) && cached(self.right) {
                    lemma_cached_root(self.left);
                    lemma_cached_root(self.right);
                    lemma_cached_root(self.left.unwrap().left);
                    lemma_cached_root(self.left.unwrap().right);
                    lemma_rotated_right_heights(self);
                }
            }
        }
        let mut node = self;
        if let Some(mut left) = node.left.take() {
            node.left = left.right.take();
            node.update_height();
            left.right = Some(Box::new(node));
            left.update_height();
            return Some(left);
        }
        None
    }

    /// The rebalancer. Called on a node that was just settled, it returns the node itself
    /// where its balance factor is -1, 0 or 1. Where it is -2 the node is rotated right,
    /// after its left child was rotated left if that child leans right; where it is 2, the
    /// mirror image. The values and their order stay; the result is at most one level
    /// shorter, and balanced where both subtrees were.
    pub fn rotate(self) -> (r: Option<Box<Node<T>>>)
        requires
            cached(self.tree()),
            -2 <= self.balance_factor <= 2,
            height_of(self.tree()) < i32::MAX,
        ensures
            r == rebalanced(self),
            r is Some,
            cached(r),
            values_of(r) == values_of(self.tree()),
            inorder_of(r) == inorder_of(self.tree()),
            height_of(self.tree()) - 1 <= height_of(r) <= height_of(self.tree()),
            -1 <= self.balance_factor <= 1 ==> r == self.tree(),
            balanced(self.left) && balanced(self.right) ==> balanced(r),
            total_order::<T>() && ordered(self.tree()) ==> ordered(r),
    {
        proof {
            lemma_cached_root(self.tree());
            lemma_cached_root(self.left);
            lemma_cached_root(self.right);
            lemma_rebalanced(self);
        }
        let mut node = self;
        if node.balance_factor == -2 {
            match node.left.take() {
                None => vstd::pervasive::unreached(),
                Some(left) => {
                    proof {
                        lemma_cached_root(left.left);
                        lemma_cached_root(left.right);
                    }
                    if left.balance_factor > 0 {
                        node.left = left.left_rotation();
                        node.right_rotation()
                    } else {
                        node.left = Some(left);
                        node.right_rotation()
                    }
                },
            }
        } else if node.balance_factor == 2 {
            match node.right.take() {
                None => vstd::pervasive::unreached(),
                Some(right) => {
                    proof {
                        lemma_cached_root(right.left);
                        lemma_cached_root(right.right);
                    }
                    if right.balance_factor < 0 {
                        node.right = right.right_rotation();
                        node.left_rotation()
                    } else {
                        node.right = Some(right);
                        node.left_rotation()
                    }
                },
            }
        } else {
            Some(Box::new(node))
        }
    }

    /// Whether `value` is held by this node or below it.
    pub fn contains(&self, value: T) -> (found: bool)
        requires
            total_order::<T>(),
            ordered(self.tree()),
        ensures
            found == values_of(self.tree()).contains(value),
        decreases self,
    {
        proof {
            lemma_search_step(*self, value);
            lemma_trichotomy(value, self.value);
        }
        if value == self.value {
            true
        } else if value < self.value {
            match &self.left {
                None => false,
                Some(left) => left.contains(value),
            }
        } else {
            match &self.right {
                None => false,
                Some(right) => right.contains(value),
            }
        }
    }

    /// Inserts `value` below this node and returns the subtree that takes the node's place:
    /// the value goes into the subtree on its side, and the node is settled and rebalanced
    /// on the way back. A value that is present already leaves the subtree as it is.
    pub fn insert(self, value: T) -> (r: Option<Box<Node<T>>>)
        requires
            total_order::<T>(),
            sound(self.tree()),
            height_of(self.tree()) + 1 < i32::MAX,
        ensures
            r == inserted(self, value),
            r is Some,
            sound(r),
            values_of(r) == values_of(self.tree()).insert(value),
            height_of(self.tree()) <= height_of(r) <= height_of(self.tree()) + 1,
            values_of(self.tree()).contains(value) ==> r == self.tree(),
        decreases self,
    {
        proof {
            lemma_trichotomy(value, self.value);
            lemma_sound_below(self);
            lemma_inserted(self, value);
        }
        let mut node = self;
        if value < node.value {
            match node.left.take() {
                None => node.add_left(value),
                Some(boxed) => {
                    node.left = boxed.insert(value);
                },
            }
        } else if value > node.value {
            match node.right.take() {
                None => node.add_right(value),
                Some(boxed) => {
                    node.right = boxed.insert(value);
                },
            }
        };
        assert(node == grafted(self, value));
        node.update_height();
        node.rotate()
    }

    /// Deletes `value` from below this node and returns the subtree that takes the node's
    /// place. The node looks one level ahead: a child that holds `value` is spliced out here;
    /// otherwise the search goes on in the child on `value`'s side. The node is settled and
    /// rebalanced on the way back. A value that is not there, and the node's own value,
    /// leave the subtree as it is.
    pub fn delete(self, value: T) -> (r: Option<Box<Node<T>>>)
        requires
            total_order::<T>(),
            sound(self.tree()),
            height_of(self.tree()) < i32::MAX,
        ensures
            r == removed(self, value),
            r is Some,
            sound(r),
            value != self.value ==> values_of(r) == values_of(self.tree()).remove(value),
            height_of(self.tree()) - 1 <= height_of(r) <= height_of(self.tree()),
            value == self.value || !values_of(self.tree()).contains(value) ==> r == self.tree(),
        decreases self,
    {
        proof {
            lemma_trichotomy(value, self.value);
            lemma_sound_below(self);
            lemma_removed(self, value);
        }
        let mut node = self;
        let right_holds = match &node.right {
            None => false,
            Some(right) => {
                proof {
                    lemma_trichotomy(value, right.value);
                }
                value == right.value
            },
        };
        let left_holds = match &node.left {
            None => false,
            Some(left) => {
                proof {
                    lemma_trichotomy(value, left.value);
                }
                value == left.value
            },
        };
        if right_holds {
            node.right = Node::delete_by_node(node.right.take());
        } else if left_holds {
            node.left = Node::delete_by_node(node.left.take());
        } else if value < node.value {
            match node.left.take() {
                None => {},
                Some(left) => {
                    node.left = left.delete(value);
                },
            }
        } else if value > node.value {
            match node.right.take() {
                None => {},
                Some(right) => {
                    node.right = right.delete(value);
                },
            }
        }
        assert(node == pruned(self, value));
        node.update_height();
        node.rotate()
    }

    /// Removes the root of `node` and returns what takes its place: nothing for a leaf, the
    /// only child where there is one, and otherwise the smallest value of the right subtree,
    /// detached and put above what is left of both subtrees, each settled and rebalanced.
    pub fn delete_by_node(node: Option<Box<Node<T>>>) -> (r: Option<Box<Node<T>>>)
        requires
            total_order::<T>(),
            sound(node),
            height_of(node) < i32::MAX,
        ensures
            r == spliced(node),
            sound(r),
            node matches Some(d) ==> values_of(r) == values_of(node).remove(d.value),
            node is None ==> r is None,
            height_of(node) - 1 <= height_of(r) <= height_of(node),
    {
        proof {
            if node is Some {
                lemma_spliced(node);
            }
        }
        match node {
            None => None,
            Some(boxed) => {
                let to_delete = *boxed;
                match (to_delete.left, to_delete.right) {
                    (None, right) => right,
                    (left, None) => left,
                    (left, Some(mut right)) => {
                        proof {
                            lemma_splice_step(*node.unwrap());
                        }
                        match right.delete_get_leftmost() {
                            None => {
                                right.left = left;
                                right.update_height();
                                right.rotate()
                            },
                            Some(mut new_node) => {
                                right.update_height();
                                let right = right.rotate();
                                new_node.right = right;
                                new_node.left = left;
                                new_node.update_height();
                                new_node.rotate()
                            },
                        }
                    },
                }
            },
        }
    }

    /// Detaches the smallest value below the left child of this node and returns it as a
    /// leaf of its own, `None` where there is no left child. The right child of the detached
    /// node takes its place, and every node between it and this one is settled and
    /// rebalanced on the way back up; this node itself is left to the caller.
    pub fn delete_get_leftmost(&mut self) -> (r: Option<Box<Node<T>>>)
        requires
            total_order::<T>(),
            sound(old(self).tree()),
            height_of(old(self).tree()) < i32::MAX,
        ensures
            r == leftmost(*old(self)),
            *final(self) == without_leftmost(*old(self)),
            r is Some <==> old(self).left is Some,
            *final(self) == with_left(*old(self), final(self).left),
            sound(final(self).left),
            height_of(old(self).left) - 1 <= height_of(final(self).left) <= height_of(
                old(self).left,
            ),
            r matches Some(m) ==> {
                &&& r == leaf(m.value)
                &&& values_of(old(self).left).contains(m.value)
                &&& values_of(final(self).left) == values_of(old(self).left).remove(m.value)
                &&& forall|x: T| #[trigger]
                    values_of(old(self).left).contains(x) ==> x == m.value || less(m.value, x)
            },
        decreases *old(self),
    {
        proof {
            lemma_detach_step(*self);
            lemma_sound_below(*self);
            if self.left is Some {
                lemma_without_leftmost(*self);
            }
        }
        match self.left.take() {
            None => None,
            Some(mut left) => {
                proof {
                    lemma_detach_step(*left);
                }
                match left.delete_get_leftmost() {
                    None => {
                        self.left = left.right.take();
                        left.update_height();
                        Some(left)
                    },
                    Some(min) => {
                        left.update_height();
                        self.left = left.rotate();
                        Some(min)
                    },
                }
            },
        }
    }
}

} // verus!
