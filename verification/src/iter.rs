//! In-order traversal, one value per call, over an explicit stack of pending work.

use crate::node::{count_of, inorder_of, Node};
use crate::tree::BST;
use vstd::prelude::*;

verus! {

/// An entry of the borrowing traversal's stack: a subtree that is still to be walked, or a
/// value whose left subtree was walked already.
pub enum StackRefMember<'a, T: PartialOrd + PartialEq> {
    Node(&'a Node<T>),
    Visited(&'a T),
}

/// The values that one stack entry stands for, in the order they come out.
pub open spec fn entry_yield<T: PartialOrd + PartialEq>(entry: StackRefMember<T>) -> Seq<T> {
    match entry {
        StackRefMember::Node(n) => inorder_of(n.tree()),
        StackRefMember::Visited(v) => seq![*v],
    }
}

/// The values that a stack stands for, in the order they come out: the top entry, which is
/// the last one, comes first.
pub open spec fn stack_yield<T: PartialOrd + PartialEq>(stack: Seq<StackRefMember<T>>) -> Seq<T>
    decreases stack.len(),
{
    if stack.len() == 0 {
        Seq::empty()
    } else {
        entry_yield(stack.last()) + stack_yield(stack.drop_last())
    }
}

/// An upper bound on the stack operations that are left before the stack is empty.
pub open spec fn stack_effort<T: PartialOrd + PartialEq>(stack: Seq<StackRefMember<T>>) -> nat
    decreases stack.len(),
{
    if stack.len() == 0 {
        0
    } else {
        stack_effort(stack.drop_last()) + match stack.last() {
            StackRefMember::Node(n) => 2 * count_of(n.tree()),
            StackRefMember::Visited(_) => 1,
        }
    }
}

/// In-order traversal of a tree by reference.
pub struct BSTRefIter<'a, T: PartialOrd + PartialEq> {
    stack: Vec<StackRefMember<'a, T>>,
}

impl<'a, T: PartialOrd + PartialEq> View for BSTRefIter<'a, T> {
    type V = Seq<T>;

    /// The values that the traversal has yet to yield, in the order they will come.
    closed spec fn view(&self) -> Seq<T> {
        stack_yield(self.stack@)
    }
}

impl<'a, T: PartialOrd + PartialEq> BSTRefIter<'a, T> {
    /// The traversal of `bst` from its start.
    pub fn new(bst: &'a BST<T>) -> (it: BSTRefIter<'a, T>)
        ensures
            it@ == bst.inorder(),
    {
        let mut stack = Vec::new();
        if let Some(root) = &bst.root {
            stack.push(StackRefMember::Node(root));
            proof {
                lemma_pushed(Seq::empty(), StackRefMember::Node(&**root));
                assert(stack@ =~= Seq::empty().push(StackRefMember::Node(&**root)));
                assert(stack_yield(stack@) =~= inorder_of(bst.root));
            }
        }
        BSTRefIter { stack }
    }

    /// The next value in ascending order, or `None` once every value was yielded.
    pub fn next(&mut self) -> (r: Option<&'a T>)
        ensures
            old(self)@.len() == 0 ==> r is None && final(self)@ == old(self)@,
            old(self)@.len() > 0 ==> r == Some(&old(self)@[0]) && final(self)@ == old(self)@.skip(
                1,
            ),
    {
        loop
            invariant
                stack_yield(self.stack@) == stack_yield(old(self).stack@),
            decreases stack_effort(self.stack@),
        {
            let ghost before = self.stack@;
            match self.stack.pop() {
                None => {
                    return None;
                },
                Some(stack_member) => {
                    assert(before.drop_last() == self.stack@);
                    match stack_member {
                        StackRefMember::Visited(value) => {
                            assert(stack_yield(before) == seq![*value] + stack_yield(
                                self.stack@,
                            ));
                            assert(stack_yield(self.stack@) =~= stack_yield(before).skip(1));
                            return Some(value);
                        },
                        StackRefMember::Node(node) => {
                            let ghost rest = self.stack@;
                            if let Some(right) = &node.right {
                                self.stack.push(StackRefMember::Node(right));
                                proof {
                                    lemma_pushed(rest, StackRefMember::Node(&**right));
                                }
                            }
                            let ghost upper = self.stack@;
                            self.stack.push(StackRefMember::Visited(&node.value));
                            proof {
                                lemma_pushed(upper, StackRefMember::Visited(&node.value));
                            }
                            let ghost middle = self.stack@;
                            if let Some(left) = &node.left {
                                self.stack.push(StackRefMember::Node(left));
                                proof {
                                    lemma_pushed(middle, StackRefMember::Node(&**left));
                                }
                            }
                            assert(inorder_of(node.tree()) == inorder_of(node.left).push(
                                node.value,
                            ) + inorder_of(node.right));
                            assert(node.left is None ==> inorder_of(node.left) == Seq::<
                                T,
                            >::empty());
                            assert(node.right is None ==> inorder_of(node.right) == Seq::<
                                T,
                            >::empty());
                            assert(stack_yield(self.stack@) =~= inorder_of(node.tree())
                                + stack_yield(rest));
                        },
                    }
                },
            }
        }
    }
}

/// The values that a stack of detached subtrees stands for, in the order they come out:
/// the top subtree, which is the last one, comes first.
pub open spec fn owned_yield<T: PartialOrd + PartialEq>(stack: Seq<Box<Node<T>>>) -> Seq<T>
    decreases stack.len(),
{
    if stack.len() == 0 {
        Seq::empty()
    } else {
        inorder_of(Some(stack.last())) + owned_yield(stack.drop_last())
    }
}

/// The nodes of `link`, those with a left child counted twice.
pub open spec fn descent_of<T: PartialOrd + PartialEq>(link: Option<Box<Node<T>>>) -> nat
    decreases link,
{
    match link {
        None => 0,
        Some(n) => descent_of(n.left) + descent_of(n.right) + if n.left is Some {
            2nat
        } else {
            1nat
        },
    }
}

/// An upper bound on the stack operations that are left before the stack is empty.
pub open spec fn owned_effort<T: PartialOrd + PartialEq>(stack: Seq<Box<Node<T>>>) -> nat
    decreases stack.len(),
{
    if stack.len() == 0 {
        0
    } else {
        owned_effort(stack.drop_last()) + descent_of(Some(stack.last()))
    }
}

/// In-order traversal of a tree by value, which takes the tree apart as it goes.
pub struct BSTConsumingIter<T: PartialOrd + PartialEq> {
    stack: Vec<Box<Node<T>>>,
}

impl<T: PartialOrd + PartialEq> View for BSTConsumingIter<T> {
    type V = Seq<T>;

    /// The values that the traversal has yet to yield, in the order they will come.
    closed spec fn view(&self) -> Seq<T> {
        owned_yield(self.stack@)
    }
}

impl<T: PartialOrd + PartialEq> BSTConsumingIter<T> {
    /// The traversal of `bst` from its start.
    pub fn new(bst: BST<T>) -> (it: BSTConsumingIter<T>)
        ensures
            it@ == bst.inorder(),
    {
        let mut stack = Vec::new();
        if let Some(root) = bst.root {
            stack.push(root);
            proof {
                lemma_owned_pushed(Seq::empty(), root);
                assert(stack@ =~= Seq::empty().push(root));
                assert(owned_yield(stack@) =~= inorder_of(bst.root));
            }
        }
        BSTConsumingIter { stack }
    }

    /// The next value in ascending order, or `None` once every value was yielded.
    pub fn next(&mut self) -> (r: Option<T>)
        ensures
            old(self)@.len() == 0 ==> r is None && final(self)@ == old(self)@,
            old(self)@.len() > 0 ==> r == Some(old(self)@[0]) && final(self)@ == old(self)@.skip(
                1,
            ),
    {
        loop
            invariant
                owned_yield(self.stack@) == owned_yield(old(self).stack@),
            decreases owned_effort(self.stack@),
        {
            let ghost before = self.stack@;
            match self.stack.pop() {
                None => {
                    return None;
                },
                Some(boxed) => {
                    let ghost rest = self.stack@;
                    let mut node = boxed;
                    assert(before.drop_last() == rest);
                    assert(inorder_of(Some(node)) == inorder_of(node.left).push(node.value)
                        + inorder_of(node.right));
                    assert(node.left is None ==> inorder_of(node.left) == Seq::<T>::empty());
                    assert(node.right is None ==> inorder_of(node.right) == Seq::<T>::empty());
                    assert(descent_of(Some(node)) == descent_of(node.left) + descent_of(
                        node.right,
                    ) + if node.left is Some {
                        2nat
                    } else {
                        1nat
                    });
                    match node.left.take() {
                        Some(left) => {
                            assert(inorder_of(Some(node)) == inorder_of(node.left).push(
                                node.value,
                            ) + inorder_of(node.right));
                            assert(descent_of(Some(node)) == descent_of(node.left) + descent_of(
                                node.right,
                            ) + 1);
                            assert(descent_of(node.left) == 0);
                            self.stack.push(node);
                            self.stack.push(left);
                            proof {
                                lemma_owned_pushed(rest, node);
                                lemma_owned_pushed(rest.push(node), left);
                                assert(owned_yield(self.stack@) =~= owned_yield(before));
                            }
                        },
                        None => {
                            if let Some(right) = node.right.take() {
                                self.stack.push(right);
                                proof {
                                    lemma_owned_pushed(rest, right);
                                }
                            };
                            assert(owned_yield(self.stack@) =~= owned_yield(before).skip(1));
                            return Some(node.value);
                        },
                    }
                },
            }
        }
    }
}

/// Pushing a subtree puts its values in front of those of the stack, and adds its effort.
pub proof fn lemma_owned_pushed<T: PartialOrd + PartialEq>(
    stack: Seq<Box<Node<T>>>,
    top: Box<Node<T>>,
)
    ensures
        owned_yield(stack.push(top)) == inorder_of(Some(top)) + owned_yield(stack),
        owned_effort(stack.push(top)) == owned_effort(stack) + descent_of(Some(top)),
{
    assert(stack.push(top).drop_last() =~= stack);
}

/// Pushing an entry puts its values in front of those of the stack, and adds its effort.
pub proof fn lemma_pushed<T: PartialOrd + PartialEq>(
    stack: Seq<StackRefMember<T>>,
    entry: StackRefMember<T>,
)
    ensures
        stack_yield(stack.push(entry)) == entry_yield(entry) + stack_yield(stack),
        stack_effort(stack.push(entry)) == stack_effort(stack) + match entry {
            StackRefMember::Node(n) => 2 * count_of(n.tree()),
            StackRefMember::Visited(_) => 1,
        },
{
    assert(stack.push(entry).drop_last() =~= stack);
}

} // verus!
