//! The nodes of the tree, and the measures and validity predicates of a subtree.

use crate::order::{lemma_trichotomy, less, total_order};
use vstd::prelude::*;

verus! {

/// One node of the tree. It owns both subtrees and caches its own height and balance factor.
#[derive(Debug, PartialEq)]
pub struct Node<T: PartialOrd + PartialEq> {
    pub value: T,
    pub left: Option<Box<Node<T>>>,
    pub right: Option<Box<Node<T>>>,
    /// Length of the longest path down to a leaf; 0 for a leaf.
    pub height: u32,
    /// Height of the right subtree minus height of the left one, an absent subtree counting -1.
    pub balance_factor: i32,
}

/// No valid tree is taller than this: a balanced tree of height `h` holds at least
/// `2^(h/2)` values, and the values of a tree in memory can be counted in a `usize`.
pub const MAX_HEIGHT: u32 = 127;

/// The larger of two integers.
pub open spec fn larger(a: int, b: int) -> int {
    if a >= b {
        a
    } else {
        b
    }
}

/// Length of the longest path from the root of `link` down to a leaf; -1 for the empty tree.
pub open spec fn height_of<T: PartialOrd + PartialEq>(link: Option<Box<Node<T>>>) -> int
    decreases link,
{
    match link {
        None => -1,
        Some(n) => 1 + larger(height_of(n.left), height_of(n.right)),
    }
}

/// The height that the root of `link` has cached; -1 for the empty tree.
pub open spec fn stored_height<T: PartialOrd + PartialEq>(link: Option<Box<Node<T>>>) -> int {
    match link {
        None => -1,
        Some(n) => n.height as int,
    }
}

/// Number of nodes in `link`.
pub open spec fn count_of<T: PartialOrd + PartialEq>(link: Option<Box<Node<T>>>) -> nat
    decreases link,
{
    match link {
        None => 0,
        Some(n) => count_of(n.left) + 1 + count_of(n.right),
    }
}

/// The values held anywhere in `link`.
pub open spec fn values_of<T: PartialOrd + PartialEq>(link: Option<Box<Node<T>>>) -> Set<T>
    decreases link,
{
    match link {
        None => Set::empty(),
        Some(n) => values_of(n.left).union(values_of(n.right)).insert(n.value),
    }
}

/// The values of `link` in traversal order: left subtree, root, right subtree.
pub open spec fn inorder_of<T: PartialOrd + PartialEq>(link: Option<Box<Node<T>>>) -> Seq<T>
    decreases link,
{
    match link {
        None => Seq::empty(),
        Some(n) => inorder_of(n.left).push(n.value) + inorder_of(n.right),
    }
}

/// Search-tree order: at every node, all values to the left are smaller and all values to
/// the right are larger.
pub open spec fn ordered<T: PartialOrd + PartialEq>(link: Option<Box<Node<T>>>) -> bool
    decreases link,
{
    match link {
        None => true,
        Some(n) => {
            &&& ordered(n.left)
            &&& ordered(n.right)
            &&& forall|x: T| #[trigger] values_of(n.left).contains(x) ==> less(x, n.value)
            &&& forall|x: T| #[trigger] values_of(n.right).contains(x) ==> less(n.value, x)
        },
    }
}

/// AVL balance: at every node, the heights of the two subtrees differ by at most one.
pub open spec fn balanced<T: PartialOrd + PartialEq>(link: Option<Box<Node<T>>>) -> bool
    decreases link,
{
    match link {
        None => true,
        Some(n) => {
            &&& balanced(n.left)
            &&& balanced(n.right)
            &&& -1 <= height_of(n.right) - height_of(n.left) <= 1
        },
    }
}

/// Every node's cached height and balance factor are those of the subtree below it.
pub open spec fn cached<T: PartialOrd + PartialEq>(link: Option<Box<Node<T>>>) -> bool
    decreases link,
{
    match link {
        None => true,
        Some(n) => {
            &&& cached(n.left)
            &&& cached(n.right)
            &&& n.height == height_of(link)
            &&& n.balance_factor == height_of(n.right) - height_of(n.left)
        },
    }
}

/// Ordered, balanced and correctly cached.
pub open spec fn sound<T: PartialOrd + PartialEq>(link: Option<Box<Node<T>>>) -> bool {
    &&& ordered(link)
    &&& balanced(link)
    &&& cached(link)
}

/// A tree as the operations leave it: sound, and no taller than `MAX_HEIGHT`.
pub open spec fn valid<T: PartialOrd + PartialEq>(link: Option<Box<Node<T>>>) -> bool {
    &&& sound(link)
    &&& height_of(link) <= MAX_HEIGHT
}

impl<T: PartialOrd + PartialEq> Node<T> {
    /// The tree whose root is this node.
    pub open spec fn tree(self) -> Option<Box<Node<T>>> {
        Some(Box::new(self))
    }
}

/// No tree is shallower than the empty one.
pub proof fn lemma_height_floor<T: PartialOrd + PartialEq>(link: Option<Box<Node<T>>>)
    ensures
        height_of(link) >= -1,
        link is Some ==> height_of(link) >= 0,
    decreases link,
{
    match link {
        None => {},
        Some(n) => {
            lemma_height_floor(n.left);
            lemma_height_floor(n.right);
        },
    }
}

/// The root of a correctly cached tree stores the tree's height, and its subtrees are
/// correctly cached and shorter.
pub proof fn lemma_cached_root<T: PartialOrd + PartialEq>(link: Option<Box<Node<T>>>)
    requires
        cached(link),
    ensures
        stored_height(link) == height_of(link),
        height_of(link) >= -1,
        link matches Some(n) ==> {
            &&& cached(n.left)
            &&& cached(n.right)
            &&& stored_height(n.left) == height_of(n.left)
            &&& stored_height(n.right) == height_of(n.right)
            &&& height_of(n.left) < height_of(link)
            &&& height_of(n.right) < height_of(link)
            &&& n.balance_factor == height_of(n.right) - height_of(n.left)
        },
{
    lemma_height_floor(link);
    match link {
        None => {},
        Some(n) => {
            assert(cached(n.left) && cached(n.right));
        },
    }
}

/// Where a value can be in an ordered tree: at the root, or in the subtree on its side of
/// the root's value.
pub proof fn lemma_search_step<T: PartialOrd + PartialEq>(n: Node<T>, v: T)
    requires
        total_order::<T>(),
        ordered(n.tree()),
    ensures
        ordered(n.left),
        ordered(n.right),
        less(v, n.value) || v == n.value || less(n.value, v),
        v == n.value ==> values_of(n.tree()).contains(v),
        less(v, n.value) ==> values_of(n.tree()).contains(v) == values_of(n.left).contains(v),
        less(n.value, v) ==> values_of(n.tree()).contains(v) == values_of(n.right).contains(v),
        n.left is None ==> !values_of(n.left).contains(v),
        n.right is None ==> !values_of(n.right).contains(v),
{
    lemma_trichotomy(v, n.value);
    assert(values_of(n.tree()) == values_of(n.left).union(values_of(n.right)).insert(n.value));
    if n.left is None {
        assert(values_of(n.left) == Set::<T>::empty());
    }
    if n.right is None {
        assert(values_of(n.right) == Set::<T>::empty());
    }
}

} // verus!
