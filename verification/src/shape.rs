//! The shape that each operation gives a subtree, written as pure functions on nodes.
//!
//! The executable operations are proved to return exactly these shapes; the lemmas on
//! balance and content are proved about them.

use crate::node::{cached, height_of, larger, stored_height, Node};
use crate::order::less;
use vstd::prelude::*;

verus! {

/// `n` with its height and balance factor recomputed from the heights its children cache.
pub open spec fn settled<T: PartialOrd + PartialEq>(n: Node<T>) -> Node<T> {
    Node {
        value: n.value,
        left: n.left,
        right: n.right,
        height: (1 + larger(stored_height(n.left), stored_height(n.right))) as u32,
        balance_factor: (stored_height(n.right) - stored_height(n.left)) as i32,
    }
}

/// The node that holds `value`, `left` and `right`, settled.
pub open spec fn joined<T: PartialOrd + PartialEq>(
    value: T,
    left: Option<Box<Node<T>>>,
    right: Option<Box<Node<T>>>,
) -> Node<T> {
    settled(Node { value, left, right, height: 0, balance_factor: 0 })
}

/// The tree that holds `value` alone.
pub open spec fn leaf<T: PartialOrd + PartialEq>(value: T) -> Option<Box<Node<T>>> {
    Some(Box::new(joined(value, None, None)))
}

/// Left rotation: the right child `r` of `n` becomes the root, `n` becomes its left child and
/// takes over the former left subtree of `r` as its right subtree. Without a right child
/// there is nothing to rotate about, and nothing is left.
pub open spec fn rotated_left<T: PartialOrd + PartialEq>(n: Node<T>) -> Option<Box<Node<T>>> {
    match n.right {
        None => None,
        Some(r) => Some(
            Box::new(joined(r.value, Some(Box::new(joined(n.value, n.left, r.left))), r.right)),
        ),
    }
}

/// Right rotation, the mirror image of `rotated_left`.
pub open spec fn rotated_right<T: PartialOrd + PartialEq>(n: Node<T>) -> Option<Box<Node<T>>> {
    match n.left {
        None => None,
        Some(l) => Some(
            Box::new(joined(l.value, l.left, Some(Box::new(joined(n.value, l.right, n.right))))),
        ),
    }
}

/// `n` with its left subtree replaced.
pub open spec fn with_left<T: PartialOrd + PartialEq>(
    n: Node<T>,
    left: Option<Box<Node<T>>>,
) -> Node<T> {
    Node { value: n.value, left, right: n.right, height: n.height, balance_factor: n.balance_factor }
}

/// `n` with its right subtree replaced.
pub open spec fn with_right<T: PartialOrd + PartialEq>(
    n: Node<T>,
    right: Option<Box<Node<T>>>,
) -> Node<T> {
    Node { value: n.value, left: n.left, right, height: n.height, balance_factor: n.balance_factor }
}

/// The rebalancer, applied to a node that was just settled. A balance factor of -1, 0 or 1
/// leaves the node as it is. At -2 the node is rotated right, after its left child was rotated
/// left if that child leans right; at 2 the mirror image.
pub open spec fn rebalanced<T: PartialOrd + PartialEq>(n: Node<T>) -> Option<Box<Node<T>>> {
    if n.balance_factor == -2 {
        match n.left {
            Some(l) if l.balance_factor > 0 => rotated_right(with_left(n, rotated_left(*l))),
            _ => rotated_right(n),
        }
    } else if n.balance_factor == 2 {
        match n.right {
            Some(r) if r.balance_factor < 0 => rotated_left(with_right(n, rotated_right(*r))),
            _ => rotated_left(n),
        }
    } else {
        Some(Box::new(n))
    }
}

/// What settling and then rebalancing `n` takes: children whose cached heights leave room
/// for one more level, and after settling a correctly cached node whose balance factor is
/// between -2 and 2.
pub open spec fn restorable<T: PartialOrd + PartialEq>(n: Node<T>) -> bool {
    &&& stored_height(n.left) < i32::MAX
    &&& stored_height(n.right) < i32::MAX
    &&& cached(settled(n).tree())
    &&& -2 <= settled(n).balance_factor <= 2
    &&& height_of(settled(n).tree()) < i32::MAX
}

/// `n` settled and then rebalanced: what every operation does to a node on its way back up.
pub open spec fn restored<T: PartialOrd + PartialEq>(n: Node<T>) -> Option<Box<Node<T>>> {
    rebalanced(settled(n))
}

/// `n` with `v` inserted into the subtree on `v`'s side of it, before `n` itself is
/// restored. A value equal to that of `n` is not inserted again.
pub open spec fn grafted<T: PartialOrd + PartialEq>(n: Node<T>, v: T) -> Node<T>
    decreases n, 0int,
{
    if less(v, n.value) {
        match n.left {
            None => with_left(n, leaf(v)),
            Some(l) => with_left(n, inserted(*l, v)),
        }
    } else if less(n.value, v) {
        match n.right {
            None => with_right(n, leaf(v)),
            Some(r) => with_right(n, inserted(*r, v)),
        }
    } else {
        n
    }
}

/// The subtree rooted at `n` after `v` was inserted.
pub open spec fn inserted<T: PartialOrd + PartialEq>(n: Node<T>, v: T) -> Option<Box<Node<T>>>
    decreases n, 1int,
{
    restored(grafted(n, v))
}

/// The tree `link` after `v` was inserted.
pub open spec fn tree_inserted<T: PartialOrd + PartialEq>(
    link: Option<Box<Node<T>>>,
    v: T,
) -> Option<Box<Node<T>>> {
    match link {
        None => leaf(v),
        Some(n) => inserted(*n, v),
    }
}

/// The smallest value below the left child of `n`, detached as a node of its own; `None`
/// where `n` has no left child.
pub open spec fn leftmost<T: PartialOrd + PartialEq>(n: Node<T>) -> Option<Box<Node<T>>>
    decreases n,
{
    match n.left {
        None => None,
        Some(l) => match l.left {
            None => leaf(l.value),
            Some(_) => leftmost(*l),
        },
    }
}

/// `n` after the smallest value below its left child was detached. The right child of the
/// detached node takes its place, and every node between it and `n` is restored on the way
/// back up; `n` itself is left for the caller to restore.
pub open spec fn without_leftmost<T: PartialOrd + PartialEq>(n: Node<T>) -> Node<T>
    decreases n,
{
    match n.left {
        None => n,
        Some(l) => match l.left {
            None => with_left(n, l.right),
            Some(_) => with_left(n, restored(without_leftmost(*l))),
        },
    }
}

/// What replaces the root of `link` when that root is removed: nothing for a leaf, the only
/// child where there is one, and otherwise the smallest value of the right subtree, put in the
/// root's place above the left subtree and what is left of the right one.
pub open spec fn spliced<T: PartialOrd + PartialEq>(link: Option<Box<Node<T>>>) -> Option<
    Box<Node<T>>,
> {
    match link {
        None => None,
        Some(d) => match (d.left, d.right) {
            (None, right) => right,
            (left, None) => left,
            (left, Some(r)) => match leftmost(*r) {
                None => restored(with_left(*r, left)),
                Some(m) => restored(
                    Node {
                        value: m.value,
                        left,
                        right: restored(without_leftmost(*r)),
                        height: m.height,
                        balance_factor: m.balance_factor,
                    },
                ),
            },
        },
    }
}

/// Whether the root of `link` holds `v`.
pub open spec fn holds<T: PartialOrd + PartialEq>(link: Option<Box<Node<T>>>, v: T) -> bool {
    match link {
        None => false,
        Some(n) => n.value == v,
    }
}

/// `n` with `v` deleted from below it, before `n` itself is restored. A child that holds
/// `v` is spliced out by `n` itself; otherwise the search goes on in the child on `v`'s side.
pub open spec fn pruned<T: PartialOrd + PartialEq>(n: Node<T>, v: T) -> Node<T>
    decreases n, 0int,
{
    if holds(n.right, v) {
        with_right(n, spliced(n.right))
    } else if holds(n.left, v) {
        with_left(n, spliced(n.left))
    } else if less(v, n.value) {
        match n.left {
            None => n,
            Some(l) => with_left(n, removed(*l, v)),
        }
    } else if less(n.value, v) {
        match n.right {
            None => n,
            Some(r) => with_right(n, removed(*r, v)),
        }
    } else {
        n
    }
}

/// The subtree rooted at `n` after `v` was deleted from below `n`.
pub open spec fn removed<T: PartialOrd + PartialEq>(n: Node<T>, v: T) -> Option<Box<Node<T>>>
    decreases n, 1int,
{
    restored(pruned(n, v))
}

/// The tree `link` after `v` was deleted.
pub open spec fn tree_removed<T: PartialOrd + PartialEq>(
    link: Option<Box<Node<T>>>,
    v: T,
) -> Option<Box<Node<T>>> {
    match link {
        None => None,
        Some(n) => if n.value == v {
            spliced(link)
        } else {
            removed(*n, v)
        },
    }
}

} // verus!
