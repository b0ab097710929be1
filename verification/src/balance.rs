//! Rotations and the rebalancer keep content and order, and restore balance.

use crate::node::{balanced, cached, height_of, inorder_of, larger, lemma_cached_root,
    lemma_height_floor, ordered, sound, values_of, Node};
use crate::order::{lemma_less_transitive, less, total_order};
use crate::shape::{rebalanced, restorable, restored, rotated_left, rotated_right, settled,
    with_left, with_right};
use vstd::prelude::*;

verus! {

/// Settling a node whose children are correctly cached makes the node correctly cached, and
/// changes nothing else.
pub proof fn lemma_settled<T: PartialOrd + PartialEq>(n: Node<T>)
    requires
        cached(n.left),
        cached(n.right),
        height_of(n.tree()) <= i32::MAX,
    ensures
        cached(settled(n).tree()),
        settled(n).height == height_of(n.tree()),
        settled(n).balance_factor == height_of(n.right) - height_of(n.left),
        height_of(settled(n).tree()) == height_of(n.tree()),
        cached(n.tree()) ==> settled(n) == n,
{
    lemma_cached_root(n.left);
    lemma_cached_root(n.right);
}

/// A left rotation keeps the values and their traversal order, and with them the
/// search-tree order.
pub proof fn lemma_rotated_left<T: PartialOrd + PartialEq>(n: Node<T>)
    requires
        n.right is Some,
    ensures
        rotated_left(n) is Some,
        values_of(rotated_left(n)) == values_of(n.tree()),
        inorder_of(rotated_left(n)) == inorder_of(n.tree()),
        total_order::<T>() && ordered(n.tree()) ==> ordered(rotated_left(n)),
{
    reveal_with_fuel(ordered, 3);
    reveal_with_fuel(values_of, 3);
    reveal_with_fuel(inorder_of, 3);
    let r = n.right.unwrap();
    let top = rotated_left(n).unwrap();
    assert(values_of(rotated_left(n)) =~= values_of(n.tree()));
    assert(inorder_of(rotated_left(n)) =~= inorder_of(n.tree()));
    if total_order::<T>() && ordered(n.tree()) {
        assert(values_of(n.right).contains(r.value));
        assert forall|x: T| #[trigger] values_of(top.left).contains(x) implies less(
            x,
            r.value,
        ) by {
            assert(values_of(top.left) == values_of(n.left).union(values_of(r.left)).insert(
                n.value,
            ));
            if values_of(n.left).contains(x) {
                lemma_less_transitive(x, n.value, r.value);
            } else if values_of(r.left).contains(x) {
                assert(less(x, r.value));
            } else {
                assert(less(n.value, r.value));
            }
        }
        assert forall|x: T| #[trigger] values_of(r.left).contains(x) implies less(n.value, x) by {
            assert(values_of(n.right).contains(x));
        }
        assert(ordered(top.left));
    }
}

/// A right rotation keeps the values and their traversal order, and with them the
/// search-tree order.
pub proof fn lemma_rotated_right<T: PartialOrd + PartialEq>(n: Node<T>)
    requires
        n.left is Some,
    ensures
        rotated_right(n) is Some,
        values_of(rotated_right(n)) == values_of(n.tree()),
        inorder_of(rotated_right(n)) == inorder_of(n.tree()),
        total_order::<T>() && ordered(n.tree()) ==> ordered(rotated_right(n)),
{
    reveal_with_fuel(ordered, 3);
    reveal_with_fuel(values_of, 3);
    reveal_with_fuel(inorder_of, 3);
    let l = n.left.unwrap();
    let top = rotated_right(n).unwrap();
    assert(values_of(rotated_right(n)) =~= values_of(n.tree()));
    assert(inorder_of(rotated_right(n)) =~= inorder_of(n.tree()));
    if total_order::<T>() && ordered(n.tree()) {
        assert(values_of(n.left).contains(l.value));
        assert forall|x: T| #[trigger] values_of(top.right).contains(x) implies less(
            l.value,
            x,
        ) by {
            assert(values_of(top.right) == values_of(l.right).union(values_of(n.right)).insert(
                n.value,
            ));
            if values_of(n.right).contains(x) {
                lemma_less_transitive(l.value, n.value, x);
            } else if values_of(l.right).contains(x) {
                assert(less(l.value, x));
            } else {
                assert(less(l.value, n.value));
            }
        }
        assert forall|x: T| #[trigger] values_of(l.right).contains(x) implies less(x, n.value) by {
            assert(values_of(n.left).contains(x));
        }
        assert(ordered(top.right));
    }
}

/// A left rotation about a node with correctly cached subtrees leaves the two nodes it
/// touched correctly cached; the node that went down stands above its old left subtree and
/// the old left subtree of the node that came up.
pub proof fn lemma_rotated_left_heights<T: PartialOrd + PartialEq>(n: Node<T>)
    requires
        n.right is Some,
        cached(n.left),
        cached(n.right),
        height_of(n.left) + 1 < i32::MAX,
        height_of(n.right.unwrap().left) + 1 < i32::MAX,
        height_of(n.right.unwrap().right) < i32::MAX,
    ensures
        cached(rotated_left(n)),
        rotated_left(n).unwrap().right == n.right.unwrap().right,
        height_of(rotated_left(n).unwrap().left) == 1 + larger(
            height_of(n.left),
            height_of(n.right.unwrap().left),
        ),
        balanced(rotated_left(n).unwrap().left) == (balanced(n.left) && balanced(
            n.right.unwrap().left,
        ) && -1 <= height_of(n.right.unwrap().left) - height_of(n.left) <= 1),
{
    let r = n.right.unwrap();
    let low = Node { value: n.value, left: n.left, right: r.left, height: 0, balance_factor: 0 };
    let top = Node {
        value: r.value,
        left: Some(Box::new(settled(low))),
        right: r.right,
        height: 0,
        balance_factor: 0,
    };
    assert(rotated_left(n) == settled(top).tree());
    lemma_cached_root(n.right);
    lemma_height_floor(n.left);
    lemma_height_floor(r.left);
    lemma_height_floor(r.right);
    lemma_settled(low);
    lemma_settled(top);
}

/// A right rotation about a node with correctly cached subtrees leaves the two nodes it
/// touched correctly cached; the node that went down stands above its old right subtree and
/// the old right subtree of the node that came up.
pub proof fn lemma_rotated_right_heights<T: PartialOrd + PartialEq>(n: Node<T>)
    requires
        n.left is Some,
        cached(n.left),
        cached(n.right),
        height_of(n.right) + 1 < i32::MAX,
        height_of(n.left.unwrap().right) + 1 < i32::MAX,
        height_of(n.left.unwrap().left) < i32::MAX,
    ensures
        cached(rotated_right(n)),
        rotated_right(n).unwrap().left == n.left.unwrap().left,
        height_of(rotated_right(n).unwrap().right) == 1 + larger(
            height_of(n.left.unwrap().right),
            height_of(n.right),
        ),
        balanced(rotated_right(n).unwrap().right) == (balanced(n.left.unwrap().right) && balanced(
            n.right,
        ) && -1 <= height_of(n.right) - height_of(n.left.unwrap().right) <= 1),
{
    let l = n.left.unwrap();
    let low = Node { value: n.value, left: l.right, right: n.right, height: 0, balance_factor: 0 };
    let top = Node {
        value: l.value,
        left: l.left,
        right: Some(Box::new(settled(low))),
        height: 0,
        balance_factor: 0,
    };
    assert(rotated_right(n) == settled(top).tree());
    lemma_cached_root(n.left);
    lemma_height_floor(n.right);
    lemma_height_floor(l.left);
    lemma_height_floor(l.right);
    lemma_settled(low);
    lemma_settled(top);
}

/// The rebalancer, given a correctly cached node whose subtrees differ in height by at most
/// two, returns a correctly cached tree with the same values in the same traversal order,
/// at most one level shorter and never taller. It keeps search-tree order, and where both
/// subtrees were balanced the result is balanced. A node whose subtrees differ in height by
/// at most one is returned as it is.
pub proof fn lemma_rebalanced<T: PartialOrd + PartialEq>(n: Node<T>)
    requires
        cached(n.tree()),
        -2 <= height_of(n.right) - height_of(n.left) <= 2,
        height_of(n.tree()) < i32::MAX,
    ensures
        rebalanced(n) is Some,
        cached(rebalanced(n)),
        values_of(rebalanced(n)) == values_of(n.tree()),
        inorder_of(rebalanced(n)) == inorder_of(n.tree()),
        height_of(n.tree()) - 1 <= height_of(rebalanced(n)) <= height_of(n.tree()),
        -1 <= height_of(n.right) - height_of(n.left) <= 1 ==> rebalanced(n) == n.tree(),
        balanced(n.left) && balanced(n.right) ==> balanced(rebalanced(n)),
        total_order::<T>() && ordered(n.tree()) ==> ordered(rebalanced(n)),
{
    if n.balance_factor == -2 {
        lemma_left_heavy(n);
    } else if n.balance_factor == 2 {
        lemma_right_heavy(n);
    }
}

/// `lemma_rebalanced` for a node whose left subtree is two levels taller than its right one.
proof fn lemma_left_heavy<T: PartialOrd + PartialEq>(n: Node<T>)
    requires
        cached(n.tree()),
        height_of(n.right) - height_of(n.left) == -2,
        height_of(n.tree()) < i32::MAX,
    ensures
        rebalanced(n) is Some,
        cached(rebalanced(n)),
        values_of(rebalanced(n)) == values_of(n.tree()),
        inorder_of(rebalanced(n)) == inorder_of(n.tree()),
        height_of(n.tree()) - 1 <= height_of(rebalanced(n)) <= height_of(n.tree()),
        balanced(n.left) && balanced(n.right) ==> balanced(rebalanced(n)),
        total_order::<T>() && ordered(n.tree()) ==> ordered(rebalanced(n)),
{
    lemma_height_floor(n.right);
    lemma_cached_root(n.left);
    let l = n.left.unwrap();
    lemma_height_floor(l.left);
    lemma_height_floor(l.right);
    assert(height_of(n.left) == 1 + larger(height_of(l.left), height_of(l.right)));
    assert(balanced(n.left) ==> balanced(l.left) && balanced(l.right) && -1 <= height_of(l.right)
        - height_of(l.left) <= 1);
    if l.balance_factor > 0 {
        let lr = l.right.unwrap();
        lemma_cached_root(l.right);
        lemma_height_floor(lr.left);
        lemma_height_floor(lr.right);
        assert(height_of(l.right) == 1 + larger(height_of(lr.left), height_of(lr.right)));
        assert(balanced(l.right) ==> balanced(lr.left) && balanced(lr.right) && -1 <= height_of(
            lr.right,
        ) - height_of(lr.left) <= 1);
        lemma_rotated_left(*l);
        lemma_rotated_left_heights(*l);
        let m = with_left(n, rotated_left(*l));
        let pivot = rotated_left(*l).unwrap();
        assert(height_of(m.left) == 1 + larger(height_of(pivot.left), height_of(pivot.right)));
        assert(values_of(m.tree()) =~= values_of(n.tree()));
        assert(inorder_of(m.tree()) =~= inorder_of(n.tree()));
        assert(ordered(n.tree()) ==> ordered(n.left) && ordered(n.right));
        assert(total_order::<T>() && ordered(n.tree()) ==> ordered(m.tree()));
        lemma_rotated_right(m);
        lemma_rotated_right_heights(m);
        let top = rotated_right(m).unwrap();
        assert(rebalanced(n) == rotated_right(m));
        assert(height_of(rotated_right(m)) == 1 + larger(
            height_of(top.left),
            height_of(top.right),
        ));
        assert(balanced(rotated_right(m)) == (balanced(top.left) && balanced(top.right) && -1
            <= height_of(top.right) - height_of(top.left) <= 1));
    } else {
        lemma_rotated_right(n);
        lemma_rotated_right_heights(n);
        let top = rotated_right(n).unwrap();
        assert(rebalanced(n) == rotated_right(n));
        assert(height_of(rotated_right(n)) == 1 + larger(
            height_of(top.left),
            height_of(top.right),
        ));
        assert(balanced(rotated_right(n)) == (balanced(top.left) && balanced(top.right) && -1
            <= height_of(top.right) - height_of(top.left) <= 1));
    }
}

/// `lemma_rebalanced` for a node whose right subtree is two levels taller than its left one.
proof fn lemma_right_heavy<T: PartialOrd + PartialEq>(n: Node<T>)
    requires
        cached(n.tree()),
        height_of(n.right) - height_of(n.left) == 2,
        height_of(n.tree()) < i32::MAX,
    ensures
        rebalanced(n) is Some,
        cached(rebalanced(n)),
        values_of(rebalanced(n)) == values_of(n.tree()),
        inorder_of(rebalanced(n)) == inorder_of(n.tree()),
        height_of(n.tree()) - 1 <= height_of(rebalanced(n)) <= height_of(n.tree()),
        balanced(n.left) && balanced(n.right) ==> balanced(rebalanced(n)),
        total_order::<T>() && ordered(n.tree()) ==> ordered(rebalanced(n)),
{
    lemma_height_floor(n.left);
    lemma_cached_root(n.right);
    let r = n.right.unwrap();
    lemma_height_floor(r.left);
    lemma_height_floor(r.right);
    assert(height_of(n.right) == 1 + larger(height_of(r.left), height_of(r.right)));
    assert(balanced(n.right) ==> balanced(r.left) && balanced(r.right) && -1 <= height_of(
        r.right,
    ) - height_of(r.left) <= 1);
    if r.balance_factor < 0 {
        let rl = r.left.unwrap();
        lemma_cached_root(r.left);
        lemma_height_floor(rl.left);
        lemma_height_floor(rl.right);
        assert(height_of(r.left) == 1 + larger(height_of(rl.left), height_of(rl.right)));
        assert(balanced(r.left) ==> balanced(rl.left) && balanced(rl.right) && -1 <= height_of(
            rl.right,
        ) - height_of(rl.left) <= 1);
        lemma_rotated_right(*r);
        lemma_rotated_right_heights(*r);
        let m = with_right(n, rotated_right(*r));
        let pivot = rotated_right(*r).unwrap();
        assert(height_of(m.right) == 1 + larger(height_of(pivot.left), height_of(pivot.right)));
        assert(values_of(m.tree()) =~= values_of(n.tree()));
        assert(inorder_of(m.tree()) =~= inorder_of(n.tree()));
        assert(ordered(n.tree()) ==> ordered(n.left) && ordered(n.right));
        assert(total_order::<T>() && ordered(n.tree()) ==> ordered(m.tree()));
        lemma_rotated_left(m);
        lemma_rotated_left_heights(m);
        let top = rotated_left(m).unwrap();
        assert(rebalanced(n) == rotated_left(m));
        assert(height_of(rotated_left(m)) == 1 + larger(
            height_of(top.left),
            height_of(top.right),
        ));
        assert(balanced(rotated_left(m)) == (balanced(top.left) && balanced(top.right) && -1
            <= height_of(top.right) - height_of(top.left) <= 1));
    } else {
        lemma_rotated_left(n);
        lemma_rotated_left_heights(n);
        let top = rotated_left(n).unwrap();
        assert(rebalanced(n) == rotated_left(n));
        assert(height_of(rotated_left(n)) == 1 + larger(
            height_of(top.left),
            height_of(top.right),
        ));
        assert(balanced(rotated_left(n)) == (balanced(top.left) && balanced(top.right) && -1
            <= height_of(top.right) - height_of(top.left) <= 1));
    }
}

/// A node whose subtrees are correctly cached and differ in height by at most two can be
/// settled and rebalanced.
pub proof fn lemma_restorable<T: PartialOrd + PartialEq>(n: Node<T>)
    requires
        cached(n.left),
        cached(n.right),
        -2 <= height_of(n.right) - height_of(n.left) <= 2,
        height_of(n.tree()) < i32::MAX,
    ensures
        restorable(n),
{
    lemma_cached_root(n.left);
    lemma_cached_root(n.right);
    lemma_settled(n);
}

/// Settling and then rebalancing a node whose subtrees are sound and differ in height by
/// at most two gives a sound tree with the same values, at most one level shorter than the
/// node and never taller. A node that is sound already is returned as it is.
pub proof fn lemma_restored<T: PartialOrd + PartialEq>(n: Node<T>)
    requires
        total_order::<T>(),
        ordered(n.tree()),
        cached(n.left),
        cached(n.right),
        balanced(n.left),
        balanced(n.right),
        -2 <= height_of(n.right) - height_of(n.left) <= 2,
        height_of(n.tree()) < i32::MAX,
    ensures
        restored(n) is Some,
        sound(restored(n)),
        values_of(restored(n)) == values_of(n.tree()),
        inorder_of(restored(n)) == inorder_of(n.tree()),
        height_of(n.tree()) - 1 <= height_of(restored(n)) <= height_of(n.tree()),
        balanced(n.tree()) ==> height_of(restored(n)) == height_of(n.tree()),
        sound(n.tree()) ==> restored(n) == n.tree(),
{
    lemma_settled(n);
    lemma_rebalanced(settled(n));
}

} // verus!
