//! Insertion keeps a tree sound, adds exactly the new value, and grows the tree by at most
//! one level.

use crate::balance::{lemma_restorable, lemma_restored};
use crate::node::{balanced, cached, height_of, lemma_height_floor, ordered, sound, values_of,
    Node};
use crate::order::{lemma_trichotomy, less, total_order};
use crate::shape::{grafted, inserted, leaf, restorable, tree_inserted};
use vstd::prelude::*;

verus! {

/// A single value makes a sound tree of height 0.
pub proof fn lemma_leaf<T: PartialOrd + PartialEq>(v: T)
    ensures
        leaf(v) is Some,
        sound(leaf(v)),
        height_of(leaf(v)) == 0,
        values_of(leaf(v)) == Set::<T>::empty().insert(v),
{
    reveal_with_fuel(ordered, 2);
    reveal_with_fuel(balanced, 2);
    reveal_with_fuel(cached, 2);
    reveal_with_fuel(height_of, 2);
    reveal_with_fuel(values_of, 2);
    assert(values_of(leaf(v)) =~= Set::<T>::empty().insert(v));
}

/// Inserting below a sound node.
pub proof fn lemma_inserted<T: PartialOrd + PartialEq>(n: Node<T>, v: T)
    requires
        total_order::<T>(),
        sound(n.tree()),
        height_of(n.tree()) + 1 < i32::MAX,
    ensures
        restorable(grafted(n, v)),
        inserted(n, v) is Some,
        sound(inserted(n, v)),
        values_of(inserted(n, v)) == values_of(n.tree()).insert(v),
        height_of(n.tree()) <= height_of(inserted(n, v)) <= height_of(n.tree()) + 1,
        values_of(n.tree()).contains(v) ==> inserted(n, v) == n.tree(),
    decreases n,
{
    lemma_trichotomy(v, n.value);
    lemma_height_floor(n.left);
    lemma_height_floor(n.right);
    let m = grafted(n, v);
    if less(v, n.value) {
        match n.left {
            None => lemma_leaf(v),
            Some(l) => lemma_inserted(*l, v),
        }
        assert(values_of(m.left) == values_of(n.left).insert(v));
        if values_of(n.right).contains(v) {
            lemma_trichotomy(n.value, v);
        }
        if values_of(n.tree()).contains(v) {
            assert(values_of(n.left).contains(v));
            assert(m == n);
        }
    } else if less(n.value, v) {
        match n.right {
            None => lemma_leaf(v),
            Some(r) => lemma_inserted(*r, v),
        }
        assert(values_of(m.right) == values_of(n.right).insert(v));
        if values_of(n.left).contains(v) {
            lemma_trichotomy(v, n.value);
        }
        if values_of(n.tree()).contains(v) {
            assert(values_of(n.right).contains(v));
            assert(m == n);
        }
    } else {
        assert(v == n.value);
    }
    assert(ordered(m.tree()));
    lemma_restorable(m);
    lemma_restored(m);
    assert(values_of(m.tree()) =~= values_of(n.tree()).insert(v));
}

/// The subtrees of a sound tree are sound and shorter than the tree.
pub proof fn lemma_sound_below<T: PartialOrd + PartialEq>(n: Node<T>)
    requires
        sound(n.tree()),
    ensures
        sound(n.left),
        sound(n.right),
        height_of(n.left) < height_of(n.tree()),
        height_of(n.right) < height_of(n.tree()),
        -1 <= height_of(n.right) - height_of(n.left) <= 1,
        n.height == height_of(n.tree()),
        n.balance_factor == height_of(n.right) - height_of(n.left),
{
}

/// Inserting into a sound tree, empty or not.
pub proof fn lemma_tree_inserted<T: PartialOrd + PartialEq>(link: Option<Box<Node<T>>>, v: T)
    requires
        total_order::<T>(),
        sound(link),
        height_of(link) + 1 < i32::MAX,
    ensures
        tree_inserted(link, v) is Some,
        sound(tree_inserted(link, v)),
        values_of(tree_inserted(link, v)) == values_of(link).insert(v),
        height_of(link) <= height_of(tree_inserted(link, v)) <= height_of(link) + 1,
        values_of(link).contains(v) ==> tree_inserted(link, v) == link,
{
    match link {
        None => lemma_leaf(v),
        Some(n) => lemma_inserted(*n, v),
    }
}

} // verus!
