//! Deletion keeps a tree sound, removes exactly the value asked for, and shrinks the tree by
//! at most one level.

use crate::balance::{lemma_restorable, lemma_restored};
use crate::insertion::lemma_sound_below;
use crate::node::{balanced, height_of, lemma_height_floor, ordered, sound, values_of, Node};
use crate::order::{lemma_less_transitive, lemma_trichotomy, less, total_order};
use crate::shape::{holds, leaf, leftmost, pruned, removed, restorable, restored, spliced,
    tree_removed, with_left, without_leftmost};
use vstd::prelude::*;

verus! {

/// Detaching the smallest value below the left child of a sound node: the detached node is
/// a leaf that holds the minimum of the left subtree, and what stays below the node is
/// sound, holds the other values, and is at most one level shorter.
pub proof fn lemma_without_leftmost<T: PartialOrd + PartialEq>(n: Node<T>)
    requires
        total_order::<T>(),
        sound(n.tree()),
        n.left is Some,
        height_of(n.tree()) < i32::MAX,
    ensures
        leftmost(n) is Some,
        leftmost(n) == leaf(leftmost(n).unwrap().value),
        values_of(n.left).contains(leftmost(n).unwrap().value),
        forall|x: T| #[trigger]
            values_of(n.left).contains(x) ==> x == leftmost(n).unwrap().value || less(
                leftmost(n).unwrap().value,
                x,
            ),
        without_leftmost(n) == with_left(n, without_leftmost(n).left),
        sound(without_leftmost(n).left),
        values_of(without_leftmost(n).left) == values_of(n.left).remove(
            leftmost(n).unwrap().value,
        ),
        height_of(n.left) - 1 <= height_of(without_leftmost(n).left) <= height_of(n.left),
    decreases n,
{
    let l = *n.left.unwrap();
    lemma_sound_below(n);
    lemma_sound_below(l);
    lemma_height_floor(l.left);
    lemma_height_floor(l.right);
    assert(values_of(n.left) == values_of(l.left).union(values_of(l.right)).insert(l.value));
    match l.left {
        None => {
            assert(values_of(l.left) == Set::<T>::empty());
            assert(height_of(l.left) == -1);
            lemma_trichotomy(l.value, l.value);
            assert(values_of(l.right) =~= values_of(n.left).remove(l.value));
        },
        Some(_) => {
            lemma_without_leftmost(l);
            let min = leftmost(l).unwrap().value;
            let w = without_leftmost(l);
            assert(less(min, l.value));
            assert forall|x: T| #[trigger] values_of(n.left).contains(x) implies x == min || less(
                min,
                x,
            ) by {
                if values_of(l.right).contains(x) {
                    lemma_less_transitive(min, l.value, x);
                }
            }
            assert(ordered(w.tree()));
            assert(balanced(w.tree()) <==> -1 <= height_of(w.right) - height_of(w.left) <= 1);
            lemma_restored(w);
            lemma_trichotomy(min, l.value);
            if values_of(l.right).contains(min) {
                lemma_trichotomy(l.value, min);
                lemma_less_transitive(min, l.value, min);
            }
            assert(values_of(w.tree()) =~= values_of(n.left).remove(min));
        },
    }
}

/// A node has a smallest value below its left child just where it has a left child. Where
/// the left child of a sound node has one itself, that child can be restored once the value
/// is detached.
pub proof fn lemma_detach_step<T: PartialOrd + PartialEq>(n: Node<T>)
    requires
        total_order::<T>(),
        sound(n.tree()),
        height_of(n.tree()) < i32::MAX,
    ensures
        leftmost(n) is Some <==> n.left is Some,
        n.left is None ==> without_leftmost(n) == n,
        n.left is Some ==> sound(n.left) && height_of(n.left) < i32::MAX,
        n.left is Some && n.left.unwrap().left is Some ==> restorable(
            without_leftmost(*n.left.unwrap()),
        ),
{
    lemma_sound_below(n);
    if n.left is Some {
        lemma_without_leftmost(n);
        let l = *n.left.unwrap();
        if l.left is Some {
            lemma_sound_below(l);
            lemma_without_leftmost(l);
            lemma_restorable(without_leftmost(l));
        }
    }
}

/// What splicing out a sound root with two children settles and rebalances on its way:
/// either the right child above the root's left subtree, or first what is left of the
/// right child and then the detached node above both subtrees.
pub proof fn lemma_splice_step<T: PartialOrd + PartialEq>(d: Node<T>)
    requires
        total_order::<T>(),
        sound(d.tree()),
        d.left is Some,
        d.right is Some,
        height_of(d.tree()) < i32::MAX,
    ensures
        sound(d.right),
        height_of(d.right) < i32::MAX,
        leftmost(*d.right.unwrap()) is Some <==> d.right.unwrap().left is Some,
        d.right.unwrap().left is None ==> restorable(with_left(*d.right.unwrap(), d.left)),
        d.right.unwrap().left is Some ==> restorable(without_leftmost(*d.right.unwrap()))
            && restorable(
            Node {
                value: leftmost(*d.right.unwrap()).unwrap().value,
                left: d.left,
                right: restored(without_leftmost(*d.right.unwrap())),
                height: leftmost(*d.right.unwrap()).unwrap().height,
                balance_factor: leftmost(*d.right.unwrap()).unwrap().balance_factor,
            },
        ),
{
    let r = *d.right.unwrap();
    lemma_sound_below(d);
    lemma_sound_below(r);
    lemma_height_floor(d.left);
    lemma_height_floor(r.left);
    lemma_height_floor(r.right);
    if r.left is None {
        lemma_restorable(with_left(r, d.left));
    } else {
        lemma_without_leftmost(r);
        lemma_rest_of_right(r);
        lemma_restorable(without_leftmost(r));
        lemma_restorable(
            Node {
                value: leftmost(r).unwrap().value,
                left: d.left,
                right: restored(without_leftmost(r)),
                height: leftmost(r).unwrap().height,
                balance_factor: leftmost(r).unwrap().balance_factor,
            },
        );
    }
}

/// `lemma_spliced` for a root whose right child has no left child: the right child takes
/// the root's place above the left subtree.
proof fn lemma_spliced_near<T: PartialOrd + PartialEq>(d: Node<T>)
    requires
        total_order::<T>(),
        sound(d.tree()),
        d.left is Some,
        d.right is Some,
        d.right.unwrap().left is None,
        height_of(d.tree()) < i32::MAX,
    ensures
        spliced(d.tree()) == restored(with_left(*d.right.unwrap(), d.left)),
        sound(spliced(d.tree())),
        values_of(spliced(d.tree())) == values_of(d.tree()).remove(d.value),
        height_of(d.tree()) - 1 <= height_of(spliced(d.tree())) <= height_of(d.tree()),
{
    let r = *d.right.unwrap();
    lemma_sound_below(d);
    lemma_sound_below(r);
    lemma_height_floor(d.left);
    lemma_height_floor(r.right);
    assert(values_of(d.tree()) == values_of(d.left).union(values_of(d.right)).insert(d.value));
    assert(values_of(d.right) == values_of(r.left).union(values_of(r.right)).insert(r.value));
    assert(values_of(r.left) == Set::<T>::empty());
    assert(height_of(r.left) == -1);
    assert(values_of(d.right).contains(r.value));
    let m = with_left(r, d.left);
    assert forall|x: T| #[trigger] values_of(d.left).contains(x) implies less(x, r.value) by {
        lemma_less_transitive(x, d.value, r.value);
    }
    assert(ordered(m.tree()));
    assert(balanced(m.tree()) <==> -1 <= height_of(m.right) - height_of(m.left) <= 1);
    lemma_restored(m);
    lemma_trichotomy(d.value, d.value);
    lemma_trichotomy(d.value, r.value);
    assert(values_of(m.tree()) =~= values_of(d.tree()).remove(d.value));
}

/// `lemma_spliced` for a root whose right child has a left child: the smallest value of
/// the right subtree takes the root's place.
proof fn lemma_spliced_far<T: PartialOrd + PartialEq>(d: Node<T>)
    requires
        total_order::<T>(),
        sound(d.tree()),
        d.left is Some,
        d.right is Some,
        d.right.unwrap().left is Some,
        height_of(d.tree()) < i32::MAX,
    ensures
        leftmost(*d.right.unwrap()) is Some,
        sound(spliced(d.tree())),
        values_of(spliced(d.tree())) == values_of(d.tree()).remove(d.value),
        height_of(d.tree()) - 1 <= height_of(spliced(d.tree())) <= height_of(d.tree()),
{
    let r = *d.right.unwrap();
    lemma_sound_below(d);
    lemma_sound_below(r);
    lemma_height_floor(d.left);
    lemma_without_leftmost(r);
    let min = leftmost(r).unwrap().value;
    let w = without_leftmost(r);
    lemma_rest_of_right(r);
    let rest = restored(w);
    let m = Node {
        value: min,
        left: d.left,
        right: rest,
        height: leftmost(r).unwrap().height,
        balance_factor: leftmost(r).unwrap().balance_factor,
    };
    assert(spliced(d.tree()) == restored(m));
    assert(values_of(d.tree()) == values_of(d.left).union(values_of(d.right)).insert(d.value));
    assert(values_of(d.right).contains(min));
    assert(less(d.value, min));
    assert forall|x: T| #[trigger] values_of(d.left).contains(x) implies less(x, min) by {
        lemma_less_transitive(x, d.value, min);
    }
    assert(ordered(m.tree()));
    assert(balanced(m.tree()) <==> -1 <= height_of(m.right) - height_of(m.left) <= 1);
    lemma_restored(m);
    lemma_trichotomy(d.value, d.value);
    lemma_trichotomy(d.value, min);
    assert(values_of(m.tree()) =~= values_of(d.tree()).remove(d.value));
}

/// What is left of a sound subtree after its smallest value was detached and its root
/// restored: a sound tree that holds the other values, all of them larger than the detached
/// one, and that is at most one level shorter.
pub proof fn lemma_rest_of_right<T: PartialOrd + PartialEq>(r: Node<T>)
    requires
        total_order::<T>(),
        sound(r.tree()),
        r.left is Some,
        height_of(r.tree()) < i32::MAX,
    ensures
        leftmost(r) is Some,
        values_of(r.tree()).contains(leftmost(r).unwrap().value),
        restored(without_leftmost(r)) is Some,
        sound(restored(without_leftmost(r))),
        values_of(restored(without_leftmost(r))) == values_of(r.tree()).remove(
            leftmost(r).unwrap().value,
        ),
        forall|x: T| #[trigger]
            values_of(restored(without_leftmost(r))).contains(x) ==> less(
                leftmost(r).unwrap().value,
                x,
            ),
        height_of(r.tree()) - 1 <= height_of(restored(without_leftmost(r))) <= height_of(
            r.tree(),
        ),
{
    lemma_sound_below(r);
    lemma_height_floor(r.right);
    lemma_without_leftmost(r);
    let min = leftmost(r).unwrap().value;
    let w = without_leftmost(r);
    assert(values_of(r.tree()) == values_of(r.left).union(values_of(r.right)).insert(r.value));
    assert(ordered(w.tree()));
    assert(balanced(w.tree()) <==> -1 <= height_of(w.right) - height_of(w.left) <= 1);
    lemma_restored(w);
    lemma_trichotomy(min, r.value);
    if values_of(r.right).contains(min) {
        lemma_trichotomy(r.value, min);
        lemma_less_transitive(min, r.value, min);
    }
    assert(values_of(w.tree()) =~= values_of(r.tree()).remove(min));
    assert forall|x: T| #[trigger] values_of(restored(w)).contains(x) implies less(min, x) by {
        if values_of(r.right).contains(x) {
            lemma_less_transitive(min, r.value, x);
        }
    }
}

/// Splicing out the root of a sound tree leaves a sound tree that holds the other values
/// and is at most one level shorter.
pub proof fn lemma_spliced<T: PartialOrd + PartialEq>(link: Option<Box<Node<T>>>)
    requires
        total_order::<T>(),
        sound(link),
        link is Some,
        height_of(link) < i32::MAX,
    ensures
        sound(spliced(link)),
        values_of(spliced(link)) == values_of(link).remove(link.unwrap().value),
        height_of(link) - 1 <= height_of(spliced(link)) <= height_of(link),
{
    let d = *link.unwrap();
    assert(link == d.tree());
    lemma_sound_below(d);
    lemma_height_floor(d.left);
    lemma_height_floor(d.right);
    lemma_trichotomy(d.value, d.value);
    assert(values_of(link) == values_of(d.left).union(values_of(d.right)).insert(d.value));
    if d.left is None {
        assert(values_of(d.left) == Set::<T>::empty());
        assert(values_of(d.right) =~= values_of(link).remove(d.value));
    } else if d.right is None {
        assert(values_of(d.right) == Set::<T>::empty());
        assert(values_of(d.left) =~= values_of(link).remove(d.value));
    } else if d.right.unwrap().left is None {
        lemma_spliced_near(d);
    } else {
        lemma_spliced_far(d);
    }
}

/// Deleting from below a sound node leaves a sound tree that is at most one level shorter.
/// A value other than the node's own is gone afterwards and nothing else is; where the
/// value was not there, the tree is unchanged.
pub proof fn lemma_removed<T: PartialOrd + PartialEq>(n: Node<T>, v: T)
    requires
        total_order::<T>(),
        sound(n.tree()),
        height_of(n.tree()) < i32::MAX,
    ensures
        restorable(pruned(n, v)),
        removed(n, v) is Some,
        sound(removed(n, v)),
        v != n.value ==> values_of(removed(n, v)) == values_of(n.tree()).remove(v),
        height_of(n.tree()) - 1 <= height_of(removed(n, v)) <= height_of(n.tree()),
        v == n.value || !values_of(n.tree()).contains(v) ==> removed(n, v) == n.tree(),
    decreases n,
{
    lemma_sound_below(n);
    lemma_height_floor(n.left);
    lemma_height_floor(n.right);
    lemma_trichotomy(v, n.value);
    assert(values_of(n.tree()) == values_of(n.left).union(values_of(n.right)).insert(n.value));
    if n.left is None {
        assert(values_of(n.left) == Set::<T>::empty());
    }
    if n.right is None {
        assert(values_of(n.right) == Set::<T>::empty());
    }
    if n.left is Some {
        assert(values_of(n.left).contains(n.left.unwrap().value));
    }
    if n.right is Some {
        assert(values_of(n.right).contains(n.right.unwrap().value));
    }
    if values_of(n.left).contains(v) {
        assert(less(v, n.value));
    }
    if values_of(n.right).contains(v) {
        assert(less(n.value, v));
    }
    let m = pruned(n, v);
    if holds(n.right, v) {
        lemma_spliced(n.right);
    } else if holds(n.left, v) {
        lemma_spliced(n.left);
    } else if less(v, n.value) {
        match n.left {
            None => {},
            Some(l) => {
                lemma_removed(*l, v);
                if !values_of(n.tree()).contains(v) {
                    assert(m == n);
                }
            },
        }
    } else if less(n.value, v) {
        match n.right {
            None => {},
            Some(r) => {
                lemma_removed(*r, v);
                if !values_of(n.tree()).contains(v) {
                    assert(m == n);
                }
            },
        }
    }
    assert(ordered(m.tree()));
    assert(balanced(m.tree()) <==> -1 <= height_of(m.right) - height_of(m.left) <= 1);
    lemma_restorable(m);
    lemma_restored(m);
    if v != n.value {
        assert(values_of(m.tree()) =~= values_of(n.tree()).remove(v));
    }
}

/// Deleting from a sound tree, empty or not: the result is sound, holds the other values,
/// and is at most one level shorter; where the value was not there, nothing changes.
pub proof fn lemma_tree_removed<T: PartialOrd + PartialEq>(link: Option<Box<Node<T>>>, v: T)
    requires
        total_order::<T>(),
        sound(link),
        height_of(link) < i32::MAX,
    ensures
        sound(tree_removed(link, v)),
        values_of(tree_removed(link, v)) == values_of(link).remove(v),
        height_of(link) - 1 <= height_of(tree_removed(link, v)) <= height_of(link),
        !values_of(link).contains(v) ==> tree_removed(link, v) == link,
{
    match link {
        None => {
            assert(values_of(link) =~= values_of(link).remove(v));
        },
        Some(n) => {
            if n.value == v {
                lemma_spliced(link);
            } else {
                lemma_removed(*n, v);
            }
        },
    }
}

} // verus!
