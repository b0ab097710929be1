//! What holds of every well-formed tree: its traversal is sorted and complete, both walks
//! yield it, and its height is logarithmic in the number of its values.

use crate::iter::{BSTConsumingIter, BSTRefIter};
use crate::node::{balanced, count_of, height_of, inorder_of, lemma_height_floor, ordered,
    values_of, Node, MAX_HEIGHT};
use crate::tree::BST;
use crate::order::{lemma_less_transitive, lemma_trichotomy, less, total_order};
use vstd::arithmetic::power2::{lemma2_to64, lemma2_to64_rest, lemma_pow2_strictly_increases,
    lemma_pow2_unfold, pow2};
use vstd::prelude::*;

verus! {

/// Each element of `s` is strictly smaller than every later one.
pub open spec fn ascending<T: PartialOrd>(s: Seq<T>) -> bool {
    forall|i: int, j: int| 0 <= i < j < s.len() ==> less(#[trigger] s[i], #[trigger] s[j])
}

/// The traversal of an ordered tree is strictly ascending and holds exactly the values of
/// the tree, each of them once.
pub proof fn lemma_inorder_sorted<T: PartialOrd + PartialEq>(link: Option<Box<Node<T>>>)
    requires
        total_order::<T>(),
        ordered(link),
    ensures
        ascending(inorder_of(link)),
        inorder_of(link).no_duplicates(),
        inorder_of(link).to_set() == values_of(link),
        inorder_of(link).len() == count_of(link),
    decreases link,
{
    match link {
        None => {
            assert(inorder_of(link).to_set() =~= values_of(link));
        },
        Some(n) => {
            lemma_inorder_sorted(n.left);
            lemma_inorder_sorted(n.right);
            let a = inorder_of(n.left);
            let b = inorder_of(n.right);
            let s = inorder_of(link);
            assert(s == a.push(n.value) + b);
            assert forall|i: int| 0 <= i < a.len() implies less(#[trigger] a[i], n.value) by {
                assert(a.to_set().contains(a[i]));
            }
            assert forall|j: int| 0 <= j < b.len() implies less(n.value, #[trigger] b[j]) by {
                assert(b.to_set().contains(b[j]));
            }
            assert forall|i: int, j: int| 0 <= i < j < s.len() implies less(
                #[trigger] s[i],
                #[trigger] s[j],
            ) by {
                if j < a.len() {
                    assert(s[i] == a[i] && s[j] == a[j]);
                } else if j == a.len() {
                    assert(s[i] == a[i] && s[j] == n.value);
                } else if i < a.len() {
                    assert(s[i] == a[i] && s[j] == b[j - a.len() - 1]);
                    lemma_less_transitive(s[i], n.value, s[j]);
                } else if i == a.len() {
                    assert(s[i] == n.value && s[j] == b[j - a.len() - 1]);
                } else {
                    assert(s[i] == b[i - a.len() - 1] && s[j] == b[j - a.len() - 1]);
                }
            }
            assert forall|i: int, j: int| 0 <= i < s.len() && 0 <= j < s.len() && i != j implies s[i]
                != s[j] by {
                if i < j {
                    lemma_trichotomy(s[i], s[j]);
                } else {
                    lemma_trichotomy(s[j], s[i]);
                }
            }
            assert forall|x: T| s.to_set().contains(x) <==> values_of(link).contains(x) by {
                if s.to_set().contains(x) {
                    let i = choose|i: int| 0 <= i < s.len() && s[i] == x;
                    if i < a.len() {
                        assert(a[i] == x);
                        assert(a.to_set().contains(x));
                    } else if i > a.len() {
                        assert(b[i - a.len() - 1] == x);
                        assert(b.to_set().contains(x));
                    }
                }
                if values_of(n.left).contains(x) {
                    assert(a.to_set().contains(x));
                    let i = choose|i: int| 0 <= i < a.len() && a[i] == x;
                    assert(s[i] == x);
                }
                if values_of(n.right).contains(x) {
                    assert(b.to_set().contains(x));
                    let j = choose|j: int| 0 <= j < b.len() && b[j] == x;
                    assert(s[j + a.len() + 1] == x);
                }
                if x == n.value {
                    assert(s[a.len() as int] == x);
                }
            }
            assert(s.to_set() =~= values_of(link));
        },
    }
}

/// An ordered tree holds finitely many values, as many as it has nodes.
pub proof fn lemma_values_counted<T: PartialOrd + PartialEq>(link: Option<Box<Node<T>>>)
    requires
        total_order::<T>(),
        ordered(link),
    ensures
        values_of(link).finite(),
        values_of(link).len() == count_of(link),
{
    lemma_inorder_sorted(link);
    inorder_of(link).unique_seq_to_set();
    vstd::seq_lib::seq_to_set_is_finite(inorder_of(link));
}

/// A balanced tree of height `h` has at least `2^(h/2)` nodes.
pub proof fn lemma_height_logarithmic<T: PartialOrd + PartialEq>(link: Option<Box<Node<T>>>)
    requires
        balanced(link),
    ensures
        height_of(link) >= 0 ==> pow2((height_of(link) / 2) as nat) <= count_of(link),
    decreases link,
{
    match link {
        None => {},
        Some(n) => {
            lemma_height_logarithmic(n.left);
            lemma_height_logarithmic(n.right);
            lemma_height_floor(n.left);
            lemma_height_floor(n.right);
            let h = height_of(link);
            lemma2_to64();
            if h >= 2 {
                let k = ((h - 2) / 2) as nat;
                assert(h / 2 == k + 1);
                lemma_pow2_unfold(k + 1);
                assert(pow2(k + 1) == 2 * pow2(k));
                lemma_pow2_floor(h - 2, height_of(n.left));
                lemma_pow2_floor(h - 2, height_of(n.right));
            }
        },
    }
}

/// `2^(h/2)` does not shrink as `h` grows.
proof fn lemma_pow2_floor(low: int, high: int)
    requires
        0 <= low <= high,
    ensures
        pow2((low / 2) as nat) <= pow2((high / 2) as nat),
{
    if low / 2 < high / 2 {
        lemma_pow2_strictly_increases((low / 2) as nat, (high / 2) as nat);
    }
}

/// A balanced tree whose nodes can be counted in a `usize` is no taller than `MAX_HEIGHT`.
pub proof fn lemma_height_fits<T: PartialOrd + PartialEq>(link: Option<Box<Node<T>>>)
    requires
        balanced(link),
        count_of(link) <= usize::MAX,
    ensures
        height_of(link) <= MAX_HEIGHT,
{
    lemma_height_logarithmic(link);
    lemma2_to64();
    lemma2_to64_rest();
    let h = height_of(link);
    if h > MAX_HEIGHT {
        lemma_pow2_floor(128, h);
        assert(pow2(64) <= pow2((h / 2) as nat));
        assert(pow2(64) <= count_of(link));
    }
}

/// The traversal of a well-formed tree is strictly ascending and holds exactly the values
/// of the set, each of them once.
pub proof fn lemma_traversal_sorted<T: PartialOrd + PartialEq>(tree: BST<T>)
    requires
        total_order::<T>(),
        tree.wf(),
    ensures
        ascending(tree.inorder()),
        tree.inorder().no_duplicates(),
        tree.inorder().to_set() == tree@,
        tree@.finite(),
        tree.inorder().len() == tree@.len(),
{
    lemma_inorder_sorted(tree.root);
    lemma_values_counted(tree.root);
}

/// The walk by reference and the walk by value of one tree yield the same values in the
/// same order: each starts with the whole traversal to yield, as `BST::iter` and
/// `BST::into_iter` leave them, and each call of `next` takes the first value off.
pub proof fn lemma_walks_agree<T: PartialOrd + PartialEq>(
    tree: BST<T>,
    by_reference: BSTRefIter<T>,
    by_value: BSTConsumingIter<T>,
)
    requires
        by_reference@ == tree.inorder(),
        by_value@ == tree.inorder(),
    ensures
        by_reference@ == by_value@,
{
}

/// The height of a well-formed tree is logarithmic in the number of its values: a tree of
/// height `h` holds at least `2^(h/2)` of them.
pub proof fn lemma_height_bounded<T: PartialOrd + PartialEq>(tree: BST<T>)
    requires
        total_order::<T>(),
        tree.wf(),
    ensures
        tree.height() >= 0 ==> pow2((tree.height() / 2) as nat) <= tree@.len(),
        tree.height() == -1 <==> tree@.len() == 0,
{
    lemma_height_logarithmic(tree.root);
    lemma_values_counted(tree.root);
    lemma_height_floor(tree.root);
}

} // verus!
