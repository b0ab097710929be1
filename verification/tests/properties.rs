use bst::{Node, BST};
use std::collections::BTreeSet;

fn leaf(value: i32) -> Option<Box<Node<i32>>> {
    Node::new_node(value, None, None)
}

fn tree_of(values: &[i32]) -> BST<i32> {
    let mut tree: BST<i32> = BST::new();
    for value in values {
        tree.insert(*value);
    }
    tree
}

fn walk(tree: &BST<i32>) -> Vec<i32> {
    let mut values: Vec<i32> = Vec::new();
    let mut it = tree.iter();
    while let Some(value) = it.next() {
        values.push(*value);
    }
    values
}

fn drain(tree: BST<i32>) -> Vec<i32> {
    let mut values: Vec<i32> = Vec::new();
    let mut it = tree.into_iter();
    while let Some(value) = it.next() {
        values.push(value);
    }
    values
}

/// Checks order, balance and cached bookkeeping below `link`; returns its height.
fn audit(link: &Option<Box<Node<i32>>>, low: Option<i32>, high: Option<i32>) -> i32 {
    match link {
        None => -1,
        Some(node) => {
            if let Some(bound) = low {
                assert!(node.value > bound);
            }
            if let Some(bound) = high {
                assert!(node.value < bound);
            }
            let left: i32 = audit(&node.left, low, Some(node.value));
            let right: i32 = audit(&node.right, Some(node.value), high);
            let height: i32 = 1 + left.max(right);
            assert_eq!(node.height as i32, height);
            assert_eq!(node.balance_factor, right - left);
            assert!(right - left >= -1 && right - left <= 1);
            height
        }
    }
}

fn height(tree: &BST<i32>) -> i32 {
    audit(&tree.root, None, None)
}

#[test]
fn new_tree_is_empty() {
    let tree: BST<i32> = BST::new();
    assert!(tree.root.is_none());
    assert!(!tree.contains(0));
    assert_eq!(walk(&tree), Vec::<i32>::new());
    assert_eq!(height(&tree), -1);
}

#[test]
fn default_is_the_empty_tree() {
    let tree: BST<i32> = BST::default();
    assert_eq!(tree, BST::new());
}

#[test]
fn new_node_computes_height_and_balance() {
    let single = leaf(7).unwrap();
    assert_eq!(single.value, 7);
    assert_eq!(single.height, 0);
    assert_eq!(single.balance_factor, 0);

    let left_only = Node::new_node(7, leaf(3), None).unwrap();
    assert_eq!(left_only.height, 1);
    assert_eq!(left_only.balance_factor, -1);

    let right_only = Node::new_node(7, None, leaf(9)).unwrap();
    assert_eq!(right_only.height, 1);
    assert_eq!(right_only.balance_factor, 1);

    let deep_left = Node::new_node(7, Node::new_node(3, leaf(1), None), None).unwrap();
    assert_eq!(deep_left.height, 2);
    assert_eq!(deep_left.balance_factor, -2);

    let deep_right = Node::new_node(7, None, Node::new_node(9, None, leaf(11))).unwrap();
    assert_eq!(deep_right.height, 2);
    assert_eq!(deep_right.balance_factor, 2);

    let both = Node::new_node(7, leaf(3), Node::new_node(9, None, leaf(11))).unwrap();
    assert_eq!(both.height, 2);
    assert_eq!(both.balance_factor, 1);
    assert_eq!(both.get_balance_factor(), 1);
}

#[test]
fn update_height_follows_the_children() {
    let mut node = *Node::new_node(7, leaf(3), None).unwrap();
    node.right = Node::new_node(9, None, leaf(11));
    assert_eq!(node.height, 1);
    assert_eq!(node.balance_factor, -1);
    node.update_height();
    assert_eq!(node.height, 2);
    assert_eq!(node.balance_factor, 1);
}

#[test]
fn add_left_and_add_right_hang_leaves() {
    let mut node = *leaf(7).unwrap();
    node.add_left(3);
    node.add_right(9);
    assert_eq!(node.left, leaf(3));
    assert_eq!(node.right, leaf(9));
    assert_eq!(node.height, 0);
    node.update_height();
    assert_eq!(Some(Box::new(node)), Node::new_node(7, leaf(3), leaf(9)));
}

#[test]
fn left_rotation_lifts_the_right_child() {
    let node = *Node::new_node(10, leaf(5), Node::new_node(20, leaf(15), leaf(25))).unwrap();
    assert_eq!(
        node.left_rotation(),
        Node::new_node(20, Node::new_node(10, leaf(5), leaf(15)), leaf(25))
    );
}

#[test]
fn right_rotation_lifts_the_left_child() {
    let node = *Node::new_node(20, Node::new_node(10, leaf(5), leaf(15)), leaf(25)).unwrap();
    assert_eq!(
        node.right_rotation(),
        Node::new_node(10, leaf(5), Node::new_node(20, leaf(15), leaf(25)))
    );
}

#[test]
fn rotation_without_the_child_gives_nothing() {
    assert_eq!((*leaf(1).unwrap()).left_rotation(), None);
    assert_eq!((*leaf(1).unwrap()).right_rotation(), None);
    assert_eq!((*Node::new_node(2, leaf(1), None).unwrap()).left_rotation(), None);
    assert_eq!((*Node::new_node(2, None, leaf(3)).unwrap()).right_rotation(), None);
}

#[test]
fn rotate_leaves_a_balanced_node_alone() {
    for shape in 0..3 {
        let build = || match shape {
            0 => Node::new_node(2, leaf(1), None),
            1 => Node::new_node(2, leaf(1), leaf(3)),
            _ => Node::new_node(2, None, leaf(3)),
        };
        assert_eq!((*build().unwrap()).rotate(), build());
    }
}

#[test]
fn rotate_left_heavy_single() {
    let node = *Node::new_node(30, Node::new_node(20, leaf(10), None), None).unwrap();
    assert_eq!(node.rotate(), Node::new_node(20, leaf(10), leaf(30)));
}

#[test]
fn rotate_left_heavy_zig_zag() {
    let node = *Node::new_node(30, Node::new_node(10, None, leaf(20)), None).unwrap();
    assert_eq!(node.rotate(), Node::new_node(20, leaf(10), leaf(30)));
}

#[test]
fn rotate_right_heavy_single() {
    let node = *Node::new_node(10, None, Node::new_node(20, None, leaf(30))).unwrap();
    assert_eq!(node.rotate(), Node::new_node(20, leaf(10), leaf(30)));
}

#[test]
fn rotate_right_heavy_zig_zag() {
    let node = *Node::new_node(10, None, Node::new_node(30, leaf(20), None)).unwrap();
    assert_eq!(node.rotate(), Node::new_node(20, leaf(10), leaf(30)));
}

#[test]
fn rotate_left_heavy_with_even_child_rotates_once() {
    let node = *Node::new_node(
        40,
        Node::new_node(20, Node::new_node(10, leaf(5), None), Node::new_node(30, leaf(25), None)),
        leaf(50),
    )
    .unwrap();
    assert_eq!(node.balance_factor, -2);
    assert_eq!(
        node.rotate(),
        Node::new_node(
            20,
            Node::new_node(10, leaf(5), None),
            Node::new_node(40, Node::new_node(30, leaf(25), None), leaf(50)),
        )
    );
}

#[test]
fn insert_zig_zag_cases_rebalance() {
    assert_eq!(tree_of(&[30, 10, 20]), BST { root: Node::new_node(20, leaf(10), leaf(30)) });
    assert_eq!(tree_of(&[10, 30, 20]), BST { root: Node::new_node(20, leaf(10), leaf(30)) });
    assert_eq!(tree_of(&[10, 20, 30]), BST { root: Node::new_node(20, leaf(10), leaf(30)) });
}

#[test]
fn single_right_rotation_scenario() {
    let tree = tree_of(&[100, 50, 20]);
    let root = tree.root.as_ref().unwrap();
    assert_eq!(root.value, 50);
    assert_eq!(root.left.as_ref().unwrap().value, 20);
    assert_eq!(root.right.as_ref().unwrap().value, 100);
    assert_eq!(root.height, 1);
    assert_eq!(root.balance_factor, 0);
}

#[test]
fn node_insert_returns_the_new_subtree() {
    let node = *leaf(10).unwrap();
    assert_eq!(node.insert(5), Node::new_node(10, leaf(5), None));
    let node = *Node::new_node(10, leaf(5), None).unwrap();
    assert_eq!(node.insert(1), Node::new_node(5, leaf(1), leaf(10)));
    let node = *Node::new_node(10, leaf(5), None).unwrap();
    assert_eq!(node.insert(10), Node::new_node(10, leaf(5), None));
}

#[test]
fn node_contains_searches_by_order() {
    let node = Node::new_node(10, leaf(5), leaf(15)).unwrap();
    assert!(node.contains(10));
    assert!(node.contains(5));
    assert!(node.contains(15));
    assert!(!node.contains(7));
    assert!(!node.contains(20));
}

#[test]
fn scenario_insert_contains_delete() {
    let mut tree = tree_of(&[10, 5, 15, 12, 18, 11, 13, 17, 19]);
    assert!(tree.contains(15));
    assert!(!tree.contains(1968));
    tree.delete(10);
    tree.delete(11);
    tree.delete(5);
    tree.delete(18);
    assert_eq!(walk(&tree), vec![12, 13, 15, 17, 19]);
    let factor: i32 = tree.root.as_ref().unwrap().balance_factor;
    assert!(factor >= -1 && factor <= 1);
    assert_eq!(height(&tree), 2);
}

#[test]
fn duplicate_insert_changes_nothing() {
    let values: [i32; 9] = [10, 5, 15, 12, 18, 11, 13, 17, 19];
    for value in values {
        let mut tree = tree_of(&values);
        tree.insert(value);
        assert_eq!(tree, tree_of(&values));
        assert_eq!(walk(&tree), vec![5, 10, 11, 12, 13, 15, 17, 18, 19]);
    }
}

#[test]
fn delete_on_empty_tree_is_a_no_op() {
    let mut tree: BST<i32> = BST::new();
    tree.delete(1);
    assert_eq!(tree, BST::new());
}

#[test]
fn delete_of_absent_value_keeps_every_subtree() {
    let values: [i32; 9] = [10, 5, 15, 12, 18, 11, 13, 17, 19];
    for absent in [0, 6, 14, 16, 1968] {
        let mut tree = tree_of(&values);
        tree.delete(absent);
        assert_eq!(tree, tree_of(&values));
    }
    let mut tree = tree_of(&[10, 20]);
    tree.delete(5);
    assert_eq!(tree, BST { root: Node::new_node(10, None, leaf(20)) });
    let mut tree = tree_of(&[10, 5]);
    tree.delete(20);
    assert_eq!(tree, BST { root: Node::new_node(10, leaf(5), None) });
}

#[test]
fn node_delete_of_its_own_value_changes_nothing() {
    let node = *Node::new_node(10, leaf(5), leaf(15)).unwrap();
    assert_eq!(node.delete(10), Node::new_node(10, leaf(5), leaf(15)));
}

#[test]
fn node_delete_splices_a_child() {
    let node = *Node::new_node(10, leaf(5), leaf(15)).unwrap();
    assert_eq!(node.delete(15), Node::new_node(10, leaf(5), None));
    let node = *Node::new_node(10, leaf(5), leaf(15)).unwrap();
    assert_eq!(node.delete(5), Node::new_node(10, None, leaf(15)));
    let node = *Node::new_node(10, Node::new_node(5, leaf(1), None), leaf(15)).unwrap();
    assert_eq!(node.delete(15), Node::new_node(5, leaf(1), leaf(10)));
}

#[test]
fn delete_by_node_covers_each_shape() {
    assert_eq!(Node::<i32>::delete_by_node(None), None);
    assert_eq!(Node::delete_by_node(leaf(1)), None);
    assert_eq!(Node::delete_by_node(Node::new_node(2, leaf(1), None)), leaf(1));
    assert_eq!(Node::delete_by_node(Node::new_node(2, None, leaf(3))), leaf(3));
    assert_eq!(
        Node::delete_by_node(Node::new_node(2, leaf(1), leaf(3))),
        Node::new_node(3, leaf(1), None)
    );
    assert_eq!(
        Node::delete_by_node(Node::new_node(
            4,
            Node::new_node(2, leaf(1), None),
            Node::new_node(8, leaf(6), leaf(9)),
        )),
        Node::new_node(6, Node::new_node(2, leaf(1), None), Node::new_node(8, None, leaf(9)))
    );
}

#[test]
fn delete_get_leftmost_detaches_the_minimum() {
    let mut lone = *leaf(5).unwrap();
    assert_eq!(lone.delete_get_leftmost(), None);
    assert_eq!(Some(Box::new(lone)), leaf(5));

    let mut node = *Node::new_node(8, leaf(6), leaf(9)).unwrap();
    assert_eq!(node.delete_get_leftmost(), leaf(6));
    assert_eq!(node.left, None);
    assert_eq!(node.right, leaf(9));
    assert_eq!(node.height, 1);

    let mut node = *Node::new_node(8, Node::new_node(6, None, leaf(7)), leaf(9)).unwrap();
    assert_eq!(node.delete_get_leftmost(), leaf(6));
    assert_eq!(node.left, leaf(7));
}

#[test]
fn delete_get_leftmost_rebalances_the_spine() {
    let mut node = *Node::new_node(
        100,
        Node::new_node(70, leaf(60), Node::new_node(80, None, leaf(90))),
        Node::new_node(150, leaf(120), Node::new_node(200, None, leaf(250))),
    )
    .unwrap();
    assert_eq!(node.delete_get_leftmost(), leaf(60));
    assert_eq!(node.left, Node::new_node(80, leaf(70), leaf(90)));
}

#[test]
fn delete_with_deep_successor_rebalances_every_ancestor() {
    let left = || Node::new_node(25, Node::new_node(10, leaf(5), None), leaf(40));
    let far = || Node::new_node(150, leaf(120), Node::new_node(200, None, leaf(250)));
    let mut tree = BST {
        root: Node::new_node(
            50,
            left(),
            Node::new_node(
                100,
                Node::new_node(70, leaf(60), Node::new_node(80, None, leaf(90))),
                far(),
            ),
        ),
    };
    assert_eq!(height(&tree), 4);
    tree.delete(50);
    assert_eq!(
        tree,
        BST {
            root: Node::new_node(
                60,
                left(),
                Node::new_node(100, Node::new_node(80, leaf(70), leaf(90)), far()),
            )
        }
    );
    assert_eq!(height(&tree), 4);
}

#[test]
fn delete_root_with_zero_one_and_two_children() {
    let mut tree = tree_of(&[10]);
    tree.delete(10);
    assert_eq!(tree, BST::new());

    let mut tree = tree_of(&[10, 5]);
    tree.delete(10);
    assert_eq!(tree, BST { root: leaf(5) });

    let mut tree = tree_of(&[10, 15]);
    tree.delete(10);
    assert_eq!(tree, BST { root: leaf(15) });

    let mut tree = tree_of(&[10, 5, 15]);
    tree.delete(10);
    assert_eq!(tree, BST { root: Node::new_node(15, leaf(5), None) });
}

#[test]
fn iterators_on_empty_tree_yield_nothing() {
    let tree: BST<i32> = BST::new();
    let mut by_reference = tree.iter();
    assert_eq!(by_reference.next(), None);
    assert_eq!(by_reference.next(), None);
    let mut by_value = tree.into_iter();
    assert_eq!(by_value.next(), None);
    assert_eq!(by_value.next(), None);
}

#[test]
fn iterators_yield_one_value_per_call_then_none() {
    let tree = tree_of(&[2, 1, 3]);
    let mut by_reference = tree.iter();
    assert_eq!(by_reference.next(), Some(&1));
    assert_eq!(by_reference.next(), Some(&2));
    assert_eq!(by_reference.next(), Some(&3));
    assert_eq!(by_reference.next(), None);
    assert_eq!(by_reference.next(), None);
    let mut by_value = tree.into_iter();
    assert_eq!(by_value.next(), Some(1));
    assert_eq!(by_value.next(), Some(2));
    assert_eq!(by_value.next(), Some(3));
    assert_eq!(by_value.next(), None);
    assert_eq!(by_value.next(), None);
}

#[test]
fn both_walks_agree() {
    let values: [i32; 12] = [50, 20, 80, 10, 30, 70, 90, 5, 25, 35, 85, 95];
    let tree = tree_of(&values);
    let by_reference = walk(&tree);
    assert_eq!(by_reference, vec![5, 10, 20, 25, 30, 35, 50, 70, 80, 85, 90, 95]);
    assert_eq!(drain(tree), by_reference);
}

#[test]
fn ascending_insertion_stays_logarithmic() {
    let mut tree: BST<i32> = BST::new();
    for value in 1..=1023 {
        tree.insert(value);
    }
    assert_eq!(height(&tree), 9);
    assert_eq!(tree.root.as_ref().unwrap().value, 512);
    tree.insert(1024);
    assert_eq!(height(&tree), 10);
    assert_eq!(walk(&tree), (1..=1024).collect::<Vec<i32>>());
}

#[test]
fn descending_insertion_stays_logarithmic() {
    let mut tree: BST<i32> = BST::new();
    for value in (1..=100).rev() {
        tree.insert(value);
    }
    assert_eq!(height(&tree), 6);
    assert_eq!(walk(&tree), (1..=100).collect::<Vec<i32>>());
}

#[test]
fn invariants_hold_through_mixed_operations() {
    let mut tree: BST<i32> = BST::new();
    let mut model: BTreeSet<i32> = BTreeSet::new();
    let mut state: u64 = 0x2545_f491_4f6c_dd1d;
    for step in 0..4000 {
        state = state.wrapping_mul(6364136223846793005).wrapping_add(1442695040888963407);
        let value: i32 = ((state >> 33) % 200) as i32;
        let remove: bool = (state >> 20) % 3 == 0;
        if remove {
            tree.delete(value);
            model.remove(&value);
        } else {
            tree.insert(value);
            model.insert(value);
        }
        let tall: i32 = height(&tree);
        let size: usize = model.len();
        assert!(size == 0 || (1usize << ((tall / 2) as u32)) <= size);
        assert_eq!(tree.contains(value), model.contains(&value));
        if step % 97 == 0 {
            assert_eq!(walk(&tree), model.iter().copied().collect::<Vec<i32>>());
            for probe in 0..200 {
                assert_eq!(tree.contains(probe), model.contains(&probe));
            }
        }
    }
    assert_eq!(walk(&tree), model.iter().copied().collect::<Vec<i32>>());
    assert_eq!(drain(tree), model.iter().copied().collect::<Vec<i32>>());
}

#[test]
fn deleting_everything_empties_the_tree() {
    let mut tree: BST<i32> = BST::new();
    for value in 0..64 {
        tree.insert((value * 37) % 64);
    }
    assert_eq!(height(&tree), 6);
    for value in 0..64 {
        tree.delete((value * 29) % 64);
        height(&tree);
        assert!(!tree.contains((value * 29) % 64));
    }
    assert_eq!(tree, BST::new());
}

#[test]
fn works_over_string_slices() {
    let mut tree: BST<&str> = BST::new();
    tree.insert("bbb");
    tree.insert("aaa");
    tree.insert("ccc");
    tree.insert("aaa");
    assert!(tree.contains("aaa"));
    assert!(!tree.contains("abc"));
    let mut values: Vec<&str> = Vec::new();
    let mut it = tree.iter();
    while let Some(value) = it.next() {
        values.push(*value);
    }
    assert_eq!(values, vec!["aaa", "bbb", "ccc"]);
    tree.delete("bbb");
    assert!(!tree.contains("bbb"));
    assert_eq!(tree.root.as_ref().unwrap().value, "ccc");
}
