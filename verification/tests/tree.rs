use bst::{Node, BST};

fn by_reference(bst: &BST<i32>) -> Vec<i32> {
    let mut values = Vec::new();
    let mut walk = bst.iter();
    while let Some(value) = walk.next() {
        values.push(*value);
    }
    values
}

fn by_value(bst: BST<i32>) -> Vec<i32> {
    let mut values = Vec::new();
    let mut walk = bst.into_iter();
    while let Some(value) = walk.next() {
        values.push(value);
    }
    values
}

#[test]
fn empty() {
    let bst = BST::new();
    assert_eq!(bst, BST { root: None });
    assert_ne!(bst, BST { root: Node::new_node(11, None, None ) });
}

#[test]
fn root_eq() {
    let mut bst: BST<i32> = BST::new();
    bst.insert(10);
    assert_eq!(bst, BST { root: Node::new_node(10, None, None ) });
    assert_ne!(bst, BST { root: Node::new_node(11, None, None ) });
    assert_ne!(bst, BST { root: Node::new_node(11, Node::new_node(10, None, None), None ) });
}

#[test]
fn insert_simple() {
    let mut bst: BST<i32> = BST::new();
    bst.insert(10);
    assert_eq!(
        bst,
        BST {
            root: Node::new_node(
                10,
                None,
                None,
            )
        }
    );
    bst.insert(20);
    assert_eq!(
        bst,
        BST {
            root: Node::new_node(
                10,
                None,
                Node::new_node(
                    20,
                    None,
                    None,
                ),
            )
        }
    );
    bst.insert(30);
    assert_eq!(
        bst,
        BST {
            root: Node::new_node(
                20,
                Node::new_node(
                    10,
                    None,
                    None,
                ),
                Node::new_node(
                    30,
                    None,
                    None,
                ),
            )
        }
    );
    bst.insert(40);
    assert_eq!(
        bst,
        BST {
            root: Node::new_node(
                20,
                Node::new_node(
                    10,
                    None,
                    None,
                ),
                Node::new_node(
                    30,
                    None,
                    Node::new_node(
                        40,
                        None,
                        None,
                    )
                ),
            )
        }
    )
}

#[test]
fn insert() {
    let mut bst: BST<i32> = BST::new();
    bst.insert(10);
    bst.insert(5);
    bst.insert(15);
    bst.insert(12);
    bst.insert(18);
    bst.insert(11);
    bst.insert(13);
    bst.insert(17);
    bst.insert(19);
    bst.insert(15);
    bst.insert(12);
    bst.insert(10);
    assert_eq!(
        bst,
        BST {
            root: Node::new_node(
                12,
                Node::new_node(
                    10,
                    Node::new_node(5, None, None),
                    Node::new_node(11, None, None),
                ),
                Node::new_node(
                    15,
                    Node::new_node(
                        13,
                        None,
                        None,
                    ),
                    Node::new_node(
                        18,
                        Node::new_node(17, None, None),
                        Node::new_node(19, None, None),
                    ),
                ),
            )
        }
    );
}

#[test]
fn delete() {
    let mut bst: BST<i32> = BST::new();
    bst.insert(10);
    bst.insert(5);
    bst.insert(15);
    bst.insert(12);
    bst.insert(18);
    bst.insert(11);
    bst.insert(13);
    bst.insert(17);
    bst.insert(19);

    bst.delete(10);
    bst.delete(11);
    bst.delete(5);
    bst.delete(18);
        assert_eq!(
        bst,
        BST {
            root: Node::new_node(
                15,
                Node::new_node(
                    12,
                    None,
                    Node::new_node(
                        13,
                        None,
                        None,
                    ),
                ),
                Node::new_node(
                    19,
                    Node::new_node(
                        17,
                        None,
                        None,
                    ),
                    None,
                ),
            )
        }
    );

    bst.delete(12);
    bst.delete(15);
    bst.delete(19);
    bst.delete(17);
    bst.delete(13);
    assert_eq!(bst, BST { root: None });
}

#[test]
fn delete_root() {
    let mut bst: BST<i32> = BST::new();
    bst.insert(10);
    bst.insert(20);
    bst.insert(9);
    bst.insert(8);
    bst.insert(7);

    assert_eq!(
        bst,
        BST {
            root: Node::new_node(
                10,
                Node::new_node(
                    8,
                    Node::new_node(
                        7,
                        None,
                        None
                    ),
                    Node::new_node(
                        9,
                        None,
                        None
                    ),
                ),
                Node::new_node(
                    20,
                    None,
                    None,
                ),
            )
        }
    );

    assert_eq!(bst.root.as_ref().unwrap().height, 2);
    assert_eq!(bst.root.as_ref().unwrap().balance_factor, -1);
    assert_eq!(bst.root.as_ref().unwrap().left.as_ref().unwrap().height, 1);
    assert_eq!(bst.root.as_ref().unwrap().left.as_ref().unwrap().balance_factor, 0);
    assert_eq!(bst.root.as_ref().unwrap().left.as_ref().unwrap().left.as_ref().unwrap().height, 0);
    assert_eq!(bst.root.as_ref().unwrap().left.as_ref().unwrap().left.as_ref().unwrap().balance_factor, 0);
    assert_eq!(bst.root.as_ref().unwrap().left.as_ref().unwrap().right.as_ref().unwrap().height, 0);
    assert_eq!(bst.root.as_ref().unwrap().left.as_ref().unwrap().right.as_ref().unwrap().balance_factor, 0);
    assert_eq!(bst.root.as_ref().unwrap().right.as_ref().unwrap().height, 0);
    assert_eq!(bst.root.as_ref().unwrap().right.as_ref().unwrap().balance_factor, 0);

    bst.delete(10);

    assert_eq!(
        bst,
        BST {
            root: Node::new_node(
                8,
                Node::new_node(
                    7,
                    None,
                    None,
                ),
                Node::new_node(
                    20,
                    Node::new_node(
                        9,
                        None,
                        None
                    ),
                    None
                ),
            )
        }
    );

    assert_eq!(bst.root.as_ref().unwrap().height, 2);
    assert_eq!(bst.root.as_ref().unwrap().balance_factor, 1);
    assert_eq!(bst.root.as_ref().unwrap().left.as_ref().unwrap().height, 0);
    assert_eq!(bst.root.as_ref().unwrap().left.as_ref().unwrap().balance_factor, 0);
    assert_eq!(bst.root.as_ref().unwrap().right.as_ref().unwrap().height, 1);
    assert_eq!(bst.root.as_ref().unwrap().right.as_ref().unwrap().balance_factor, -1);
    assert_eq!(bst.root.as_ref().unwrap().right.as_ref().unwrap().left.as_ref().unwrap().height, 0);
    assert_eq!(bst.root.as_ref().unwrap().right.as_ref().unwrap().left.as_ref().unwrap().balance_factor, 0);
}

#[test]
fn contains_simple() {
    let mut bst: BST<i32> = BST::new();
    bst.insert(10);
    bst.insert(5);
    bst.insert(10);
    bst.insert(7);

    assert!(bst.contains(10));
    assert!(bst.contains(5));
    assert!(bst.contains(7));
    assert!(!bst.contains(1313));
}

#[test]
fn contains() {
    let mut bst: BST<i32> = BST::new();
    bst.insert(10);
    bst.insert(5);
    bst.insert(10);
    bst.insert(7);

    assert!(bst.contains(10));
    assert!(bst.contains(5));
    assert!(bst.contains(7));
    assert!(!bst.contains(1313));

    bst.delete(10);
    bst.delete(7);
    bst.delete(1313);

    assert!(!bst.contains(10));
    assert!(bst.contains(5));
    assert!(!bst.contains(7));
    assert!(!bst.contains(1313));
    assert!(!bst.contains(1414));
}

#[test]
fn iter() {
    let mut bst: BST<i32> = BST::new();
    bst.insert(10);
    bst.insert(5);
    bst.insert(15);
    bst.insert(12);
    bst.insert(18);
    bst.insert(11);
    bst.insert(13);
    bst.insert(17);
    bst.insert(19);
    bst.insert(15);
    bst.insert(12);
    bst.insert(10);

    let sorted_values: Vec<i32> = vec![5, 10, 11, 12, 13, 15, 17, 18, 19];
    assert_eq!(sorted_values, by_reference(&bst));

    bst.delete(10);
    let sorted_values: Vec<i32> = vec![5, 11, 12, 13, 15, 17, 18, 19];
    assert_eq!(sorted_values, by_reference(&bst));

    bst.insert(14);
    let sorted_values: Vec<i32> = vec![5, 11, 12, 13, 14, 15, 17, 18, 19];
    assert_eq!(sorted_values, by_reference(&bst));
    assert_eq!(sorted_values, by_value(bst));
}

#[test]
fn left_rotation_of_root() {
    let mut bst: BST<i32> = BST::new();
    bst.insert(100);
    bst.insert(50);
    bst.insert(200);
    bst.insert(25);
    bst.insert(75);
    bst.insert(150);
    bst.insert(250);
    bst.insert(120);
    bst.insert(170);
    bst.insert(220);
    bst.insert(270);
    bst.insert(210);
    bst.insert(230);
    bst.insert(260);
    bst.insert(280);

    assert_eq!(
        bst,
        BST {
            root: Node::new_node(
                200,
                Node::new_node(
                    100,
                    Node::new_node(
                        50,
                        Node::new_node(
                            25,
                            None,
                            None,
                        ),
                        Node::new_node(
                            75,
                            None,
                            None,
                        ),
                    ),
                    Node::new_node(
                        150,
                        Node::new_node(
                            120,
                            None,
                            None,
                        ),
                        Node::new_node(
                            170,
                            None,
                            None,
                        ),
                    )
                ),
                Node::new_node(
                    250,
                    Node::new_node(
                        220,
                        Node::new_node(
                            210,
                            None,
                            None,
                        ),
                        Node::new_node(
                            230,
                            None,
                            None,
                        ),
                    ),
                    Node::new_node(
                        270,
                        Node::new_node(
                            260,
                            None,
                            None,
                        ),
                        Node::new_node(
                            280,
                            None,
                            None,
                        ),
                    ),
                )
            )
        }
    );
}

#[test]
fn right_rotation_of_root() {
    let mut bst: BST<i32> = BST::new();
    bst.insert(100);
    bst.insert(50);
    bst.insert(20);
    assert_eq!(
        bst,
        BST { root: Node::new_node(50, Node::new_node(20, None, None), Node::new_node(100, None, None)) }
    );
}

#[test]
fn rotate_in_get_leftmost() {
    let mut bst: BST<i32> = BST::new();
    bst.insert(3);
    bst.insert(1);
    bst.insert(5);
    bst.insert(2);
    bst.insert(4);
    bst.insert(6);
    bst.insert(7);

    bst.delete(1);

    assert_eq!(
        bst,
        BST {
            root: Node::new_node(
                5,
                Node::new_node(
                    3,
                    Node::new_node(
                        2,
                        None,
                        None,
                    ),
                    Node::new_node(
                        4,
                        None,
                        None,
                    ),
                ),
                Node::new_node(
                    6,
                    None,
                    Node::new_node(
                        7,
                        None,
                        None,
                    ),
                )
            )
        }
    );
}

#[test]
fn test_rotation_of_right_in_delete_by_node() {
    let mut bst: BST<i32> = BST::new();
    bst.insert(5);
    bst.insert(3);
    bst.insert(7);
    bst.insert(6);
    bst.insert(2);
    bst.insert(4);
    bst.insert(9);
    bst.insert(8);
    bst.insert(10);
    bst.insert(1);

    assert_eq!(
        bst,
        BST {root: Node::new_node(
            5,
            Node::new_node(
                3,
                Node::new_node(
                    2,
                    Node::new_node(
                        1,
                        None,
                        None
                    ),
                    None
                ),
                Node::new_node(
                    4,
                    None,
                    None
                ),
            ),
            Node::new_node(
                7,
                Node::new_node(
                    6,
                    None,
                    None
                ),
                Node::new_node(
                    9,
                    Node::new_node(
                        8,
                        None,
                        None
                    ),
                    Node::new_node(
                        10,
                        None,
                        None
                    )
                )
            )
        )}
    );

    bst.delete(5);

    assert_eq!(
        bst,
        BST {root: Node::new_node(
            6,
            Node::new_node(
                3,
                Node::new_node(
                    2,
                    Node::new_node(
                        1,
                        None,
                        None
                    ),
                    None
                ),
                Node::new_node(
                    4,
                    None,
                    None
                ),
            ),
            Node::new_node(
                9,
                Node::new_node(
                    7,
                    None,
                    Node::new_node(
                        8,
                        None,
                        None
                    )
                ),
                Node::new_node(
                    10,
                    None,
                    None
                )
            )
        )}
    );


}
