use avl_bst::avl::{balance_factor, build_avl_tree, insert_avl_node, left_rotate, right_rotate};
use avl_bst::bst::{build_tree, insert_node, search, search_value, BuildError};
use avl_bst::tree::{height, in_order_keys, Node};

fn leaf(v: i32) -> Node {
    Node { value: v, left: None, right: None }
}

fn opt(n: Node) -> Option<Box<Node>> {
    Some(Box::new(n))
}

fn is_balanced(t: &Option<Box<Node>>) -> bool {
    match t {
        None => true,
        Some(n) => {
            let b = height(&n.left) - height(&n.right);
            (-1..=1).contains(&b) && is_balanced(&n.left) && is_balanced(&n.right)
        }
    }
}

fn is_sorted(v: &[i32]) -> bool {
    v.windows(2).all(|w| w[0] <= w[1])
}

#[test]
fn height_of_absent_subtree_is_zero() {
    assert_eq!(height(&None), 0);
    assert_eq!(height(&opt(leaf(7))), 1);
}

#[test]
fn bst_end_to_end_example() {
    let dataset = vec![5, 3, 8, 3, 9, 1];
    let root = build_tree(&dataset).unwrap();
    assert_eq!(in_order_keys(&opt(root)), vec![1, 3, 3, 5, 8, 9]);

    let root = build_tree(&dataset).unwrap();
    let h = height(&opt(build_tree(&dataset).unwrap()));
    let (found, reads) = search_value(&root, 8);
    assert!(found);
    assert!(reads <= 6);
    assert!(reads >= 1);
    assert!(reads <= h);
    let (found, _) = search_value(&root, 7);
    assert!(!found);
}

#[test]
fn avl_height_on_increasing_sequence() {
    let dataset = vec![1, 2, 3, 4, 5, 6, 7];
    let avl_root = build_avl_tree(&dataset).unwrap();
    assert!(height(&opt(avl_root)) <= 3);
    let bst_root = build_tree(&dataset).unwrap();
    assert_eq!(height(&opt(bst_root)), 7);
}

#[test]
fn in_order_is_sorted_for_both_engines() {
    let dataset = vec![42, 17, 99, 3, 17, 56, 8, 77, 1, 42];
    let bst_root = build_tree(&dataset).unwrap();
    assert!(is_sorted(&in_order_keys(&opt(bst_root))));
    let avl_root = build_avl_tree(&dataset).unwrap();
    assert!(is_sorted(&in_order_keys(&opt(avl_root))));
}

#[test]
fn trees_keep_every_key_of_the_dataset() {
    let dataset = vec![42, 17, 99, 3, 17, 56, 8, 77, 1, 42];
    let mut expected = dataset.clone();
    expected.sort();
    let bst_root = build_tree(&dataset).unwrap();
    assert_eq!(in_order_keys(&opt(bst_root)), expected);
    let avl_root = build_avl_tree(&dataset).unwrap();
    assert_eq!(in_order_keys(&opt(avl_root)), expected);
}

#[test]
fn search_finds_every_inserted_value() {
    let dataset = vec![42, 17, 99, 3, 17, 56, 8, 77, 1, 42];
    let bst_root = build_tree(&dataset).unwrap();
    let avl_root = build_avl_tree(&dataset).unwrap();
    for &v in &dataset {
        assert!(search_value(&bst_root, v).0);
        assert!(search_value(&avl_root, v).0);
    }
}

#[test]
fn search_misses_absent_values() {
    let dataset = vec![42, 17, 99, 3, 17, 56, 8, 77, 1, 42];
    let bst_root = build_tree(&dataset).unwrap();
    let avl_root = build_avl_tree(&dataset).unwrap();
    for v in [0, 2, 100, -5, 55] {
        assert!(!search_value(&bst_root, v).0);
        assert!(!search_value(&avl_root, v).0);
    }
}

#[test]
fn search_comparison_count_is_bounded_by_height() {
    let dataset = vec![42, 17, 99, 3, 17, 56, 8, 77, 1, 42];
    let bst_root = build_tree(&dataset).unwrap();
    let h = height(&opt(build_tree(&dataset).unwrap()));
    for v in [42, 1, 99, 0, 1000] {
        let (_, reads) = search_value(&bst_root, v);
        assert!(reads >= 1);
        assert!(reads <= h);
    }
}

#[test]
fn search_counts_nodes_on_the_descent_path() {
    let dataset = vec![5, 3, 8, 3, 9, 1];
    let root = build_tree(&dataset).unwrap();
    let mut reads = 0;
    assert!(search(8, &root, &mut reads));
    assert_eq!(reads, 2);
    let mut reads = 0;
    assert!(!search(7, &root, &mut reads));
    assert_eq!(reads, 2);
    let mut reads = 0;
    assert!(!search(2, &root, &mut reads));
    assert_eq!(reads, 4);
}

#[test]
fn rotation_round_trip_preserves_in_order() {
    let t = Node {
        value: 4,
        left: Some(Box::new(leaf(2))),
        right: Some(Box::new(Node {
            value: 8,
            left: Some(Box::new(leaf(6))),
            right: Some(Box::new(leaf(9))),
        })),
    };
    let mut tree = opt(t);
    let before = in_order_keys(&tree);
    left_rotate(&mut tree);
    right_rotate(&mut tree);
    assert_eq!(in_order_keys(&tree), before);

    let t = Node {
        value: 4,
        left: Some(Box::new(Node {
            value: 2,
            left: Some(Box::new(leaf(1))),
            right: Some(Box::new(leaf(3))),
        })),
        right: Some(Box::new(leaf(8))),
    };
    let mut tree = opt(t);
    let before = in_order_keys(&tree);
    right_rotate(&mut tree);
    left_rotate(&mut tree);
    assert_eq!(in_order_keys(&tree), before);
}

#[test]
fn noop_rotation_leaves_tree_unchanged() {
    let mut tree = opt(Node { value: 4, left: Some(Box::new(leaf(2))), right: None });
    let before = in_order_keys(&tree);
    let h_before = height(&tree);
    left_rotate(&mut tree);
    assert_eq!(in_order_keys(&tree), before);
    assert_eq!(height(&tree), h_before);

    let mut tree = opt(Node { value: 4, left: None, right: Some(Box::new(leaf(6))) });
    let before = in_order_keys(&tree);
    let h_before = height(&tree);
    right_rotate(&mut tree);
    assert_eq!(in_order_keys(&tree), before);
    assert_eq!(height(&tree), h_before);

    let mut tree: Option<Box<Node>> = None;
    left_rotate(&mut tree);
    assert!(tree.is_none());
    assert_eq!(height(&tree), 0);
}

#[test]
fn empty_dataset_is_rejected() {
    let empty: Vec<i32> = Vec::new();
    assert!(matches!(build_tree(&empty), Err(BuildError::EmptyDataset)));
    assert!(matches!(build_avl_tree(&empty), Err(BuildError::EmptyDataset)));
}

#[test]
fn insert_node_ties_go_left() {
    let mut root = leaf(5);
    insert_node(5, &mut root);
    insert_node(7, &mut root);
    assert_eq!(in_order_keys(&root.left), vec![5]);
    assert_eq!(in_order_keys(&root.right), vec![7]);
    assert_eq!(in_order_keys(&opt(root)), vec![5, 5, 7]);
}

#[test]
fn avl_insert_keeps_every_node_balanced() {
    let mut tree: Option<Box<Node>> = None;
    for v in [10, 20, 30, 40, 50, 25, 25, 5, 1, 2, 3] {
        insert_avl_node(v, &mut tree);
        assert!(is_balanced(&tree));
        assert!(is_sorted(&in_order_keys(&tree)));
    }
    assert_eq!(in_order_keys(&tree), vec![1, 2, 3, 5, 10, 20, 25, 25, 30, 40, 50]);
}

#[test]
fn avl_stays_balanced_on_equal_keys() {
    let dataset = vec![3, 3, 3, 3, 3, 3, 3];
    let root = build_avl_tree(&dataset).unwrap();
    assert_eq!(in_order_keys(&opt(root)), vec![3, 3, 3, 3, 3, 3, 3]);
    let root = build_avl_tree(&dataset).unwrap();
    assert!(is_balanced(&opt(root)));
}

#[test]
fn balance_factor_is_left_height_minus_right_height() {
    let mut boxed = Box::new(Node {
        value: 5,
        left: Some(Box::new(Node { value: 3, left: Some(Box::new(leaf(2))), right: None })),
        right: Some(Box::new(leaf(8))),
    });
    assert_eq!(balance_factor(&mut boxed), 1);
    let mut boxed = Box::new(leaf(5));
    assert_eq!(balance_factor(&mut boxed), 0);
    let mut boxed = Box::new(Node { value: 5, left: None, right: Some(Box::new(leaf(8))) });
    assert_eq!(balance_factor(&mut boxed), -1);
}
