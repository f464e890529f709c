use bst::bst::{BSTNode, BSTree};
use bst::entry::{Order, Word};

fn keep(x: u64) -> u64 {
    x
}

fn in_order(tree: &BSTree<u64>) -> Vec<u64> {
    tree.traverse(Order::In).into_iter().copied().collect()
}

fn tree_of(keys: &[u64]) -> BSTree<u64> {
    let mut tree = BSTree::new();
    for k in keys {
        tree.insert_fn(*k, keep);
    }
    tree
}

fn assert_bounds(node: &Option<Box<BSTNode<u64>>>, lo: Option<u64>, hi: Option<u64>) {
    if let Some(n) = node {
        if let Some(l) = lo {
            assert!(l < n.data);
        }
        if let Some(h) = hi {
            assert!(n.data < h);
        }
        assert_bounds(&n.left, lo, Some(n.data));
        assert_bounds(&n.right, Some(n.data), hi);
    }
}

#[test]
fn test_bst() {
    let mut bstree = BSTree::new();
    bstree.insert_fn(1u64, |n| n);
    bstree.insert_fn(2u64, |n| n);
    bstree.insert_fn(3u64, |n| n);
    bstree.insert_fn(4u64, |n| n);
    let rst = bstree.find(3);
    assert!(rst.is_some());
    bstree.delete(3).unwrap();
    println!("Deleted.");
    let walked = bstree.traverse(Order::In);
    assert_eq!(walked, vec![&1, &2, &4]);
    let two = bstree.root.as_ref().unwrap().right.as_ref().unwrap();
    assert_eq!(two.data, 2);
    assert_eq!(two.right.as_ref().unwrap().data, 4);
}

#[test]
fn in_order_is_sorted_for_every_insertion_order() {
    let orders: [[&str; 3]; 6] = [
        ["c", "a", "b"],
        ["a", "b", "c"],
        ["a", "c", "b"],
        ["b", "a", "c"],
        ["b", "c", "a"],
        ["c", "b", "a"],
    ];
    for order in orders.iter() {
        let mut tree = BSTree::new();
        for k in order.iter() {
            tree.insert_fn(Word::new(k.to_string()), |w| w);
        }
        let walked: Vec<String> = tree.traverse(Order::In).iter().map(|w| w.value.clone()).collect();
        assert_eq!(walked, vec!["a".to_string(), "b".to_string(), "c".to_string()]);
    }
}

#[test]
fn two_child_delete_keeps_order() {
    let mut tree = tree_of(&[5, 3, 8, 2, 4, 7, 9]);
    assert!(tree.delete(5).is_ok());
    assert_eq!(in_order(&tree), vec![2, 3, 4, 7, 8, 9]);
    assert!(tree.find(5).is_none());
    let root = tree.root.as_ref().unwrap();
    assert_eq!(root.data, 7);
    assert_eq!(root.left.as_ref().unwrap().data, 3);
    assert_eq!(root.right.as_ref().unwrap().data, 8);
}

#[test]
fn walks_in_three_orders() {
    let tree = tree_of(&[5, 3, 8, 2, 4, 7, 9]);
    let pre: Vec<u64> = tree.traverse(Order::Pre).into_iter().copied().collect();
    let post: Vec<u64> = tree.traverse(Order::Post).into_iter().copied().collect();
    assert_eq!(pre, vec![5, 3, 2, 4, 8, 7, 9]);
    assert_eq!(post, vec![2, 4, 3, 7, 9, 8, 5]);
    assert_eq!(in_order(&tree), vec![2, 3, 4, 5, 7, 8, 9]);
}

#[test]
fn empty_tree_edges() {
    let mut tree: BSTree<u64> = BSTree::new();
    assert!(tree.root.is_none());
    assert!(tree.find(1).is_none());
    assert!(tree.delete(1).is_err());
    assert!(tree.traverse(Order::Pre).is_empty());
    assert!(tree.traverse(Order::In).is_empty());
    assert!(tree.traverse(Order::Post).is_empty());
}

#[test]
fn delete_then_find_each_key() {
    let keys = [5u64, 3, 8, 2, 4, 7, 9];
    for k in keys.iter() {
        let mut tree = tree_of(&keys);
        assert!(tree.delete(*k).is_ok());
        assert!(tree.find(*k).is_none());
        assert_eq!(in_order(&tree).len(), keys.len() - 1);
        for other in keys.iter().filter(|o| *o != k) {
            assert_eq!(tree.find(*other).map(|n| n.data), Some(*other));
        }
        assert!(tree.delete(*k).is_err());
    }
}

#[test]
fn delete_leaf_and_one_child() {
    let mut tree = tree_of(&[5, 3, 8, 2]);
    assert!(tree.delete(2).is_ok());
    assert_eq!(in_order(&tree), vec![3, 5, 8]);
    let mut tree = tree_of(&[5, 3, 8, 2]);
    assert!(tree.delete(3).is_ok());
    assert_eq!(in_order(&tree), vec![2, 5, 8]);
    assert_eq!(tree.root.as_ref().unwrap().left.as_ref().unwrap().data, 2);
    assert!(tree.delete(6).is_err());
    assert_eq!(in_order(&tree), vec![2, 5, 8]);
}

#[test]
fn duplicate_insert_merges() {
    let mut tree = BSTree::new();
    let bump = |mut w: Word| {
        w.add();
        w
    };
    tree.insert_fn(Word::new("apple".to_string()), bump);
    tree.insert_fn(Word::new("apple".to_string()), bump);
    let walked = tree.traverse(Order::In);
    assert_eq!(walked.len(), 1);
    assert_eq!(walked[0].count(), 2);
    let found = tree.find(Word::new("apple".to_string())).unwrap();
    assert_eq!(found.data.count(), 2);
    assert!(tree.find(Word::new("apples".to_string())).is_none());
}

#[test]
fn ordering_holds_at_every_node() {
    let mut tree = tree_of(&[50, 30, 80, 20, 40, 70, 90, 35, 45, 75]);
    assert_bounds(&tree.root, None, None);
    tree.delete(30).unwrap();
    tree.delete(50).unwrap();
    assert_bounds(&tree.root, None, None);
    assert_eq!(in_order(&tree), vec![20, 35, 40, 45, 70, 75, 80, 90]);
}

#[test]
fn is_ordered_refuses_a_tree_out_of_order() {
    let good = tree_of(&[2, 1, 3]);
    assert!(good.is_ordered());
    assert!(BSTree::<u64>::new().is_ordered());
    let mut bad_root = BSTNode::new(2u64);
    bad_root.left = Some(Box::new(BSTNode::new(5u64)));
    let bad = BSTree { root: Some(Box::new(bad_root)) };
    assert!(!bad.is_ordered());
    let mut twin_root = BSTNode::new(2u64);
    twin_root.right = Some(Box::new(BSTNode::new(2u64)));
    let twin = BSTree { root: Some(Box::new(twin_root)) };
    assert!(!twin.is_ordered());
}

fn shape(node: &Option<Box<BSTNode<u64>>>) -> String {
    match node {
        None => "_".to_string(),
        Some(n) if n.left.is_none() && n.right.is_none() => n.data.to_string(),
        Some(n) => format!("{}({},{})", n.data, shape(&n.left), shape(&n.right)),
    }
}

#[test]
fn inserts_build_the_search_path_shape() {
    let tree = tree_of(&[5, 3, 8, 2, 4, 7, 9]);
    assert_eq!(shape(&tree.root), "5(3(2,4),8(7,9))");
}

#[test]
fn increasing_inserts_make_a_right_chain() {
    let tree = tree_of(&[1, 2, 3, 4]);
    assert_eq!(shape(&tree.root), "1(_,2(_,3(_,4)))");
}

#[test]
fn merge_keeps_every_link() {
    let mut tree = BSTree::new();
    for k in ["m", "c", "x", "a", "e"].iter() {
        tree.insert_fn(Word::new(k.to_string()), |w| w);
    }
    tree.insert_fn(Word::new("c".to_string()), |mut w: Word| {
        w.add();
        w
    });
    let root = tree.root.as_ref().unwrap();
    assert_eq!(root.data.value, "m");
    let c = root.left.as_ref().unwrap();
    assert_eq!(c.data.value, "c");
    assert_eq!(c.data.count(), 2);
    assert_eq!(c.left.as_ref().unwrap().data.value, "a");
    assert_eq!(c.right.as_ref().unwrap().data.value, "e");
    assert_eq!(root.right.as_ref().unwrap().data.value, "x");
    assert_eq!(tree.traverse(Order::In).len(), 5);
}

#[test]
fn delete_shapes() {
    let mut tree = tree_of(&[5, 3, 8, 2, 4, 7, 9]);
    tree.delete(5).unwrap();
    assert_eq!(shape(&tree.root), "7(3(2,4),8(_,9))");
    tree.delete(2).unwrap();
    assert_eq!(shape(&tree.root), "7(3(_,4),8(_,9))");
    tree.delete(3).unwrap();
    assert_eq!(shape(&tree.root), "7(4,8(_,9))");
    tree.delete(8).unwrap();
    assert_eq!(shape(&tree.root), "7(4,9)");
    assert!(tree.delete(6).is_err());
    assert_eq!(shape(&tree.root), "7(4,9)");
}
