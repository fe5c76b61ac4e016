use bintrees::bst::{BinarySearchTree, Node};

#[test]
pub fn insert_parent() {
    let mut bst = BinarySearchTree::new();

    bst.insert(10);
    bst.insert(20);
    bst.insert(5);
    bst.insert(7);
    bst.insert(3);
    println!("{:?}", bst);
}

#[test]
pub fn find_node() {
    let mut bst = BinarySearchTree::new();

    bst.insert(10);
    bst.insert(20);
    bst.insert(5);
    bst.insert(7);
    bst.insert(3);
    println!("{:?}", bst);

    assert!(bst.find(10));
    assert!(bst.find(20));
    assert!(bst.find(5));
    assert!(bst.find(7));
    assert!(bst.find(3));
    assert!(!bst.find(110));
    assert!(!bst.find(220));
}

#[test]
fn insert_duplicate_rejected() {
    let mut bst = BinarySearchTree::new();

    assert!(bst.insert(42));
    assert!(!bst.insert(42));
    assert!(bst.find(42));

    assert!(bst.insert(7));
    assert!(bst.insert(100));
    assert!(!bst.insert(7));
    assert!(!bst.insert(100));
    assert!(!bst.insert(42));
}

#[test]
fn find_on_empty_tree() {
    let bst = BinarySearchTree::new();
    assert!(!bst.find(0));
    assert!(!bst.find(10));
}

#[test]
fn tree_from_root_node() {
    let root = Node::new(50);
    let mut bst = BinarySearchTree::with_root(root);

    assert!(bst.find(50));
    assert!(!bst.find(49));
    assert!(!bst.insert(50));
    assert!(bst.insert(25));
    assert!(bst.find(25));
}

#[test]
fn node_constructors() {
    let detached = Node::new(9);
    assert_eq!(detached.data, 9);
    assert!(detached.left.is_none());
    assert!(detached.right.is_none());
    assert!(detached.parent.is_none());

    let leaf = Node::new_with_parent(11, 0);
    assert_eq!(leaf.data, 11);
    assert!(leaf.left.is_none());
    assert!(leaf.right.is_none());
    assert_eq!(leaf.parent, Some(0));
}

#[test]
fn default_tree_is_empty() {
    let bst = BinarySearchTree::default();
    assert!(!bst.find(1));
}

#[test]
fn insert_ascending_then_find() {
    let mut bst = BinarySearchTree::new();
    for v in 1..=20u32 {
        assert!(bst.insert(v));
    }
    for v in 1..=20u32 {
        assert!(bst.find(v));
    }
    assert!(!bst.find(0));
    assert!(!bst.find(21));
}
