use sicp::binary_tree_immutable::{immutably_add, BinaryTree, TreeNode};
use std::rc::Rc;

#[test]
fn binary_tree_immutable_count() {
    let it: BinaryTree<isize> = BinaryTree::new(Some(Rc::new(TreeNode::new(1, None, None))));
    assert_eq!(it.count(), 1);
}

#[test]
fn binary_tree_immutable_map() {
    let it: BinaryTree<isize> = BinaryTree::new(Some(Rc::new(TreeNode::new(1, None, None))));
    assert_eq!(
        it.map(&|n: isize| n + 1),
        BinaryTree::new(Some(Rc::new(TreeNode::new(2, None, None))))
    );
}

#[test]
fn binary_tree_immutable_contains() {
    let it: BinaryTree<isize> = BinaryTree::new(Some(Rc::new(TreeNode::new(1, None, None))));
    assert_eq!(it.contains(1), true);
    assert_eq!(it.contains(2), false);
    assert_eq!(BinaryTree::new(None).contains(1), false);
}

#[test]
fn binary_tree_immutable_from_vec_empty() {
    let tree: BinaryTree<i32> = BinaryTree::from_vec(vec![]);
    assert_eq!(tree.to_vec(), vec![]);
}

#[test]
fn binary_tree_immutable_from_vec() {
    let tree = BinaryTree::from_vec(vec![1, 2, 3, 4]);
    assert_eq!(tree.to_vec(), vec![1, 2, 3, 4]);
}

#[test]
fn union() {
    let tree1 = BinaryTree::from_vec(vec![1, 2, 3, 4]);
    let tree2 = BinaryTree::from_vec(vec![1, 2, 3, 4]);
    assert_eq!(tree1.union(tree2).to_vec(), vec![1, 2, 3, 4])
}

#[test]
fn intersection() {
    let tree1 = BinaryTree::from_vec(vec![1, 2, 3, 4]);
    let tree2 = BinaryTree::from_vec(vec![1, 2, 3, 4]);
    assert_eq!(tree1.intersection(&tree2).to_vec(), vec![1, 2, 3, 4]);

    let tree3 = BinaryTree::from_vec(vec![11, 12, 3, 14]);
    assert_eq!(tree1.intersection(&tree3).to_vec(), vec![3]);
}

#[test]
fn union_sorts_and_drops_repeats() {
    let tree1 = BinaryTree::from_vec(vec![5, 1, 3]);
    let tree2 = BinaryTree::from_vec(vec![4, 3, 2, 1]);
    assert_eq!(tree1.union(tree2).to_vec(), vec![1, 2, 3, 4, 5]);
    let empty: BinaryTree<i32> = BinaryTree::new(None);
    let other: BinaryTree<i32> = BinaryTree::new(None);
    assert_eq!(empty.union(other).to_vec(), vec![]);
}

#[test]
fn intersection_with_empty_is_empty() {
    let tree1 = BinaryTree::from_vec(vec![1, 2, 3]);
    let empty: BinaryTree<i32> = BinaryTree::new(None);
    assert_eq!(tree1.intersection(&empty), BinaryTree::new(None));
    assert_eq!(empty.intersection(&tree1), BinaryTree::new(None));
}

#[test]
fn from_vec_puts_the_middle_at_the_root() {
    let tree = BinaryTree::from_vec(vec![1, 2, 3, 4]);
    let root = tree.tree.as_ref().unwrap();
    assert_eq!(root.value, 3);
    assert_eq!(root.left.as_ref().unwrap().value, 2);
    assert_eq!(root.left.as_ref().unwrap().left.as_ref().unwrap().value, 1);
    assert_eq!(root.right.as_ref().unwrap().value, 4);
    assert_eq!(tree.count(), 4);
}

#[test]
fn immutably_add_leaves_the_old_tree() {
    let tree = BinaryTree::from_vec(vec![2, 4, 6]);
    let more = tree.immutably_add(5);
    assert_eq!(tree.to_vec(), vec![2, 4, 6]);
    assert_eq!(more.to_vec(), vec![2, 4, 5, 6]);
    assert_eq!(more.immutably_add(4).to_vec(), vec![2, 4, 5, 6]);
    assert_eq!(more.immutably_add(1).to_vec(), vec![1, 2, 4, 5, 6]);
    let empty: BinaryTree<i32> = BinaryTree::new(None);
    assert_eq!(empty.immutably_add(9).to_vec(), vec![9]);
    assert_eq!(more.contains(5), true);
    assert_eq!(tree.contains(5), false);
}

#[test]
fn immutably_add_shares_the_untouched_side() {
    let root = Rc::new(TreeNode::new(
        4,
        Some(Rc::new(TreeNode::empty(2))),
        Some(Rc::new(TreeNode::empty(6))),
    ));
    let added = immutably_add(root.clone(), 1);
    assert!(Rc::ptr_eq(root.right.as_ref().unwrap(), added.right.as_ref().unwrap()));
    assert_eq!(added.left.as_ref().unwrap().left.as_ref().unwrap().value, 1);
    let same = immutably_add(root.clone(), 4);
    assert!(Rc::ptr_eq(&root, &same));
}

#[test]
fn map_keeps_the_shape() {
    let tree = BinaryTree::from_vec(vec![1, 2, 3]);
    let doubled = tree.map(&|n: i32| n * 2);
    assert_eq!(doubled, BinaryTree::from_vec(vec![2, 4, 6]));
}
