use sicp::binary_tree_mutable::{MutableBinaryTree, MutableTreeNode, Record, Standing};
use std::cmp::Ordering;

#[test]
fn binary_tree_mutable_count() {
    let it: MutableBinaryTree<isize> =
        MutableBinaryTree::new(Some(Box::new(MutableTreeNode::new(1, None, None))));
    assert_eq!(it.count(), 1);
}

#[test]
fn binary_tree_mutable_map() {
    let it: MutableBinaryTree<isize> =
        MutableBinaryTree::new(Some(Box::new(MutableTreeNode::new(1, None, None))));
    assert_eq!(
        it.map(&|n: isize| n + 1),
        MutableBinaryTree::new(Some(Box::new(MutableTreeNode::new(2, None, None))))
    );
}

#[test]
fn binary_tree_mutable_contains() {
    let it: MutableBinaryTree<isize> =
        MutableBinaryTree::new(Some(Box::new(MutableTreeNode::new(1, None, None))));
    assert_eq!(it.contains(1), true);
    assert_eq!(it.contains(2), false);
    assert_eq!(MutableBinaryTree::new(None).contains(1), false);
}

#[test]
fn insert() {
    let mut tree = MutableBinaryTree::new(None);
    tree.insert(4);
    tree.insert(2);
    tree.insert(3);
    tree.insert(1);
    assert_eq!(tree.to_vec(), vec![1, 2, 3, 4]);
}

#[test]
fn binary_tree_mutable_from_vec_empty() {
    let tree: MutableBinaryTree<i32> = MutableBinaryTree::from_vec(vec![]);
    assert_eq!(tree.to_vec(), vec![]);
}

#[test]
fn binary_tree_mutable_from_vec() {
    let tree = MutableBinaryTree::from_vec(vec![1, 2, 3, 4]);
    assert_eq!(tree.to_vec(), vec![1, 2, 3, 4]);
}

#[derive(Debug, PartialEq, PartialOrd)]
struct Person<'a> {
    id: usize,
    name: &'a str,
}

impl<'a> Person<'a> {
    fn new(id: usize, name: &'a str) -> Self {
        Self { id, name }
    }
}

impl<'a> Record<usize> for Person<'a> {
    fn compare(&self, key: &usize) -> Standing {
        match key.cmp(&self.id) {
            Ordering::Less => Standing::Less,
            Ordering::Equal => Standing::Equal,
            Ordering::Greater => Standing::Greater,
        }
    }
}

impl<'a> Clone for Person<'a> {
    fn clone(&self) -> Self {
        Self::new(self.id, self.name)
    }
}

impl<'a> Copy for Person<'a> {}

#[test]
fn info_retrieval() {
    let apple = Person::new(1, "Apple");
    let pie = Person::new(2, "Pie");
    let tree = MutableBinaryTree::from_vec(vec![apple, pie]);
    assert_eq!(tree.find_by_key(1), Some(apple));
    assert_eq!(tree.find_by_key(2), Some(pie));
    assert_eq!(tree.find_by_key(3), None);
}

#[test]
fn insert_says_whether_it_added() {
    let mut tree = MutableBinaryTree::new(None);
    assert_eq!(tree.insert(4), true);
    assert_eq!(tree.insert(2), true);
    assert_eq!(tree.insert(4), false);
    assert_eq!(tree.insert(2), false);
    assert_eq!(tree.insert(3), true);
    assert_eq!(tree.to_vec(), vec![2, 3, 4]);
    assert_eq!(tree.count(), 3);
    let root = tree.tree.as_ref().unwrap();
    assert_eq!(root.value, 4);
    assert_eq!(root.left.as_ref().unwrap().value, 2);
    assert_eq!(root.left.as_ref().unwrap().right.as_ref().unwrap().value, 3);
    assert!(root.right.is_none());
}

#[test]
fn mutable_from_vec_puts_the_middle_at_the_root() {
    let tree = MutableBinaryTree::from_vec(vec![1, 2, 3, 4, 5]);
    let root = tree.tree.as_ref().unwrap();
    assert_eq!(root.value, 3);
    assert_eq!(root.left.as_ref().unwrap().value, 2);
    assert_eq!(root.right.as_ref().unwrap().value, 5);
    assert_eq!(tree.contains(4), true);
    assert_eq!(tree.contains(6), false);
    assert_eq!(MutableTreeNode::empty(7), MutableTreeNode::new(7, None, None));
}

#[test]
fn find_by_key_of_an_empty_tree_is_none() {
    let tree: MutableBinaryTree<Person> = MutableBinaryTree::new(None);
    assert_eq!(tree.find_by_key(1), None);
}
