use vstd::prelude::*;
use vstd::std_specs::cmp::PartialEqSpec;
use vstd::std_specs::cmp::PartialOrdSpec;
use crate::order::less;
use crate::order::is_total_order;
use crate::order::strictly_ascending;
use crate::order::lemma_trichotomy;
use crate::sorting::lemma_ascending_whole;
use core::cmp::Ordering;

verus! {

/// A binary tree that owns its nodes and is changed in place.
#[derive(Debug, PartialEq)]
pub struct MutableBinaryTree<T> where T: Clone + Copy + PartialEq + PartialOrd {
    pub tree: Option<Box<MutableTreeNode<T>>>,
}

/// A node: a value, and the subtrees of what comes before and after it.
#[derive(Debug, PartialEq)]
pub struct MutableTreeNode<T> where T: Clone + Copy + PartialEq + PartialOrd {
    pub value: T,
    pub left: Option<Box<MutableTreeNode<T>>>,
    pub right: Option<Box<MutableTreeNode<T>>>,
}

/// How a record stands to a key.
#[derive(Clone, Copy, Debug, PartialEq, Eq)]
pub enum Standing {
    /// The search goes on to the left.
    Less,
    /// This is the record looked for.
    Equal,
    /// The search goes on to the right.
    Greater,
}

/// A record that can be found by a key of type `K`.
pub trait Record<K> {
    /// Where the search for `key` goes from this record.
    fn compare(&self, key: &K) -> Standing;
}

impl<T> MutableTreeNode<T> where T: Clone + Copy + PartialEq + PartialOrd {
    /// The values from left to right.
    pub open spec fn in_order(&self) -> Seq<T>
        decreases self,
    {
        (match self.left {
            Some(l) => l.in_order(),
            None => Seq::empty(),
        }).push(self.value) + (match self.right {
            Some(r) => r.in_order(),
            None => Seq::empty(),
        })
    }

    /// Whether the search for `x` succeeds: it stops at an equal value, goes
    /// left for a smaller `x` and right otherwise.
    pub open spec fn finds(&self, x: T) -> bool
        decreases self,
    {
        if x.eq_spec(&self.value) {
            true
        } else if less(x, self.value) {
            match self.left {
                Some(l) => l.finds(x),
                None => false,
            }
        } else {
            match self.right {
                Some(r) => r.finds(x),
                None => false,
            }
        }
    }

    /// A node without subtrees.
    pub open spec fn is_leaf_of(&self, x: T) -> bool {
        self.value == x && self.left is None && self.right is None
    }
}

/// The values of an optional subtree from left to right.
pub open spec fn in_order_of<T>(tree: Option<Box<MutableTreeNode<T>>>) -> Seq<T> where
    T: Clone + Copy + PartialEq + PartialOrd,
 {
    match tree {
        Some(node) => node.in_order(),
        None => Seq::empty(),
    }
}

/// `out` has the shape of `node`, and each of its values is a result of
/// `f` on the value in the same place.
pub open spec fn mirrors<T, U, F>(node: MutableTreeNode<T>, f: F, out: MutableTreeNode<U>) -> bool where
    T: Clone + Copy + PartialEq + PartialOrd,
    U: Clone + Copy + PartialEq + PartialOrd,
    F: Fn(T) -> U,

    decreases node,
{
    &&& call_ensures(f, (node.value,), out.value)
    &&& match node.left {
        Some(l) => out.left matches Some(ol) && mirrors(*l, f, *ol),
        None => out.left is None,
    }
    &&& match node.right {
        Some(r) => out.right matches Some(or) && mirrors(*r, f, *or),
        None => out.right is None,
    }
}

/// `tree` holds `elements` in order, with the middle element (the later one
/// of two) at the root, and so on down both sides.
pub open spec fn laid_out<T>(elements: Seq<T>, tree: Option<Box<MutableTreeNode<T>>>) -> bool where
    T: Clone + Copy + PartialEq + PartialOrd,

    decreases elements.len(),
{
    if elements.len() == 0 {
        tree is None
    } else {
        let centre = (elements.len() / 2) as int;
        tree matches Some(node) && node.value == elements[centre] && laid_out(
            elements.subrange(0, centre),
            node.left,
        ) && laid_out(elements.subrange(centre + 1, elements.len() as int), node.right)
    }
}

/// Whether the search for `x` by comparison meets a value equal to it.
pub open spec fn meets<T>(tree: Option<Box<MutableTreeNode<T>>>, x: T) -> bool where
    T: Clone + Copy + PartialEq + PartialOrd,

    decreases tree,
{
    match tree {
        None => false,
        Some(node) => match x.partial_cmp_spec(&node.value) {
            Some(Ordering::Equal) => true,
            Some(Ordering::Less) => meets(node.left, x),
            Some(Ordering::Greater) => meets(node.right, x),
            None => false,
        },
    }
}

/// `new` is `old` with a leaf for `x` where the search for it ends; nothing
/// changes where the search meets an equal value.
pub open spec fn inserted<T>(
    old: Option<Box<MutableTreeNode<T>>>,
    x: T,
    new: Option<Box<MutableTreeNode<T>>>,
) -> bool where T: Clone + Copy + PartialEq + PartialOrd
    decreases old,
{
    match old {
        None => new matches Some(leaf) && leaf.is_leaf_of(x),
        Some(node) => match x.partial_cmp_spec(&node.value) {
            Some(Ordering::Equal) => new == old,
            Some(Ordering::Less) => new matches Some(changed) && changed.value == node.value
                && changed.right == node.right && inserted(node.left, x, changed.left),
            Some(Ordering::Greater) => new matches Some(changed) && changed.value == node.value
                && changed.left == node.left && inserted(node.right, x, changed.right),
            None => false,
        },
    }
}

/// `x` can be compared with every one of `values`.
pub open spec fn comparable<T>(values: Seq<T>, x: T) -> bool where T: PartialOrd {
    forall|i: int| 0 <= i < values.len() ==> x.partial_cmp_spec(&#[trigger] values[i]) is Some
}

/// What the search for `key` may return, given what `compare` may answer at
/// each record on the way.
pub open spec fn found_by_key<T, K>(
    tree: Option<Box<MutableTreeNode<T>>>,
    key: K,
    result: Option<T>,
) -> bool where T: Clone + Copy + PartialEq + PartialOrd + Record<K>
    decreases tree,
{
    match tree {
        None => result is None,
        Some(node) => exists|standing: Standing|
            #[trigger] call_ensures(T::compare, (&node.value, &key), standing) && match standing {
                Standing::Less => found_by_key(node.left, key, result),
                Standing::Equal => result == Some(node.value),
                Standing::Greater => found_by_key(node.right, key, result),
            },
    }
}

/// What can be compared with every value of a node can be compared with its
/// own value and with every value of either subtree.
pub proof fn lemma_comparable_parts<T>(node: &MutableTreeNode<T>, x: T) where
    T: Clone + Copy + PartialEq + PartialOrd,

    requires
        comparable(node.in_order(), x),
    ensures
        comparable(seq![node.value], x),
        comparable(in_order_of(node.left), x),
        comparable(in_order_of(node.right), x),
{
    let all = node.in_order();
    let before = in_order_of(node.left);
    let after = in_order_of(node.right);
    assert(comparable(seq![node.value], x)) by {
        assert(seq![node.value][0] == all[before.len() as int]);
    }
    assert(comparable(before, x)) by {
        assert forall|i: int| 0 <= i < before.len() implies before[i] == all[i] by {}
    }
    assert(comparable(after, x)) by {
        assert forall|i: int| 0 <= i < after.len() implies after[i] == all[before.len() + 1
            + i] by {}
    }
}

impl<T> MutableBinaryTree<T> where T: Clone + Copy + PartialEq + PartialOrd {
    /// The values from left to right.
    pub open spec fn in_order(&self) -> Seq<T> {
        in_order_of(self.tree)
    }

    pub fn new(tree: Option<Box<MutableTreeNode<T>>>) -> (r: Self)
        ensures
            r.tree == tree,
    {
        Self { tree }
    }

    /// The number of values.
    pub fn count(&self) -> (r: isize)
        requires
            self.in_order().len() <= isize::MAX,
        ensures
            r == self.in_order().len(),
    {
        match &self.tree {
            None => 0,
            Some(n) => n.count(),
        }
    }

    /// A tree of the same shape with `f` applied to every value.
    pub fn map<U, F>(&self, f: &F) -> (r: MutableBinaryTree<U>) where
        U: Clone + Copy + PartialEq + PartialOrd,
        F: Fn(T) -> U,

        requires
            forall|i: int|
                0 <= i < self.in_order().len() ==> call_requires(
                    *f,
                    (#[trigger] self.in_order()[i],),
                ),
        ensures
            match self.tree {
                Some(n) => r.tree matches Some(m) && mirrors(*n, *f, *m),
                None => r.tree is None,
            },
    {
        match &self.tree {
            None => MutableBinaryTree::new(None),
            Some(n) => {
                assert(self.in_order() == n.in_order());
                let node = n.map(f);
                let tree = Some(Box::new(node));
                MutableBinaryTree::new(tree)
            },
        }
    }

    /// Searches for `x` as in an ordered tree.
    pub fn contains(&self, x: T) -> (r: bool)
        ensures
            T::obeys_eq_spec() && T::obeys_partial_cmp_spec() ==> r == match self.tree {
                Some(n) => n.finds(x),
                None => false,
            },
    {
        match &self.tree {
            None => false,
            Some(node) => node.contains(x),
        }
    }

    /// Adds `x` in place as a new leaf where the search for it ends, and
    /// says so; leaves the tree alone and says no where an equal value is
    /// met.
    pub fn insert(&mut self, x: T) -> (r: bool)
        requires
            T::obeys_partial_cmp_spec(),
            comparable(old(self).in_order(), x),
        ensures
            inserted(old(self).tree, x, final(self).tree),
            r == !meets(old(self).tree, x),
    {
        insert_below(&mut self.tree, x)
    }

    /// The values from left to right.
    pub fn to_vec(&self) -> (r: Vec<T>)
        ensures
            r@ == self.in_order(),
    {
        match &self.tree {
            None => Vec::new(),
            Some(node) => {
                let mut elements: Vec<T> = Vec::new();
                node.to_vec(&mut elements);
                elements
            },
        }
    }

    /// The balanced tree that holds `elements` in order.
    pub fn from_vec(elements: Vec<T>) -> (r: Self)
        ensures
            laid_out(elements@, r.tree),
            r.in_order() == elements@,
    {
        MutableBinaryTree::new(MutableTreeNode::from_vec(elements.as_slice()))
    }

    /// Searches for the record that answers `Equal` to `key`, going left
    /// where a record answers `Less` and right where it answers `Greater`.
    pub fn find_by_key<K>(&self, key: K) -> (r: Option<T>) where T: Record<K> + Copy, K: Copy
        requires
            forall|i: int|
                0 <= i < self.in_order().len() ==> call_requires(
                    T::compare,
                    (&#[trigger] self.in_order()[i], &key),
                ),
        ensures
            found_by_key(self.tree, key, r),
    {
        match &self.tree {
            None => None,
            Some(tree) => {
                assert(self.in_order() == tree.in_order());
                tree.find_by_key(key)
            },
        }
    }
}

/// Adds `x` below `slot` as a new leaf where the search for it ends.
pub fn insert_below<T>(slot: &mut Option<Box<MutableTreeNode<T>>>, x: T) -> (r: bool) where
    T: Clone + Copy + PartialEq + PartialOrd,

    requires
        T::obeys_partial_cmp_spec(),
        comparable(in_order_of(*old(slot)), x),
    ensures
        inserted(*old(slot), x, *final(slot)),
        r == !meets(*old(slot), x),
    decreases *old(slot),
{
    match slot {
        None => {
            *slot = Some(Box::new(MutableTreeNode::new(x, None, None)));
            true
        },
        Some(node) => {
            proof {
                lemma_comparable_parts(&**node, x);
                assert(seq![node.value][0] == node.value);
            }
            match x.partial_cmp(&node.value) {
                None => vstd::pervasive::unreached(),
                Some(Ordering::Less) => insert_below(&mut node.left, x),
                Some(Ordering::Equal) => false,
                Some(Ordering::Greater) => insert_below(&mut node.right, x),
            }
        },
    }
}

impl<T> MutableTreeNode<T> where T: Clone + Copy + PartialEq + PartialOrd {
    pub fn new(
        value: T,
        left: Option<Box<MutableTreeNode<T>>>,
        right: Option<Box<MutableTreeNode<T>>>,
    ) -> (r: Self)
        ensures
            r.value == value,
            r.left == left,
            r.right == right,
    {
        Self { value, left, right }
    }

    /// A node without subtrees.
    pub fn empty(value: T) -> (r: Self)
        ensures
            r.is_leaf_of(value),
    {
        Self::new(value, None, None)
    }

    /// The number of values.
    pub fn count(&self) -> (r: isize)
        requires
            self.in_order().len() <= isize::MAX,
        ensures
            r == self.in_order().len(),
        decreases self,
    {
        let left_count = if let Some(left) = &self.left {
            left.count()
        } else {
            0
        };
        let right_count = if let Some(right) = &self.right {
            right.count()
        } else {
            0
        };
        1 + left_count + right_count
    }

    /// A tree of the same shape with `f` applied to every value.
    pub fn map<U, F>(&self, f: &F) -> (r: MutableTreeNode<U>) where
        U: Clone + Copy + PartialEq + PartialOrd,
        F: Fn(T) -> U,

        requires
            forall|i: int|
                0 <= i < self.in_order().len() ==> call_requires(
                    *f,
                    (#[trigger] self.in_order()[i],),
                ),
        ensures
            mirrors(*self, *f, r),
        decreases self,
    {
        let ghost left_values = in_order_of(self.left);
        let new_left = match &self.left {
            Some(b) => {
                assert forall|i: int| 0 <= i < b.in_order().len() implies call_requires(
                    *f,
                    (#[trigger] b.in_order()[i],),
                ) by {
                    assert(b.in_order()[i] == self.in_order()[i]);
                }
                Some(Box::new(b.map(f)))
            },
            None => None,
        };
        let new_right = match &self.right {
            Some(b) => {
                assert forall|i: int| 0 <= i < b.in_order().len() implies call_requires(
                    *f,
                    (#[trigger] b.in_order()[i],),
                ) by {
                    assert(b.in_order()[i] == self.in_order()[left_values.len() + 1 + i]);
                }
                Some(Box::new(b.map(f)))
            },
            None => None,
        };
        assert(self.value == self.in_order()[left_values.len() as int]);
        MutableTreeNode::new(f(self.value), new_left, new_right)
    }

    /// Searches for `x` as in an ordered tree.
    pub fn contains(&self, x: T) -> (r: bool)
        ensures
            T::obeys_eq_spec() && T::obeys_partial_cmp_spec() ==> r == self.finds(x),
        decreases self,
    {
        if x == self.value {
            true
        } else if x < self.value {
            match &self.left {
                Some(left) => left.contains(x),
                None => false,
            }
        } else {
            match &self.right {
                Some(right) => right.contains(x),
                None => false,
            }
        }
    }

    /// Appends the values from left to right.
    pub fn to_vec(&self, elements: &mut Vec<T>)
        ensures
            final(elements)@ == old(elements)@ + self.in_order(),
        decreases self,
    {
        if let Some(left) = &self.left {
            left.to_vec(elements);
        }
        elements.push(self.value);
        if let Some(right) = &self.right {
            right.to_vec(elements);
        }
        assert(elements@ =~= old(elements)@ + self.in_order());
    }

    /// The balanced tree that holds `elements` in order.
    pub fn from_vec(elements: &[T]) -> (r: Option<Box<MutableTreeNode<T>>>)
        ensures
            laid_out(elements@, r),
            in_order_of(r) == elements@,
        decreases elements@.len(),
    {
        if elements.is_empty() {
            return None;
        }
        let centre = elements.len() / 2;
        let left = MutableTreeNode::from_vec(&elements[0..centre]);
        let right = MutableTreeNode::from_vec(&elements[centre + 1..elements.len()]);
        let node = MutableTreeNode::new(elements[centre], left, right);
        assert(node.in_order() =~= elements@);
        Some(Box::new(node))
    }

    /// Searches for the record that answers `Equal` to `key`, going left
    /// where a record answers `Less` and right where it answers `Greater`.
    pub fn find_by_key<K>(&self, key: K) -> (r: Option<T>) where T: Record<K> + Copy, K: Copy
        requires
            forall|i: int|
                0 <= i < self.in_order().len() ==> call_requires(
                    T::compare,
                    (&#[trigger] self.in_order()[i], &key),
                ),
        ensures
            found_by_key(Some(Box::new(*self)), key, r),
        decreases self,
    {
        let ghost left_values = in_order_of(self.left);
        assert(self.value == self.in_order()[left_values.len() as int]);
        let standing = self.value.compare(&key);
        assert(call_ensures(T::compare, (&self.value, &key), standing));
        let r = match standing {
            Standing::Less => match &self.left {
                None => None,
                Some(left) => {
                    assert forall|i: int| 0 <= i < left.in_order().len() implies call_requires(
                        T::compare,
                        (&#[trigger] left.in_order()[i], &key),
                    ) by {
                        assert(left.in_order()[i] == self.in_order()[i]);
                    }
                    left.find_by_key(key)
                },
            },
            Standing::Equal => Some(self.value),
            Standing::Greater => match &self.right {
                None => None,
                Some(right) => {
                    assert forall|i: int| 0 <= i < right.in_order().len() implies call_requires(
                        T::compare,
                        (&#[trigger] right.in_order()[i], &key),
                    ) by {
                        assert(right.in_order()[i] == self.in_order()[left_values.len() + 1 + i]);
                    }
                    right.find_by_key(key)
                },
            },
        };
        proof {
            let whole: Option<Box<MutableTreeNode<T>>> = Some(Box::new(*self));
            assert(whole->Some_0.value == self.value);
            assert(whole->Some_0.left == self.left);
            assert(whole->Some_0.right == self.right);
            match standing {
                Standing::Less => {
                    assert(found_by_key(self.left, key, r));
                },
                Standing::Equal => {},
                Standing::Greater => {
                    assert(found_by_key(self.right, key, r));
                },
            }
        }
        r
    }
}

/// In a node whose values ascend strictly, the values of both subtrees
/// ascend strictly, those to the left come before the node's value and
/// those to the right after it.
pub proof fn lemma_ascending_parts<T>(node: &MutableTreeNode<T>) where
    T: Clone + Copy + PartialEq + PartialOrd,

    requires
        strictly_ascending(node.in_order()),
    ensures
        strictly_ascending(in_order_of(node.left)),
        strictly_ascending(in_order_of(node.right)),
        forall|i: int|
            0 <= i < in_order_of(node.left).len() ==> less(
                #[trigger] in_order_of(node.left)[i],
                node.value,
            ),
        forall|i: int|
            0 <= i < in_order_of(node.right).len() ==> less(
                node.value,
                #[trigger] in_order_of(node.right)[i],
            ),
{
    let all = node.in_order();
    let before = in_order_of(node.left);
    let after = in_order_of(node.right);
    let at = before.len() as int;
    assert(all[at] == node.value);
    assert forall|i: int, j: int| 0 <= i < j < before.len() implies less(
        #[trigger] before[i],
        #[trigger] before[j],
    ) by {
        assert(before[i] == all[i] && before[j] == all[j]);
    }
    assert forall|i: int, j: int| 0 <= i < j < after.len() implies less(
        #[trigger] after[i],
        #[trigger] after[j],
    ) by {
        assert(after[i] == all[at + 1 + i] && after[j] == all[at + 1 + j]);
    }
    assert forall|i: int| 0 <= i < before.len() implies less(#[trigger] before[i], node.value) by {
        assert(before[i] == all[i]);
        assert(less(all[i], all[at]));
    }
    assert forall|i: int| 0 <= i < after.len() implies less(node.value, #[trigger] after[i]) by {
        assert(after[i] == all[at + 1 + i]);
        assert(less(all[at], all[at + 1 + i]));
    }
}

/// A value is among those of a node exactly if it is the node's value or
/// among those of a subtree.
pub proof fn lemma_members_of_parts<T>(node: &MutableTreeNode<T>, x: T) where
    T: Clone + Copy + PartialEq + PartialOrd,

    ensures
        node.in_order().contains(x) <==> (x == node.value || in_order_of(node.left).contains(x)
            || in_order_of(node.right).contains(x)),
{
    let all = node.in_order();
    let before = in_order_of(node.left);
    let after = in_order_of(node.right);
    let at = before.len() as int;
    assert(all[at] == node.value);
    if before.contains(x) {
        let i = choose|i: int| 0 <= i < before.len() && before[i] == x;
        assert(all[i] == x);
    }
    if after.contains(x) {
        let i = choose|i: int| 0 <= i < after.len() && after[i] == x;
        assert(all[at + 1 + i] == x);
    }
    if all.contains(x) {
        let i = choose|i: int| 0 <= i < all.len() && all[i] == x;
        if i < at {
            assert(before[i] == x);
        } else if i > at {
            assert(after[i - at - 1] == x);
        }
    }
}

/// In a tree whose values ascend strictly, the search finds exactly the
/// values of the tree.
pub proof fn lemma_search_finds_members<T>(node: &MutableTreeNode<T>, x: T) where
    T: Clone + Copy + PartialEq + PartialOrd,

    requires
        is_total_order::<T>(),
        strictly_ascending(node.in_order()),
    ensures
        node.finds(x) <==> node.in_order().contains(x),
    decreases node,
{
    let before = in_order_of(node.left);
    let after = in_order_of(node.right);
    lemma_ascending_parts(node);
    lemma_members_of_parts(node, x);
    lemma_trichotomy(x, node.value);
    if x == node.value {
    } else if less(x, node.value) {
        assert(!after.contains(x)) by {
            if after.contains(x) {
                let i = choose|i: int| 0 <= i < after.len() && after[i] == x;
                assert(less(node.value, after[i]));
            }
        }
        match node.left {
            Some(l) => {
                lemma_search_finds_members(&*l, x);
            },
            None => {},
        }
    } else {
        assert(!before.contains(x)) by {
            if before.contains(x) {
                let i = choose|i: int| 0 <= i < before.len() && before[i] == x;
                assert(less(before[i], node.value));
            }
        }
        match node.right {
            Some(r) => {
                lemma_search_finds_members(&*r, x);
            },
            None => {},
        }
    }
}

/// Inserting into a tree whose values ascend strictly gives a tree whose
/// values ascend strictly and are those of the old tree and the value
/// inserted; and the search by comparison meets exactly the values of the
/// tree.
pub proof fn lemma_inserting_keeps_order<T>(
    old: Option<Box<MutableTreeNode<T>>>,
    x: T,
    new: Option<Box<MutableTreeNode<T>>>,
) where T: Clone + Copy + PartialEq + PartialOrd
    requires
        is_total_order::<T>(),
        strictly_ascending(in_order_of(old)),
        inserted(old, x, new),
    ensures
        strictly_ascending(in_order_of(new)),
        forall|y: T| in_order_of(new).contains(y) <==> (y == x || in_order_of(old).contains(y)),
        meets(old, x) <==> in_order_of(old).contains(x),
    decreases old,
{
    match old {
        None => {
            let leaf = in_order_of(new);
            assert(leaf =~= seq![x]);
            assert(leaf[0] == x);
        },
        Some(node) => {
            let changed = new->Some_0;
            lemma_ascending_parts(&*node);
            lemma_trichotomy(x, node.value);
            lemma_members_of_parts(&*node, x);
            if x == node.value {
            } else if less(x, node.value) {
                lemma_inserting_keeps_order(node.left, x, changed.left);
                assert(!in_order_of(node.right).contains(x)) by {
                    if in_order_of(node.right).contains(x) {
                        let i = choose|i: int|
                            0 <= i < in_order_of(node.right).len() && in_order_of(node.right)[i]
                                == x;
                        assert(less(node.value, in_order_of(node.right)[i]));
                    }
                }
                assert forall|i: int| 0 <= i < in_order_of(changed.left).len() implies less(
                    #[trigger] in_order_of(changed.left)[i],
                    changed.value,
                ) by {
                    let y = in_order_of(changed.left)[i];
                    assert(in_order_of(changed.left).contains(y));
                    if y != x {
                        let k = choose|k: int|
                            0 <= k < in_order_of(node.left).len() && in_order_of(node.left)[k]
                                == y;
                        assert(less(in_order_of(node.left)[k], node.value));
                    }
                }
                lemma_ascending_whole(
                    in_order_of(changed.left),
                    changed.value,
                    in_order_of(changed.right),
                );
                assert forall|y: T|
                    in_order_of(new).contains(y) <==> (y == x || in_order_of(old).contains(
                        y,
                    )) by {
                    lemma_members_of_parts(&*node, y);
                    lemma_members_of_parts(&*changed, y);
                }
            } else {
                assert(less(node.value, x));
                lemma_inserting_keeps_order(node.right, x, changed.right);
                assert(!in_order_of(node.left).contains(x)) by {
                    if in_order_of(node.left).contains(x) {
                        let i = choose|i: int|
                            0 <= i < in_order_of(node.left).len() && in_order_of(node.left)[i]
                                == x;
                        assert(less(in_order_of(node.left)[i], node.value));
                    }
                }
                assert forall|i: int| 0 <= i < in_order_of(changed.right).len() implies less(
                    changed.value,
                    #[trigger] in_order_of(changed.right)[i],
                ) by {
                    let y = in_order_of(changed.right)[i];
                    assert(in_order_of(changed.right).contains(y));
                    if y != x {
                        let k = choose|k: int|
                            0 <= k < in_order_of(node.right).len() && in_order_of(node.right)[k]
                                == y;
                        assert(less(node.value, in_order_of(node.right)[k]));
                    }
                }
                lemma_ascending_whole(
                    in_order_of(changed.left),
                    changed.value,
                    in_order_of(changed.right),
                );
                assert forall|y: T|
                    in_order_of(new).contains(y) <==> (y == x || in_order_of(old).contains(
                        y,
                    )) by {
                    lemma_members_of_parts(&*node, y);
                    lemma_members_of_parts(&*changed, y);
                }
            }
        },
    }
}

} // verus!
