use vstd::prelude::*;
use vstd::std_specs::cmp::PartialEqSpec;
use vstd::std_specs::cmp::PartialOrdSpec;
use crate::order::less;
use crate::order::is_total_order;
use crate::order::strictly_ascending;
use crate::order::ascending;
use crate::order::ord_agrees;
use crate::order::lemma_trichotomy;
use crate::sorting::dedup_elements;
use crate::sorting::sort_elements;
use crate::sorting::lemma_squeezed_members;
use crate::sorting::lemma_squeezed_strictly_ascending;
use crate::sorting::lemma_same_members;
use crate::sorting::lemma_ascending_whole;
use core::cmp::Ordering;
use std::rc::Rc;

verus! {

/// A binary tree with shared, immutable nodes.
#[derive(Debug, PartialEq)]
pub struct BinaryTree<T> where T: Clone + Copy + PartialEq + PartialOrd {
    pub tree: Option<Rc<TreeNode<T>>>,
}

/// A node: a value, and the subtrees of what comes before and after it.
#[derive(Debug, PartialEq)]
pub struct TreeNode<T> where T: Clone + Copy + PartialEq + PartialOrd {
    pub value: T,
    pub left: Option<Rc<TreeNode<T>>>,
    pub right: Option<Rc<TreeNode<T>>>,
}

impl<T> TreeNode<T> where T: Clone + Copy + PartialEq + PartialOrd {
    /// The values from left to right.
    pub open spec fn in_order(&self) -> Seq<T>
        decreases self,
    {
        (match self.left {
            Some(l) => l.in_order(),
            None => Seq::empty(),
        }).push(self.value) + (match self.right {
            Some(r) => r.in_order(),
            None => Seq::empty(),
        })
    }

    /// Whether the search for `x` succeeds: it stops at an equal value, goes
    /// left for a smaller `x` and right otherwise.
    pub open spec fn finds(&self, x: T) -> bool
        decreases self,
    {
        if x.eq_spec(&self.value) {
            true
        } else if less(x, self.value) {
            match self.left {
                Some(l) => l.finds(x),
                None => false,
            }
        } else {
            match self.right {
                Some(r) => r.finds(x),
                None => false,
            }
        }
    }

    /// A node without subtrees.
    pub open spec fn is_leaf_of(&self, x: T) -> bool {
        self.value == x && self.left is None && self.right is None
    }
}

/// The values of an optional subtree from left to right.
pub open spec fn in_order_of<T>(tree: Option<Rc<TreeNode<T>>>) -> Seq<T> where
    T: Clone + Copy + PartialEq + PartialOrd,
 {
    match tree {
        Some(node) => node.in_order(),
        None => Seq::empty(),
    }
}

/// `out` has the shape of `node`, and each of its values is a result of
/// `f` on the value in the same place.
pub open spec fn mirrors<T, U, F>(node: TreeNode<T>, f: F, out: TreeNode<U>) -> bool where
    T: Clone + Copy + PartialEq + PartialOrd,
    U: Clone + Copy + PartialEq + PartialOrd,
    F: Fn(T) -> U,

    decreases node,
{
    &&& call_ensures(f, (node.value,), out.value)
    &&& match node.left {
        Some(l) => out.left matches Some(ol) && mirrors(*l, f, *ol),
        None => out.left is None,
    }
    &&& match node.right {
        Some(r) => out.right matches Some(or) && mirrors(*r, f, *or),
        None => out.right is None,
    }
}

/// `tree` holds `elements` in order, with the middle element (the later one
/// of two) at the root, and so on down both sides.
pub open spec fn laid_out<T>(elements: Seq<T>, tree: Option<Rc<TreeNode<T>>>) -> bool where
    T: Clone + Copy + PartialEq + PartialOrd,

    decreases elements.len(),
{
    if elements.len() == 0 {
        tree is None
    } else {
        let centre = (elements.len() / 2) as int;
        tree matches Some(node) && node.value == elements[centre] && laid_out(
            elements.subrange(0, centre),
            node.left,
        ) && laid_out(elements.subrange(centre + 1, elements.len() as int), node.right)
    }
}

/// `new` is `old` with `x` added where the search for it ends; nothing
/// changes where the search meets an equal value.
pub open spec fn adds<T>(old: TreeNode<T>, x: T, new: TreeNode<T>) -> bool where
    T: Clone + Copy + PartialEq + PartialOrd,

    decreases old,
{
    match x.partial_cmp_spec(&old.value) {
        Some(Ordering::Equal) => new == old,
        Some(Ordering::Less) => new.value == old.value && new.right == old.right && (
        match old.left {
            Some(l) => new.left matches Some(nl) && adds(*l, x, *nl),
            None => new.left matches Some(nl) && nl.is_leaf_of(x),
        }),
        Some(Ordering::Greater) => new.value == old.value && new.left == old.left && (
        match old.right {
            Some(r) => new.right matches Some(nr) && adds(*r, x, *nr),
            None => new.right matches Some(nr) && nr.is_leaf_of(x),
        }),
        None => false,
    }
}

/// `x` can be compared with every value of the tree.
pub open spec fn comparable<T>(values: Seq<T>, x: T) -> bool where T: PartialOrd {
    forall|i: int| 0 <= i < values.len() ==> x.partial_cmp_spec(&#[trigger] values[i]) is Some
}

impl<T> TreeNode<T> where T: Clone + Copy + PartialEq + PartialOrd {
    pub fn new(value: T, left: Option<Rc<TreeNode<T>>>, right: Option<Rc<TreeNode<T>>>) -> (r:
        Self)
        ensures
            r.value == value,
            r.left == left,
            r.right == right,
    {
        Self { value, left, right }
    }

    /// A node without subtrees.
    pub fn empty(value: T) -> (r: Self)
        ensures
            r.is_leaf_of(value),
    {
        Self::new(value, None, None)
    }

    /// The number of values.
    pub fn count(&self) -> (r: isize)
        requires
            self.in_order().len() <= isize::MAX,
        ensures
            r == self.in_order().len(),
        decreases self,
    {
        let left_count = if let Some(left) = &self.left {
            left.count()
        } else {
            0
        };
        let right_count = if let Some(right) = &self.right {
            right.count()
        } else {
            0
        };
        1 + left_count + right_count
    }

    /// A tree of the same shape with `f` applied to every value.
    pub fn map<U, F>(&self, f: &F) -> (r: TreeNode<U>) where
        U: Clone + Copy + PartialEq + PartialOrd,
        F: Fn(T) -> U,

        requires
            forall|i: int|
                0 <= i < self.in_order().len() ==> call_requires(
                    *f,
                    (#[trigger] self.in_order()[i],),
                ),
        ensures
            mirrors(*self, *f, r),
        decreases self,
    {
        let ghost left_values = in_order_of(self.left);
        let new_left = match &self.left {
            Some(b) => {
                assert forall|i: int| 0 <= i < b.in_order().len() implies call_requires(
                    *f,
                    (#[trigger] b.in_order()[i],),
                ) by {
                    assert(b.in_order()[i] == self.in_order()[i]);
                }
                Some(Rc::new(b.map(f)))
            },
            None => None,
        };
        let new_right = match &self.right {
            Some(b) => {
                assert forall|i: int| 0 <= i < b.in_order().len() implies call_requires(
                    *f,
                    (#[trigger] b.in_order()[i],),
                ) by {
                    assert(b.in_order()[i] == self.in_order()[left_values.len() + 1 + i]);
                }
                Some(Rc::new(b.map(f)))
            },
            None => None,
        };
        assert(self.value == self.in_order()[left_values.len() as int]);
        TreeNode::new(f(self.value), new_left, new_right)
    }

    /// Searches for `x` as in an ordered tree.
    pub fn contains(&self, x: T) -> (r: bool)
        ensures
            T::obeys_eq_spec() && T::obeys_partial_cmp_spec() ==> r == self.finds(x),
        decreases self,
    {
        if x == self.value {
            true
        } else if x < self.value {
            match &self.left {
                Some(left) => left.contains(x),
                None => false,
            }
        } else {
            match &self.right {
                Some(right) => right.contains(x),
                None => false,
            }
        }
    }

    /// Appends the values from left to right.
    pub fn to_vec(&self, elements: &mut Vec<T>)
        ensures
            final(elements)@ == old(elements)@ + self.in_order(),
        decreases self,
    {
        if let Some(left) = &self.left {
            left.to_vec(elements);
        }
        elements.push(self.value);
        if let Some(right) = &self.right {
            right.to_vec(elements);
        }
        assert(elements@ =~= old(elements)@ + self.in_order());
    }

    /// The balanced tree that holds `elements` in order.
    pub fn from_vec(elements: &[T]) -> (r: Option<Rc<TreeNode<T>>>)
        ensures
            laid_out(elements@, r),
            in_order_of(r) == elements@,
        decreases elements@.len(),
    {
        if elements.is_empty() {
            return None;
        }
        let centre = elements.len() / 2;
        let left = TreeNode::from_vec(&elements[0..centre]);
        let right = TreeNode::from_vec(&elements[centre + 1..elements.len()]);
        let node = TreeNode::new(elements[centre], left, right);
        assert(node.in_order() =~= elements@);
        Some(Rc::new(node))
    }
}

impl<T> BinaryTree<T> where T: Clone + Copy + PartialEq + PartialOrd + Ord {
    /// The values from left to right.
    pub open spec fn in_order(&self) -> Seq<T> {
        in_order_of(self.tree)
    }

    pub fn new(tree: Option<Rc<TreeNode<T>>>) -> (r: Self)
        ensures
            r.tree == tree,
    {
        Self { tree }
    }

    /// The number of values.
    pub fn count(&self) -> (r: isize)
        requires
            self.in_order().len() <= isize::MAX,
        ensures
            r == self.in_order().len(),
    {
        match &self.tree {
            None => 0,
            Some(n) => n.count(),
        }
    }

    /// A tree of the same shape with `f` applied to every value.
    pub fn map<U, F>(&self, f: &F) -> (r: BinaryTree<U>) where
        U: Clone + Copy + PartialEq + PartialOrd + Ord,
        F: Fn(T) -> U,

        requires
            forall|i: int|
                0 <= i < self.in_order().len() ==> call_requires(
                    *f,
                    (#[trigger] self.in_order()[i],),
                ),
        ensures
            match self.tree {
                Some(n) => r.tree matches Some(m) && mirrors(*n, *f, *m),
                None => r.tree is None,
            },
    {
        match &self.tree {
            None => BinaryTree::new(None),
            Some(n) => {
                assert(self.in_order() == n.in_order());
                let node = n.map(f);
                let tree = Some(Rc::new(node));
                BinaryTree::new(tree)
            },
        }
    }

    /// Searches for `x` as in an ordered tree.
    pub fn contains(&self, x: T) -> (r: bool)
        ensures
            T::obeys_eq_spec() && T::obeys_partial_cmp_spec() ==> r == match self.tree {
                Some(n) => n.finds(x),
                None => false,
            },
    {
        match &self.tree {
            None => false,
            Some(node) => node.contains(x),
        }
    }

    /// The tree with `x` added; this tree is not changed.
    pub fn immutably_add(&self, x: T) -> (r: Self)
        requires
            T::obeys_partial_cmp_spec(),
            comparable(self.in_order(), x),
        ensures
            match self.tree {
                Some(n) => r.tree matches Some(m) && adds(*n, x, *m),
                None => r.tree matches Some(m) && m.is_leaf_of(x),
            },
    {
        match &self.tree {
            None => Self::new(Some(Rc::new(TreeNode::new(x, None, None)))),
            Some(node) => Self::new(Some(immutably_add(node.clone(), x))),
        }
    }

    /// The values from left to right.
    pub fn to_vec(&self) -> (r: Vec<T>)
        ensures
            r@ == self.in_order(),
    {
        match &self.tree {
            None => Vec::new(),
            Some(node) => {
                let mut elements: Vec<T> = Vec::new();
                node.to_vec(&mut elements);
                elements
            },
        }
    }

    /// The balanced tree that holds `elements` in order.
    pub fn from_vec(elements: Vec<T>) -> (r: Self)
        ensures
            laid_out(elements@, r.tree),
            r.in_order() == elements@,
    {
        BinaryTree::new(TreeNode::from_vec(elements.as_slice()))
    }

    /// The balanced tree of the values of both trees, each once, in
    /// ascending order.
    pub fn union(&self, other: Self) -> (r: Self)
        requires
            is_total_order::<T>(),
            ord_agrees::<T>(),
        ensures
            strictly_ascending(r.in_order()),
            forall|x: T|
                r.in_order().contains(x) <==> self.in_order().contains(x)
                    || other.in_order().contains(x),
            laid_out(r.in_order(), r.tree),
    {
        let mut elements = self.to_vec();
        let mut more = other.to_vec();
        elements.append(&mut more);
        let ghost joined = elements@;
        sort_elements(&mut elements);
        let ghost sorted = elements@;
        dedup_elements(&mut elements);
        proof {
            lemma_same_members(joined, sorted);
            lemma_squeezed_members(sorted);
            lemma_squeezed_strictly_ascending(sorted);
            assert forall|x: T|
                elements@.contains(x) <==> self.in_order().contains(x)
                    || other.in_order().contains(x) by {
                let a = self.in_order();
                let b = other.in_order();
                if a.contains(x) {
                    let i = choose|i: int| 0 <= i < a.len() && a[i] == x;
                    assert(joined[i] == x);
                }
                if b.contains(x) {
                    let i = choose|i: int| 0 <= i < b.len() && b[i] == x;
                    assert(joined[a.len() + i] == x);
                }
                if joined.contains(x) {
                    let i = choose|i: int| 0 <= i < joined.len() && joined[i] == x;
                    if i < a.len() {
                        assert(a[i] == x);
                    } else {
                        assert(b[i - a.len()] == x);
                    }
                }
            }
        }
        Self::from_vec(elements)
    }

    /// The balanced tree of the values that both trees hold, in ascending
    /// order.
    pub fn intersection(&self, other: &Self) -> (r: Self)
        requires
            is_total_order::<T>(),
            ord_agrees::<T>(),
        ensures
            ascending(r.in_order()),
            forall|x: T|
                r.in_order().contains(x) <==> self.in_order().contains(x)
                    && other.in_order().contains(x),
            laid_out(r.in_order(), r.tree),
    {
        let mut v1 = self.to_vec();
        let mut v2 = other.to_vec();
        if v1.is_empty() || v2.is_empty() {
            assert forall|x: T| !(self.in_order().contains(x) && other.in_order().contains(x)) by {
            }
            return Self::new(None);
        }
        sort_elements(&mut v1);
        sort_elements(&mut v2);
        proof {
            lemma_same_members(self.in_order(), v1@);
            lemma_same_members(other.in_order(), v2@);
        }
        let mut pos1: usize = 0;
        let mut pos2: usize = 0;
        let mut inter: Vec<T> = Vec::new();
        while pos1 < v1.len() && pos2 < v2.len()
            invariant
                is_total_order::<T>(),
                pos1 <= v1@.len(),
                pos2 <= v2@.len(),
                ascending(v1@),
                ascending(v2@),
                forall|k: int|
                    0 <= k < inter@.len() ==> exists|i: int|
                        0 <= i < pos1 && v1@[i] == #[trigger] inter@[k],
                forall|k: int| 0 <= k < inter@.len() ==> v2@.contains(#[trigger] inter@[k]),
                forall|i: int|
                    0 <= i < pos1 && v2@.contains(#[trigger] v1@[i]) ==> inter@.contains(v1@[i]),
                forall|j: int|
                    0 <= j < pos2 && v1@.contains(#[trigger] v2@[j]) ==> inter@.contains(v2@[j]),
                ascending(inter@),
            decreases v1@.len() - pos1 + v2@.len() - pos2,
        {
            let a = v1[pos1];
            let b = v2[pos2];
            let ghost before = inter@;
            proof {
                lemma_trichotomy(a, b);
            }
            if a < b {
                proof {
                    if v2@.contains(a) {
                        let j = choose|j: int| 0 <= j < v2@.len() && v2@[j] == a;
                        if j >= pos2 {
                            if j > pos2 {
                                assert(!less(v2@[j], v2@[pos2 as int]));
                            }
                            assert(false);
                        }
                        assert(v1@.contains(v2@[j])) by {
                            assert(v1@[pos1 as int] == v2@[j]);
                        }
                    }
                }
                pos1 += 1;
            } else if a == b {
                inter.push(a);
                proof {
                    assert forall|k: int| 0 <= k < inter@.len() implies exists|i: int|
                        0 <= i < pos1 + 1 && v1@[i] == #[trigger] inter@[k] by {
                        if k < before.len() {
                            let i = choose|i: int| 0 <= i < pos1 && v1@[i] == before[k];
                            assert(v1@[i] == inter@[k]);
                        } else {
                            assert(v1@[pos1 as int] == inter@[k]);
                        }
                    }
                    assert forall|k: int| 0 <= k < inter@.len() implies v2@.contains(
                        #[trigger] inter@[k],
                    ) by {
                        if k < before.len() {
                            assert(inter@[k] == before[k]);
                        } else {
                            assert(v2@[pos2 as int] == inter@[k]);
                        }
                    }
                    assert forall|x: T| before.contains(x) implies inter@.contains(x) by {
                        let k = choose|k: int| 0 <= k < before.len() && before[k] == x;
                        assert(inter@[k] == x);
                    }
                    assert(inter@[before.len() as int] == a);
                    assert(inter@.contains(a));
                    assert forall|i: int, j: int| 0 <= i < j < inter@.len() implies !less(
                        #[trigger] inter@[j],
                        #[trigger] inter@[i],
                    ) by {
                        if j < before.len() {
                            assert(inter@[i] == before[i] && inter@[j] == before[j]);
                        } else {
                            let m = choose|m: int| 0 <= m < pos1 && v1@[m] == before[i];
                            assert(!less(v1@[pos1 as int], v1@[m]));
                        }
                    }
                }
                pos1 += 1;
                pos2 += 1;
            } else {
                proof {
                    if v1@.contains(b) {
                        let i = choose|i: int| 0 <= i < v1@.len() && v1@[i] == b;
                        if i >= pos1 {
                            if i > pos1 {
                                assert(!less(v1@[i], v1@[pos1 as int]));
                            }
                            assert(false);
                        }
                        assert(v2@.contains(v1@[i])) by {
                            assert(v2@[pos2 as int] == v1@[i]);
                        }
                    }
                }
                pos2 += 1;
            }
        }
        proof {
            assert forall|x: T|
                inter@.contains(x) <==> self.in_order().contains(x) && other.in_order().contains(
                    x,
                ) by {
                if inter@.contains(x) {
                    let k = choose|k: int| 0 <= k < inter@.len() && inter@[k] == x;
                    let i = choose|i: int| 0 <= i < pos1 && v1@[i] == inter@[k];
                    assert(v1@.contains(x));
                    assert(v2@.contains(inter@[k]));
                }
                if v1@.contains(x) && v2@.contains(x) {
                    let i = choose|i: int| 0 <= i < v1@.len() && v1@[i] == x;
                    let j = choose|j: int| 0 <= j < v2@.len() && v2@[j] == x;
                    if pos1 == v1@.len() {
                        assert(v2@.contains(v1@[i]));
                    } else {
                        assert(v1@.contains(v2@[j]));
                    }
                }
            }
        }
        Self::from_vec(inter)
    }
}

/// What can be compared with every value of a node can be compared with its
/// own value and with every value of either subtree.
pub proof fn lemma_comparable_parts<T>(node: &TreeNode<T>, x: T) where
    T: Clone + Copy + PartialEq + PartialOrd,

    requires
        comparable(node.in_order(), x),
    ensures
        comparable(seq![node.value], x),
        comparable(in_order_of(node.left), x),
        comparable(in_order_of(node.right), x),
{
    let all = node.in_order();
    let before = in_order_of(node.left);
    let after = in_order_of(node.right);
    assert(all[before.len() as int] == node.value);
    assert forall|i: int| 0 <= i < before.len() implies before[i] == all[i] by {}
    assert forall|i: int| 0 <= i < after.len() implies after[i] == all[before.len() + 1 + i] by {}
    assert(comparable(seq![node.value], x)) by {
        assert(seq![node.value][0] == all[before.len() as int]);
    }
    assert(comparable(before, x)) by {
        assert forall|i: int| 0 <= i < before.len() implies before[i] == all[i] by {}
    }
    assert(comparable(after, x)) by {
        assert forall|i: int| 0 <= i < after.len() implies after[i] == all[before.len() + 1
            + i] by {}
    }
}

/// The tree with `x` added. An equal value already in the tree leaves the
/// tree as it is; the nodes off the search path are shared with the old tree.
pub fn immutably_add<T>(node: Rc<TreeNode<T>>, x: T) -> (r: Rc<TreeNode<T>>) where
    T: Clone + Copy + PartialEq + PartialOrd,

    requires
        T::obeys_partial_cmp_spec(),
        comparable(node.in_order(), x),
    ensures
        adds(*node, x, *r),
    decreases node,
{
    proof {
        lemma_comparable_parts(&*node, x);
        assert(seq![node.value][0] == node.value);
    }
    match x.partial_cmp(&node.value) {
        None => vstd::pervasive::unreached(),
        Some(Ordering::Equal) => node,
        Some(Ordering::Less) => {
            let right = cloned(&node.right);
            match &node.left {
                Some(left) => {
                    let left2 = Some(immutably_add(left.clone(), x));
                    Rc::new(TreeNode::new(node.value, left2, right))
                },
                None => {
                    let left = Some(Rc::new(TreeNode::empty(x)));
                    Rc::new(TreeNode::new(node.value, left, right))
                },
            }
        },
        Some(Ordering::Greater) => {
            let left = cloned(&node.left);
            match &node.right {
                Some(right) => {
                    let right2 = Some(immutably_add(right.clone(), x));
                    Rc::new(TreeNode::new(node.value, left, right2))
                },
                None => {
                    let right = Some(Rc::new(TreeNode::empty(x)));
                    Rc::new(TreeNode::new(node.value, left, right))
                },
            }
        },
    }
}

/// Another handle on the same subtree.
pub fn cloned<T>(node: &Option<Rc<TreeNode<T>>>) -> (r: Option<Rc<TreeNode<T>>>) where
    T: Clone + Copy + PartialEq + PartialOrd,

    ensures
        r == *node,
{
    match node {
        Some(shared) => Some(shared.clone()),
        None => None,
    }
}

/// In a node whose values ascend strictly, the values of both subtrees
/// ascend strictly, those to the left come before the node's value and
/// those to the right after it.
pub proof fn lemma_ascending_parts<T>(node: &TreeNode<T>) where
    T: Clone + Copy + PartialEq + PartialOrd,

    requires
        strictly_ascending(node.in_order()),
    ensures
        strictly_ascending(in_order_of(node.left)),
        strictly_ascending(in_order_of(node.right)),
        forall|i: int|
            0 <= i < in_order_of(node.left).len() ==> less(
                #[trigger] in_order_of(node.left)[i],
                node.value,
            ),
        forall|i: int|
            0 <= i < in_order_of(node.right).len() ==> less(
                node.value,
                #[trigger] in_order_of(node.right)[i],
            ),
{
    let all = node.in_order();
    let before = in_order_of(node.left);
    let after = in_order_of(node.right);
    let at = before.len() as int;
    assert(all[at] == node.value);
    assert forall|i: int, j: int| 0 <= i < j < before.len() implies less(
        #[trigger] before[i],
        #[trigger] before[j],
    ) by {
        assert(before[i] == all[i] && before[j] == all[j]);
    }
    assert forall|i: int, j: int| 0 <= i < j < after.len() implies less(
        #[trigger] after[i],
        #[trigger] after[j],
    ) by {
        assert(after[i] == all[at + 1 + i] && after[j] == all[at + 1 + j]);
    }
    assert forall|i: int| 0 <= i < before.len() implies less(#[trigger] before[i], node.value) by {
        assert(before[i] == all[i]);
        assert(less(all[i], all[at]));
    }
    assert forall|i: int| 0 <= i < after.len() implies less(node.value, #[trigger] after[i]) by {
        assert(after[i] == all[at + 1 + i]);
        assert(less(all[at], all[at + 1 + i]));
    }
}

/// A value is among those of a node exactly if it is the node's value or
/// among those of a subtree.
pub proof fn lemma_members_of_parts<T>(node: &TreeNode<T>, x: T) where
    T: Clone + Copy + PartialEq + PartialOrd,

    ensures
        node.in_order().contains(x) <==> (x == node.value || in_order_of(node.left).contains(x)
            || in_order_of(node.right).contains(x)),
{
    let all = node.in_order();
    let before = in_order_of(node.left);
    let after = in_order_of(node.right);
    let at = before.len() as int;
    assert(all[at] == node.value);
    if before.contains(x) {
        let i = choose|i: int| 0 <= i < before.len() && before[i] == x;
        assert(all[i] == x);
    }
    if after.contains(x) {
        let i = choose|i: int| 0 <= i < after.len() && after[i] == x;
        assert(all[at + 1 + i] == x);
    }
    if all.contains(x) {
        let i = choose|i: int| 0 <= i < all.len() && all[i] == x;
        if i < at {
            assert(before[i] == x);
        } else if i > at {
            assert(after[i - at - 1] == x);
        }
    }
}

/// In a tree whose values ascend strictly, the search finds exactly the
/// values of the tree.
pub proof fn lemma_search_finds_members<T>(node: &TreeNode<T>, x: T) where
    T: Clone + Copy + PartialEq + PartialOrd,

    requires
        is_total_order::<T>(),
        strictly_ascending(node.in_order()),
    ensures
        node.finds(x) <==> node.in_order().contains(x),
    decreases node,
{
    let before = in_order_of(node.left);
    let after = in_order_of(node.right);
    lemma_ascending_parts(node);
    lemma_members_of_parts(node, x);
    lemma_trichotomy(x, node.value);
    if x == node.value {
    } else if less(x, node.value) {
        assert(!after.contains(x)) by {
            if after.contains(x) {
                let i = choose|i: int| 0 <= i < after.len() && after[i] == x;
                assert(less(node.value, after[i]));
            }
        }
        match node.left {
            Some(l) => {
                lemma_search_finds_members(&*l, x);
            },
            None => {},
        }
    } else {
        assert(!before.contains(x)) by {
            if before.contains(x) {
                let i = choose|i: int| 0 <= i < before.len() && before[i] == x;
                assert(less(before[i], node.value));
            }
        }
        match node.right {
            Some(r) => {
                lemma_search_finds_members(&*r, x);
            },
            None => {},
        }
    }
}

/// An optional subtree `new` is the optional subtree `old` with `x` added:
/// a leaf for `x` where there was no subtree.
pub open spec fn adds_to_side<T>(
    old: Option<Rc<TreeNode<T>>>,
    x: T,
    new: Option<Rc<TreeNode<T>>>,
) -> bool where T: Clone + Copy + PartialEq + PartialOrd {
    match old {
        Some(l) => new matches Some(nl) && adds(*l, x, *nl),
        None => new matches Some(nl) && nl.is_leaf_of(x),
    }
}

/// Adding to a tree whose values ascend strictly gives a tree whose values
/// ascend strictly and are those of the old tree and the value added.
pub proof fn lemma_adding_keeps_order<T>(old: &TreeNode<T>, x: T, new: &TreeNode<T>) where
    T: Clone + Copy + PartialEq + PartialOrd,

    requires
        is_total_order::<T>(),
        strictly_ascending(old.in_order()),
        adds(*old, x, *new),
    ensures
        strictly_ascending(new.in_order()),
        forall|y: T| new.in_order().contains(y) <==> (y == x || old.in_order().contains(y)),
    decreases old,
{
    lemma_ascending_parts(old);
    lemma_trichotomy(x, old.value);
    lemma_members_of_parts(old, x);
    if x == old.value {
        assert(*new == *old);
    } else if less(x, old.value) {
        assert(adds_to_side(old.left, x, new.left));
        lemma_adding_to_side_keeps_order(old.left, x, new.left);
        assert forall|i: int| 0 <= i < in_order_of(new.left).len() implies less(
            #[trigger] in_order_of(new.left)[i],
            new.value,
        ) by {
            let y = in_order_of(new.left)[i];
            assert(in_order_of(new.left).contains(y));
            if y != x {
                let k = choose|k: int|
                    0 <= k < in_order_of(old.left).len() && in_order_of(old.left)[k] == y;
                assert(less(in_order_of(old.left)[k], old.value));
            }
        }
        lemma_ascending_whole(in_order_of(new.left), new.value, in_order_of(new.right));
        assert forall|y: T| new.in_order().contains(y) <==> (y == x || old.in_order().contains(
            y,
        )) by {
            lemma_members_of_parts(old, y);
            lemma_members_of_parts(new, y);
        }
    } else {
        assert(less(old.value, x));
        assert(adds_to_side(old.right, x, new.right));
        lemma_adding_to_side_keeps_order(old.right, x, new.right);
        assert forall|i: int| 0 <= i < in_order_of(new.right).len() implies less(
            new.value,
            #[trigger] in_order_of(new.right)[i],
        ) by {
            let y = in_order_of(new.right)[i];
            assert(in_order_of(new.right).contains(y));
            if y != x {
                let k = choose|k: int|
                    0 <= k < in_order_of(old.right).len() && in_order_of(old.right)[k] == y;
                assert(less(old.value, in_order_of(old.right)[k]));
            }
        }
        lemma_ascending_whole(in_order_of(new.left), new.value, in_order_of(new.right));
        assert forall|y: T| new.in_order().contains(y) <==> (y == x || old.in_order().contains(
            y,
        )) by {
            lemma_members_of_parts(old, y);
            lemma_members_of_parts(new, y);
        }
    }
}

/// Adding to an optional subtree whose values ascend strictly gives one
/// whose values ascend strictly and are the old values and the value added.
pub proof fn lemma_adding_to_side_keeps_order<T>(
    old: Option<Rc<TreeNode<T>>>,
    x: T,
    new: Option<Rc<TreeNode<T>>>,
) where T: Clone + Copy + PartialEq + PartialOrd
    requires
        is_total_order::<T>(),
        strictly_ascending(in_order_of(old)),
        adds_to_side(old, x, new),
    ensures
        strictly_ascending(in_order_of(new)),
        forall|y: T| in_order_of(new).contains(y) <==> (y == x || in_order_of(old).contains(y)),
    decreases old,
{
    match old {
        Some(l) => {
            lemma_adding_keeps_order(&*l, x, &*new->Some_0);
        },
        None => {
            let leaf = in_order_of(new);
            assert(leaf =~= seq![x]);
            assert(leaf[0] == x);
        },
    }
}

} // verus!