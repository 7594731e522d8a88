use vstd::prelude::*;
use vstd::string::StrSliceExecFns;
use vstd::string::StringExecFns;
use crate::text::push_char;
use core::cmp::Ordering;

verus! {

/// A Huffman code tree. A branch keeps the symbols below it, each once, and
/// their total weight.
#[derive(Debug, PartialEq)]
pub enum Huffman {
    Leaf(char, usize),
    NonLeaf(Box<Huffman>, Box<Huffman>, Vec<char>, usize),
}

/// A code tree as a mathematical value.
pub enum Tree {
    Leaf(char, nat),
    Node(Box<Tree>, Box<Tree>, Seq<char>, nat),
}

impl Tree {
    /// The weight kept at the root.
    pub open spec fn weight(self) -> nat {
        match self {
            Tree::Leaf(_, weight) => weight,
            Tree::Node(_, _, _, weight) => weight,
        }
    }

    /// The symbols kept at the root.
    pub open spec fn symbols(self) -> Seq<char> {
        match self {
            Tree::Leaf(c, _) => seq![c],
            Tree::Node(_, _, symbols, _) => symbols,
        }
    }

    /// Whether the root claims `ch`.
    pub open spec fn has(self, ch: char) -> bool {
        self.symbols().contains(ch)
    }

    /// Whether a path of branches that claim `ch` leads to the leaf of `ch`,
    /// trying the left branch first.
    pub open spec fn encodable(self, ch: char) -> bool
        decreases self,
    {
        match self {
            Tree::Leaf(c, _) => c == ch,
            Tree::Node(left, right, _, _) => if left.has(ch) {
                left.encodable(ch)
            } else {
                right.has(ch) && right.encodable(ch)
            },
        }
    }

    /// The code of `ch`: a `0` for each step to the left and a `1` for each
    /// step to the right on the way to its leaf.
    pub open spec fn code(self, ch: char) -> Seq<char>
        decreases self,
    {
        match self {
            Tree::Leaf(_, _) => Seq::empty(),
            Tree::Node(left, right, _, _) => if left.has(ch) {
                seq!['0'] + left.code(ch)
            } else {
                seq!['1'] + right.code(ch)
            },
        }
    }

    /// The symbol that the first bits of `bits` lead to, and the bits after
    /// them; nothing if the bits end before a leaf or hold anything but `0`
    /// and `1`.
    pub open spec fn step(self, bits: Seq<char>) -> Option<(char, Seq<char>)>
        decreases self,
    {
        match self {
            Tree::Leaf(c, _) => Some((c, bits)),
            Tree::Node(left, right, _, _) => if bits.len() == 0 {
                None
            } else if bits[0] == '0' {
                left.step(bits.skip(1))
            } else if bits[0] == '1' {
                right.step(bits.skip(1))
            } else {
                None
            },
        }
    }
}

/// The codes of the characters of `text`, one after the other.
pub open spec fn encoded(tree: Tree, text: Seq<char>) -> Seq<char>
    decreases text.len(),
{
    if text.len() == 0 {
        Seq::empty()
    } else {
        encoded(tree, text.drop_last()) + tree.code(text.last())
    }
}

/// The symbols that `bits` spell, one after the other, until no bit is
/// left; nothing if a symbol cannot be read or if reading uses up no bit
/// while bits are left.
pub open spec fn decoded(tree: Tree, bits: Seq<char>) -> Option<Seq<char>>
    decreases bits.len(),
{
    match tree.step(bits) {
        None => None,
        Some((c, rest)) => if rest.len() == 0 {
            Some(seq![c])
        } else if rest.len() < bits.len() {
            match decoded(tree, rest) {
                Some(more) => Some(seq![c] + more),
                None => None,
            }
        } else {
            None
        },
    }
}

/// `a`, followed by the symbols of `b` that have not come before, in order.
pub open spec fn merged(a: Seq<char>, b: Seq<char>) -> Seq<char>
    decreases b.len(),
{
    if b.len() == 0 {
        a
    } else {
        let before = merged(a, b.drop_last());
        if before.contains(b.last()) {
            before
        } else {
            before.push(b.last())
        }
    }
}

/// The branch over `left` and `right`.
pub open spec fn joined(left: Tree, right: Tree) -> Tree {
    Tree::Node(
        Box::new(left),
        Box::new(right),
        merged(left.symbols(), right.symbols()),
        left.weight() + right.weight(),
    )
}

/// `trees` with `tree` put behind the last one that is at least as heavy.
pub open spec fn placed(trees: Seq<Tree>, tree: Tree) -> Seq<Tree>
    decreases trees.len(),
{
    if trees.len() == 0 {
        seq![tree]
    } else if trees.last().weight() >= tree.weight() {
        trees.push(tree)
    } else {
        placed(trees.drop_last(), tree).push(trees.last())
    }
}

/// `trees` in the order of falling weight; trees of one weight keep their
/// order.
pub open spec fn by_falling_weight(trees: Seq<Tree>) -> Seq<Tree>
    decreases trees.len(),
{
    if trees.len() == 0 {
        trees
    } else {
        placed(by_falling_weight(trees.drop_last()), trees.last())
    }
}

/// The sum of the weights.
pub open spec fn total_weight(trees: Seq<Tree>) -> nat
    decreases trees.len(),
{
    if trees.len() == 0 {
        0
    } else {
        total_weight(trees.drop_last()) + trees.last().weight()
    }
}

/// What is left after `joins` more rounds of joining the last two trees
/// (the last one to the left) and putting the list back in the order of
/// falling weight; the final round's branch is the result.
pub open spec fn built(trees: Seq<Tree>, joins: nat) -> Tree
    recommends
        trees.len() == joins + 1,
        joins >= 1,
    decreases joins,
{
    let combined = joined(trees[trees.len() - 1], trees[trees.len() - 2]);
    if joins <= 1 {
        combined
    } else {
        built(
            by_falling_weight(trees.take(trees.len() - 2).push(combined)),
            (joins - 1) as nat,
        )
    }
}

/// The mathematical values of a list of trees.
pub open spec fn models(trees: Seq<Huffman>) -> Seq<Tree> {
    Seq::new(trees.len(), |i: int| trees[i]@)
}

/// The leaf for a symbol with its weight.
pub open spec fn leaf_for(pair: (char, usize)) -> Tree {
    Tree::Leaf(pair.0, pair.1 as nat)
}

/// The leaves for a list of symbols with their weights.
pub open spec fn leaves_of(pairs: Seq<(char, usize)>) -> Seq<Tree> {
    Seq::new(pairs.len(), |i: int| leaf_for(pairs[i]))
}

impl Huffman {
    /// The tree as a mathematical value.
    pub open spec fn model(&self) -> Tree
        decreases self,
    {
        match self {
            Huffman::Leaf(c, weight) => Tree::Leaf(*c, *weight as nat),
            Huffman::NonLeaf(left, right, symbols, weight) => Tree::Node(
                Box::new(left.model()),
                Box::new(right.model()),
                symbols@,
                *weight as nat,
            ),
        }
    }

    pub fn new_leaf(ch: char, weight: usize) -> (r: Self)
        ensures
            r@ == Tree::Leaf(ch, weight as nat),
    {
        Huffman::Leaf(ch, weight)
    }

    pub fn new_non_leaf(left: Huffman, right: Huffman, chars: Vec<char>, weight: usize) -> (r:
        Self)
        ensures
            r@ == Tree::Node(Box::new(left@), Box::new(right@), chars@, weight as nat),
    {
        Huffman::NonLeaf(Box::new(left), Box::new(right), chars, weight)
    }

    /// Whether the root claims `ch`.
    pub fn contains(&self, ch: char) -> (r: bool)
        ensures
            r == self@.has(ch),
    {
        match self {
            Huffman::Leaf(c, _) => {
                assert(seq![*c][0] == *c);
                *c == ch
            },
            Huffman::NonLeaf(_, _, set, _) => holds(set, ch),
        }
    }

    /// The weight kept at the root.
    pub fn weight(&self) -> (r: usize)
        ensures
            r == self@.weight(),
    {
        match self {
            Huffman::Leaf(_, weight) => *weight,
            Huffman::NonLeaf(_, _, _, weight) => *weight,
        }
    }

    /// The symbols kept at the root.
    pub fn chars(&self) -> (r: Vec<char>)
        ensures
            r@ == self@.symbols(),
    {
        match self {
            Huffman::Leaf(chars, _) => {
                let mut set: Vec<char> = Vec::new();
                set.push(*chars);
                assert(set@ =~= seq![*chars]);
                set
            },
            Huffman::NonLeaf(_, _, chars, _) => copy_of(chars),
        }
    }
}

impl Huffman {
    /// The codes of the characters of `s`, one after the other.
    pub fn encode(&self, s: &str) -> (r: String)
        requires
            forall|i: int| 0 <= i < s@.len() ==> self@.encodable(#[trigger] s@[i]),
        ensures
            r@ == encoded(self@, s@),
    {
        let mut result = String::new();
        let count = s.unicode_len();
        let mut i: usize = 0;
        assert(s@.take(0) =~= Seq::<char>::empty());
        while i < count
            invariant
                i <= count,
                count == s@.len(),
                result@ == encoded(self@, s@.take(i as int)),
                forall|k: int| 0 <= k < s@.len() ==> self@.encodable(#[trigger] s@[k]),
            decreases count - i,
        {
            let ch = s.get_char(i);
            result.append(self.encode_char(ch).as_str());
            i += 1;
            proof {
                let upto = s@.take(i as int);
                assert(upto.drop_last() =~= s@.take(i - 1));
                assert(upto.last() == ch);
            }
        }
        assert(s@.take(i as int) =~= s@);
        result
    }

    /// The code of `ch`.
    pub fn encode_char(&self, ch: char) -> (r: String)
        requires
            self@.encodable(ch),
        ensures
            r@ == self@.code(ch),
        decreases self,
    {
        match self {
            Huffman::Leaf(_, _) => {
                let r = String::new();
                assert(r@ =~= self@.code(ch));
                r
            },
            Huffman::NonLeaf(left, right, _, _) => {
                if left.contains(ch) {
                    let mut code = String::from_str("0");
                    proof {
                        reveal_strlit("0");
                        assert("0"@ =~= seq!['0']);
                    }
                    code.append(left.encode_char(ch).as_str());
                    code
                } else {
                    let mut code = String::from_str("1");
                    proof {
                        reveal_strlit("1");
                        assert("1"@ =~= seq!['1']);
                    }
                    code.append(right.encode_char(ch).as_str());
                    code
                }
            },
        }
    }

    /// The symbols that the bits of `s` spell.
    pub fn decode(&self, s: &str) -> (r: String)
        requires
            decoded(self@, s@) is Some,
        ensures
            Some(r@) == decoded(self@, s@),
    {
        let bits: Vec<char> = characters(s);
        let mut remaining_bits: &[char] = bits.as_slice();
        let mut result = String::new();
        let ghost mut done: Seq<char> = Seq::empty();
        assert(done + decoded(self@, s@)->Some_0 =~= decoded(self@, s@)->Some_0);
        loop
            invariant_except_break
                result@ == done,
                decoded(self@, remaining_bits@) is Some,
                decoded(self@, s@) == Some(done + decoded(self@, remaining_bits@)->Some_0),
            ensures
                Some(result@) == decoded(self@, s@),
            decreases remaining_bits@.len(),
        {
            let (ch, remaining) = self.decode_with(remaining_bits);
            push_char(&mut result, ch);
            if remaining.is_empty() {
                assert(done + seq![ch] =~= done.push(ch));
                break;
            }
            proof {
                let rest = decoded(self@, remaining@)->Some_0;
                assert(done + (seq![ch] + rest) =~= done.push(ch) + rest);
                done = done.push(ch);
            }
            remaining_bits = remaining;
        }
        result
    }

    /// The symbol that the first bits lead to, and the bits after them.
    pub fn decode_with<'a>(&self, bits: &'a [char]) -> (r: (char, &'a [char]))
        requires
            self@.step(bits@) is Some,
        ensures
            Some((r.0, r.1@)) == self@.step(bits@),
        decreases self,
    {
        match self {
            Huffman::Leaf(c, _) => (*c, bits),
            Huffman::NonLeaf(left, right, _, _) => {
                let rest = &bits[1..bits.len()];
                assert(rest@ =~= bits@.skip(1));
                if bits[0] == '0' {
                    left.decode_with(rest)
                } else {
                    right.decode_with(rest)
                }
            },
        }
    }

    /// The code tree for the given symbols and weights: the leaves are put
    /// in the order of falling weight and then joined two by two from the
    /// light end.
    pub fn make(leaves: Vec<(char, usize)>) -> (r: Self)
        requires
            leaves@.len() >= 2,
            total_weight(leaves_of(leaves@)) <= usize::MAX,
        ensures
            r@ == built(
                by_falling_weight(leaves_of(leaves@)),
                (leaves@.len() - 1) as nat,
            ),
    {
        let mut huffs: Vec<Huffman> = Vec::new();
        let mut i: usize = 0;
        while i < leaves.len()
            invariant
                i <= leaves@.len(),
                huffs@.len() == i,
                forall|k: int|
                    0 <= k < i ==> (#[trigger] huffs@[k])@ == leaf_for(leaves@[k]),
            decreases leaves@.len() - i,
        {
            huffs.push(Self::new_leaf(leaves[i].0, leaves[i].1));
            i += 1;
        }
        assert(huffs@.len() == leaves@.len());
        assert forall|k: int| 0 <= k < huffs@.len() implies models(huffs@)[k] == leaves_of(
            leaves@,
        )[k] by {
            assert(huffs@[k]@ == leaf_for(leaves@[k]));
        }
        assert(models(huffs@) =~= leaves_of(leaves@));
        sort_by_falling_weight(&mut huffs);
        proof {
            lemma_sorting_keeps(leaves_of(leaves@));
        }
        Self::build(huffs)
    }

    /// Joins the last two trees, the last one to the left, puts the branch
    /// back and the list in the order of falling weight, until one tree is
    /// left.
    pub fn build(given_leaves: Vec<Huffman>) -> (r: Self)
        requires
            given_leaves@.len() >= 2,
            total_weight(models(given_leaves@)) <= usize::MAX,
        ensures
            r@ == built(models(given_leaves@), (given_leaves@.len() - 1) as nat),
    {
        let mut leaves = given_leaves;
        loop
            invariant
                leaves@.len() >= 2,
                total_weight(models(leaves@)) <= usize::MAX,
                built(models(leaves@), (leaves@.len() - 1) as nat) == built(
                    models(given_leaves@),
                    (given_leaves@.len() - 1) as nat,
                ),
            decreases leaves@.len(),
        {
            let count = leaves.len();
            let ghost before = models(leaves@);
            let left = leaves.remove(count - 1);
            let right = leaves.remove(count - 2);
            proof {
                assert(left@ == before[count - 1]);
                assert(right@ == before[count - 2]);
                assert(models(leaves@) =~= before.take(count - 2));
                lemma_total_weight_of_last_two(before);
            }
            let combined = Self::build_from_pair(&left, &right);
            if count == 2 {
                return combined;
            }
            leaves.push(combined);
            let ghost unsorted = models(leaves@);
            assert(unsorted =~= before.take(count - 2).push(joined(left@, right@)));
            sort_by_falling_weight(&mut leaves);
            proof {
                lemma_sorting_keeps(unsorted);
                assert(total_weight(unsorted) == total_weight(before)) by {
                    assert(unsorted.drop_last() =~= before.take(count - 2));
                }
            }
        }
    }

    /// The branch over `left` and `right`: the symbols of `left`, then those
    /// of `right` that `left` does not have, and the sum of the weights.
    pub fn build_from_pair(left: &Huffman, right: &Huffman) -> (r: Huffman)
        requires
            left@.weight() + right@.weight() <= usize::MAX,
        ensures
            r@ == joined(left@, right@),
    {
        let mut chars = left.chars();
        let more = right.chars();
        let mut i: usize = 0;
        assert(more@.take(0) =~= Seq::<char>::empty());
        while i < more.len()
            invariant
                i <= more@.len(),
                chars@ == merged(left@.symbols(), more@.take(i as int)),
            decreases more@.len() - i,
        {
            let ch = more[i];
            if !holds(&chars, ch) {
                chars.push(ch);
            }
            i += 1;
            proof {
                let upto = more@.take(i as int);
                assert(upto.drop_last() =~= more@.take(i - 1));
                assert(upto.last() == ch);
            }
        }
        assert(more@.take(i as int) =~= more@);
        let weight = left.weight() + right.weight();
        Self::new_non_leaf(left.clone(), right.clone(), chars, weight)
    }
}

/// The characters of `s`, in order.
pub fn characters(s: &str) -> (r: Vec<char>)
    ensures
        r@ == s@,
{
    let mut all: Vec<char> = Vec::new();
    let count = s.unicode_len();
    let mut i: usize = 0;
    while i < count
        invariant
            i <= count,
            count == s@.len(),
            all@ == s@.take(i as int),
        decreases count - i,
    {
        all.push(s.get_char(i));
        i += 1;
        assert(all@ =~= s@.take(i as int));
    }
    assert(s@.take(i as int) =~= s@);
    all
}

/// Reading the code of a symbol, whatever follows it, gives the symbol and
/// what follows.
pub proof fn lemma_step_reads_code(tree: Tree, ch: char, rest: Seq<char>)
    requires
        tree.encodable(ch),
    ensures
        tree.step(tree.code(ch) + rest) == Some((ch, rest)),
    decreases tree,
{
    match tree {
        Tree::Leaf(_, _) => {
            assert(tree.code(ch) + rest =~= rest);
        },
        Tree::Node(left, right, _, _) => {
            let bits = tree.code(ch) + rest;
            if left.has(ch) {
                assert(bits.skip(1) =~= left.code(ch) + rest);
                lemma_step_reads_code(*left, ch, rest);
            } else {
                assert(bits.skip(1) =~= right.code(ch) + rest);
                lemma_step_reads_code(*right, ch, rest);
            }
        },
    }
}

/// The code of a text is the code of its first character, then the code of
/// the rest.
pub proof fn lemma_encoded_from_the_front(tree: Tree, text: Seq<char>)
    requires
        text.len() > 0,
    ensures
        encoded(tree, text) == tree.code(text[0]) + encoded(tree, text.skip(1)),
    decreases text.len(),
{
    if text.len() == 1 {
        assert(text.drop_last() =~= Seq::<char>::empty());
        assert(text.skip(1) =~= Seq::<char>::empty());
        assert(encoded(tree, text) =~= tree.code(text[0]) + encoded(tree, text.skip(1)));
    } else {
        let front = text.drop_last();
        lemma_encoded_from_the_front(tree, front);
        assert(front.skip(1) =~= text.skip(1).drop_last());
        assert(text.skip(1).last() == text.last());
        assert(encoded(tree, text) =~= tree.code(text[0]) + encoded(tree, text.skip(1)));
    }
}

/// Under a branch, decoding the code of a text whose characters all have a
/// code gives back the text.
pub proof fn lemma_decoding_undoes_encoding(tree: Tree, text: Seq<char>)
    requires
        tree is Node,
        text.len() > 0,
        forall|i: int| 0 <= i < text.len() ==> tree.encodable(#[trigger] text[i]),
    ensures
        decoded(tree, encoded(tree, text)) == Some(text),
    decreases text.len(),
{
    let first = tree.code(text[0]);
    let later = text.skip(1);
    let rest = encoded(tree, later);
    lemma_encoded_from_the_front(tree, text);
    lemma_step_reads_code(tree, text[0], rest);
    assert(first.len() >= 1);
    if later.len() == 0 {
        assert(rest.len() == 0);
        assert(text =~= seq![text[0]]);
    } else {
        assert forall|i: int| 0 <= i < later.len() implies tree.encodable(#[trigger] later[i]) by {
            assert(later[i] == text[i + 1]);
        }
        lemma_encoded_from_the_front(tree, later);
        assert(tree.code(later[0]).len() >= 1);
        lemma_decoding_undoes_encoding(tree, later);
        assert(seq![text[0]] + later =~= text);
    }
}

/// Putting a tree in its place adds its weight and one to the length.
pub proof fn lemma_placing_keeps(trees: Seq<Tree>, tree: Tree)
    ensures
        placed(trees, tree).len() == trees.len() + 1,
        total_weight(placed(trees, tree)) == total_weight(trees) + tree.weight(),
    decreases trees.len(),
{
    if trees.len() == 0 {
        assert(seq![tree].drop_last() =~= Seq::<Tree>::empty());
        assert(total_weight(seq![tree].drop_last()) == 0);
    } else if trees.last().weight() >= tree.weight() {
        assert(trees.push(tree).drop_last() =~= trees);
    } else {
        lemma_placing_keeps(trees.drop_last(), tree);
        let inner = placed(trees.drop_last(), tree);
        assert(inner.push(trees.last()).drop_last() =~= inner);
    }
}

/// Ordering by falling weight keeps the length and the total weight.
pub proof fn lemma_sorting_keeps(trees: Seq<Tree>)
    ensures
        by_falling_weight(trees).len() == trees.len(),
        total_weight(by_falling_weight(trees)) == total_weight(trees),
    decreases trees.len(),
{
    if trees.len() > 0 {
        lemma_sorting_keeps(trees.drop_last());
        lemma_placing_keeps(by_falling_weight(trees.drop_last()), trees.last());
    }
}

/// The last two trees of a list weigh no more than the whole list, and
/// replacing them by one tree of their weight keeps the total.
pub proof fn lemma_total_weight_of_last_two(trees: Seq<Tree>)
    requires
        trees.len() >= 2,
    ensures
        total_weight(trees) == total_weight(trees.take(trees.len() - 2)) + trees[trees.len()
            - 2].weight() + trees[trees.len() - 1].weight(),
        total_weight(trees.take(trees.len() - 2).push(joined(trees[trees.len() - 1], trees[trees.len() - 2])))
            == total_weight(trees),
{
    let front = trees.drop_last();
    assert(front.drop_last() =~= trees.take(trees.len() - 2));
    assert(front.last() == trees[trees.len() - 2]);
    assert(total_weight(trees) == total_weight(front) + trees.last().weight());
    assert(total_weight(front) == total_weight(front.drop_last()) + front.last().weight());
    let combined = joined(trees[trees.len() - 1], trees[trees.len() - 2]);
    let next = trees.take(trees.len() - 2).push(combined);
    assert(next.drop_last() =~= trees.take(trees.len() - 2));
    assert(next.last() == combined);
    assert(total_weight(next) == total_weight(next.drop_last()) + next.last().weight());
}

impl View for Huffman {
    type V = Tree;

    open spec fn view(&self) -> Tree {
        self.model()
    }
}

impl Clone for Huffman {
    /// A copy with the same symbols, weights and structure.
    fn clone(&self) -> (r: Huffman)
        ensures
            r@ == self@,
        decreases self,
    {
        match self {
            Huffman::Leaf(c, weight) => Huffman::Leaf(*c, *weight),
            Huffman::NonLeaf(left, right, symbols, weight) => Huffman::NonLeaf(
                Box::new((**left).clone()),
                Box::new((**right).clone()),
                copy_of(symbols),
                *weight,
            ),
        }
    }
}

/// Whether `ch` is among `symbols`.
pub fn holds(symbols: &Vec<char>, ch: char) -> (r: bool)
    ensures
        r == symbols@.contains(ch),
{
    let mut i: usize = 0;
    while i < symbols.len()
        invariant
            i <= symbols@.len(),
            forall|k: int| 0 <= k < i ==> symbols@[k] != ch,
        decreases symbols@.len() - i,
    {
        if symbols[i] == ch {
            return true;
        }
        i += 1;
    }
    false
}

/// The same symbols in a vector of their own.
pub fn copy_of(symbols: &Vec<char>) -> (r: Vec<char>)
    ensures
        r@ == symbols@,
{
    let mut copy: Vec<char> = Vec::new();
    let mut i: usize = 0;
    while i < symbols.len()
        invariant
            i <= symbols@.len(),
            copy@ == symbols@.take(i as int),
        decreases symbols@.len() - i,
    {
        copy.push(symbols[i]);
        i += 1;
        assert(copy@ =~= symbols@.take(i as int));
    }
    assert(symbols@.take(i as int) =~= symbols@);
    copy
}

/// The tree that is built weighs as much as the trees it is built from.
pub proof fn lemma_built_weight(trees: Seq<Tree>, joins: nat)
    requires
        joins >= 1,
        trees.len() == joins + 1,
    ensures
        built(trees, joins).weight() == total_weight(trees),
    decreases joins,
{
    lemma_total_weight_of_last_two(trees);
    let combined = joined(trees[trees.len() - 1], trees[trees.len() - 2]);
    let next = trees.take(trees.len() - 2).push(combined);
    if joins <= 1 {
        assert(trees.take(0) =~= Seq::<Tree>::empty());
        assert(total_weight(trees.take(0)) == 0);
    } else {
        lemma_sorting_keeps(next);
        lemma_built_weight(by_falling_weight(next), (joins - 1) as nat);
    }
}

/// The order that puts the heavier tree first.
pub fn falling_weight(a: &Huffman, b: &Huffman) -> (r: Ordering)
    ensures
        r == Ordering::Less <==> a@.weight() > b@.weight(),
        r == Ordering::Equal <==> a@.weight() == b@.weight(),
{
    let heavier = a.weight();
    let lighter = b.weight();
    if heavier > lighter {
        Ordering::Less
    } else if heavier == lighter {
        Ordering::Equal
    } else {
        Ordering::Greater
    }
}

/// `slice::sort_by` with `falling_weight` as the order. The sort is stable,
/// so the result is the one arrangement in which weights never rise and
/// trees of one weight keep their order.
#[verifier::external_body]
fn sort_by_falling_weight(trees: &mut Vec<Huffman>)
    ensures
        models(final(trees)@) == by_falling_weight(models(old(trees)@)),
{
    trees.sort_by(falling_weight);
}

} // verus!
