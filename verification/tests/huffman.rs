use sicp::huffman::{characters, copy_of, falling_weight, holds, Huffman};
use std::cmp::Ordering;
use std::collections::HashSet;

fn as_set(chars: Vec<char>) -> HashSet<char> {
    let count = chars.len();
    let set: HashSet<char> = chars.into_iter().collect();
    assert_eq!(set.len(), count);
    set
}

#[test]
fn leaf() {
    let huff = Huffman::new_leaf('a', 3);
    assert_eq!(huff.contains('a'), true);
    assert_eq!(huff.contains('b'), false);
    let expected_chars: HashSet<char> = HashSet::from_iter(vec!['a']);
    assert_eq!(as_set(huff.chars()), expected_chars);
    assert_eq!(huff.weight(), 3);
    assert_eq!(huff.encode("a"), "".to_string());
    assert_eq!(huff.decode(""), "a");
}

#[test]
fn non_leaf() {
    let huff1 = Huffman::new_leaf('a', 3);
    let huff2 = Huffman::new_leaf('b', 4);
    let huff = Huffman::build_from_pair(&huff1, &huff2);
    assert_eq!(huff.contains('a'), true);
    assert_eq!(huff.contains('b'), true);
    assert_eq!(huff.contains('c'), false);
    let expected_chars: HashSet<char> = HashSet::from_iter(vec!['a', 'b']);
    assert_eq!(as_set(huff.chars()), expected_chars);
    assert_eq!(huff.weight(), 7);
    assert_eq!(huff.encode("ab"), "01".to_string());
    assert_eq!(huff.decode("01"), "ab");
}

#[test]
fn make_encode_decode() {
    let huff = Huffman::make(vec![
        ('a', 8),
        ('b', 3),
        ('c', 1),
        ('d', 1),
        ('e', 1),
        ('f', 1),
        ('g', 1),
    ]);
    assert_eq!(huff.contains('a'), true);
    let expected_chars: HashSet<char> =
        HashSet::from_iter(vec!['a', 'b', 'c', 'd', 'e', 'f', 'g']);
    assert_eq!(as_set(huff.chars()), expected_chars);
    assert_eq!(huff.weight(), 16);

    assert_eq!(huff.encode("a"), "1".to_string());
    assert_eq!(huff.encode("b"), "00".to_string());
    assert_eq!(huff.encode("c"), "0110".to_string());
    assert_eq!(huff.encode("d"), "01111".to_string());
    assert_eq!(huff.encode("e"), "01110".to_string());
    assert_eq!(huff.encode("f"), "0101".to_string());
    assert_eq!(huff.encode("g"), "0100".to_string());

    assert_eq!(huff.encode("ab"), "100".to_string());
    assert_eq!(huff.encode("cd"), "011001111".to_string());
    assert_eq!(huff.encode("dc"), "011110110".to_string());
    assert_eq!(huff.encode("cabeg"), "0110100011100100".to_string());

    assert_eq!(huff.encode("abcdefg"), "1000110011110111001010100".to_string());
    assert_eq!(huff.decode("1000110011110111001010100"), "abcdefg".to_string());
}

#[test]
fn build_joins_the_two_lightest_first() {
    let huff = Huffman::build(vec![
        Huffman::new_leaf('a', 5),
        Huffman::new_leaf('b', 2),
        Huffman::new_leaf('c', 1),
    ]);
    let light = Huffman::build_from_pair(&Huffman::new_leaf('c', 1), &Huffman::new_leaf('b', 2));
    assert_eq!(huff, Huffman::build_from_pair(&light, &Huffman::new_leaf('a', 5)));
    assert_eq!(huff.chars(), vec!['c', 'b', 'a']);
    assert_eq!(huff.weight(), 8);
}

#[test]
fn make_keeps_the_order_of_equal_weights() {
    // All weights equal: a stable order leaves the leaves as given, so the
    // last two are joined first, the last one to the left.
    let huff = Huffman::make(vec![('a', 1), ('b', 1), ('c', 1)]);
    let first = Huffman::build_from_pair(&Huffman::new_leaf('c', 1), &Huffman::new_leaf('b', 1));
    assert_eq!(huff, Huffman::build_from_pair(&Huffman::new_leaf('a', 1), &first));
}

#[test]
fn make_orders_the_leaves_by_falling_weight() {
    let rising = Huffman::make(vec![('a', 1), ('b', 2), ('c', 4)]);
    let falling = Huffman::make(vec![('c', 4), ('b', 2), ('a', 1)]);
    assert_eq!(rising, falling);
    assert_eq!(rising.encode("c"), "1");
    assert_eq!(rising.encode("a"), "00");
    assert_eq!(rising.encode("b"), "01");
}

#[test]
fn build_from_pair_keeps_each_symbol_once() {
    let ab = Huffman::build_from_pair(&Huffman::new_leaf('a', 1), &Huffman::new_leaf('b', 2));
    let ba = Huffman::build_from_pair(&Huffman::new_leaf('b', 3), &Huffman::new_leaf('a', 4));
    let both = Huffman::build_from_pair(&ab, &ba);
    assert_eq!(both.chars(), vec!['a', 'b']);
    assert_eq!(both.weight(), 10);
}

#[test]
fn decode_with_reads_one_symbol() {
    let huff = Huffman::build_from_pair(&Huffman::new_leaf('a', 3), &Huffman::new_leaf('b', 4));
    let bits = ['1', '0', '1'];
    assert_eq!(huff.decode_with(&bits), ('b', &bits[1..]));
    assert_eq!(huff.encode_char('b'), "1");
    assert_eq!(Huffman::new_leaf('z', 1).decode_with(&bits), ('z', &bits[..]));
}

#[test]
fn new_non_leaf_keeps_what_it_is_given() {
    let huff = Huffman::new_non_leaf(
        Huffman::new_leaf('a', 3),
        Huffman::new_leaf('b', 4),
        vec!['b'],
        99,
    );
    assert_eq!(huff.weight(), 99);
    assert_eq!(huff.chars(), vec!['b']);
    assert_eq!(huff.contains('a'), false);
    assert_eq!(huff.clone(), huff);
}

#[test]
fn helpers() {
    assert_eq!(holds(&vec!['a', 'b'], 'b'), true);
    assert_eq!(holds(&vec!['a', 'b'], 'c'), false);
    assert_eq!(copy_of(&vec!['x', 'y']), vec!['x', 'y']);
    assert_eq!(characters("héllo"), vec!['h', 'é', 'l', 'l', 'o']);
    let light = Huffman::new_leaf('a', 1);
    let heavy = Huffman::new_leaf('b', 2);
    assert_eq!(falling_weight(&heavy, &light), Ordering::Less);
    assert_eq!(falling_weight(&light, &heavy), Ordering::Greater);
    assert_eq!(falling_weight(&light, &light), Ordering::Equal);
}
