//! Verified exercises in structured programming: a picture language of
//! frames and painters over exact fixed-point coordinates, ordered binary
//! trees, linked lists, Huffman codes, symbolic derivatives, and a number of
//! small numeric algorithms. Every function states what it returns and is
//! proved to return it.

pub mod ackermann;
pub mod binary_tree_immutable;
pub mod binary_tree_mutable;
pub mod cons;
pub mod counting_change;
pub mod derivative;
pub mod ex1_11;
pub mod exponential;
pub mod fermat;
pub mod fibonacci;
pub mod gcd;
pub mod huffman;
pub mod order;
pub mod pascal_triangle;
pub mod picture_language;
pub mod prime;
pub mod rational;
pub mod sorting;
pub mod sum_higher_order;
pub mod text;

use vstd::prelude::*;
use vstd::string::StringExecFns;

verus! {

/// Appends a space and the surname `Brown` to `s`.
pub fn change_string(s: &mut String)
    ensures
        final(s)@ == old(s)@ + " Brown"@,
{
    s.append(" Brown");
}

} // verus!
