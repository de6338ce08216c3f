use vstd::prelude::*;

use crate::deflate::huffman_tree::{
    bl_count, code_table, code_value, count_len, first_code, lemma_count_len_take_step, HuffmanTree,
};

verus! {

/// The code lengths of the fixed literal/length code (RFC 1951, section 3.2.6).
pub open spec fn fixed_literal_lengths() -> Seq<u8> {
    Seq::new(
        288,
        |i: int|
            if i < 144 {
                8u8
            } else if i < 256 {
                9u8
            } else if i < 280 {
                7u8
            } else {
                8u8
            },
    )
}

/// The code lengths of the fixed distance code: five bits for each of the 32 symbols.
pub open spec fn fixed_distance_lengths() -> Seq<u8> {
    Seq::new(32, |i: int| 5u8)
}

/// The literal/length and the distance code tables of a block compressed
/// with fixed Huffman codes.
pub fn fixed_huffman_tree() -> (trees: (HuffmanTree, HuffmanTree))
    ensures
        trees.0.table() == code_table(fixed_literal_lengths()),
        trees.1.table() == code_table(fixed_distance_lengths()),
{
    let mut literals: Vec<u8> = Vec::new();
    let mut i: usize = 0;
    while i < 288
        invariant
            i <= 288,
            literals@.len() == i,
            forall|k: int| 0 <= k < i ==> literals@[k] == fixed_literal_lengths()[k],
        decreases 288 - i,
    {
        let length: u8 = if i < 144 {
            8
        } else if i < 256 {
            9
        } else if i < 280 {
            7
        } else {
            8
        };
        literals.push(length);
        i += 1;
    }
    let mut distances: Vec<u8> = Vec::new();
    let mut j: usize = 0;
    while j < 32
        invariant
            j <= 32,
            distances@.len() == j,
            forall|k: int| 0 <= k < j ==> distances@[k] == 5u8,
        decreases 32 - j,
    {
        distances.push(5);
        j += 1;
    }
    assert(literals@ =~= fixed_literal_lengths());
    assert(distances@ =~= fixed_distance_lengths());
    let literal_tree = HuffmanTree::new(literals.as_slice());
    let distance_tree = HuffmanTree::new(distances.as_slice());
    (literal_tree, distance_tree)
}

/// How many of the first `k` fixed literal/length code lengths equal `len`.
spec fn fixed_count(len: int, k: int) -> int {
    let below = |a: int, b: int| if k <= a { 0 } else if k >= b { b - a } else { k - a };
    if len == 7 {
        below(256, 280)
    } else if len == 8 {
        below(0, 144) + below(280, 288)
    } else if len == 9 {
        below(144, 256)
    } else {
        0
    }
}

proof fn lemma_fixed_count(len: int, k: int)
    requires
        0 <= k <= 288,
    ensures
        count_len(fixed_literal_lengths().take(k), len) == fixed_count(len, k),
    decreases k,
{
    if k > 0 {
        lemma_fixed_count(len, k - 1);
        lemma_count_len_take_step(fixed_literal_lengths(), k - 1, len);
    } else {
        assert(fixed_literal_lengths().take(0).len() == 0);
    }
}

proof fn lemma_fixed_first_codes()
    ensures
        first_code(fixed_literal_lengths(), 7) == 0,
        first_code(fixed_literal_lengths(), 8) == 0x30,
        first_code(fixed_literal_lengths(), 9) == 0x190,
        first_code(fixed_distance_lengths(), 5) == 0,
{
    let l = fixed_literal_lengths();
    assert(l.take(288) =~= l);
    lemma_fixed_count(1, 288);
    lemma_fixed_count(2, 288);
    lemma_fixed_count(3, 288);
    lemma_fixed_count(4, 288);
    lemma_fixed_count(5, 288);
    lemma_fixed_count(6, 288);
    lemma_fixed_count(7, 288);
    lemma_fixed_count(8, 288);
    lemma_fixed_count(9, 288);
    assert(first_code(l, 0) == 0);
    assert(first_code(l, 1) == 0);
    assert(first_code(l, 2) == 0);
    assert(first_code(l, 3) == 0);
    assert(first_code(l, 4) == 0);
    assert(first_code(l, 5) == 0);
    assert(first_code(l, 6) == 0);
    assert(first_code(l, 7) == 0);
    assert(bl_count(l, 7) == 24);
    assert(first_code(l, 8) == 0x30);
    assert(bl_count(l, 8) == 152);
    assert(first_code(l, 9) == 0x190);
    let d = fixed_distance_lengths();
    assert(d.take(32) =~= d);
    lemma_fixed_distance_count(1, 32);
    lemma_fixed_distance_count(2, 32);
    lemma_fixed_distance_count(3, 32);
    lemma_fixed_distance_count(4, 32);
    assert(first_code(d, 0) == 0);
    assert(first_code(d, 1) == 0);
    assert(first_code(d, 2) == 0);
    assert(first_code(d, 3) == 0);
    assert(first_code(d, 4) == 0);
    assert(first_code(d, 5) == 0);
}

proof fn lemma_fixed_distance_count(len: int, k: int)
    requires
        0 <= k <= 32,
    ensures
        count_len(fixed_distance_lengths().take(k), len) == if len == 5 { k } else { 0 },
    decreases k,
{
    if k > 0 {
        lemma_fixed_distance_count(len, k - 1);
        lemma_count_len_take_step(fixed_distance_lengths(), k - 1, len);
    } else {
        assert(fixed_distance_lengths().take(0).len() == 0);
    }
}

/// The fixed Huffman codes of RFC 1951, section 3.2.6: literal/length
/// symbols 0 to 143 have the eight-bit codes 0x30 to 0xBF, 144 to 255 the
/// nine-bit codes 0x190 to 0x1FF, 256 to 279 the seven-bit codes 0 to 0x17,
/// and 280 to 287 the eight-bit codes 0xC0 to 0xC7; distance symbol `i` has
/// the five-bit code `i`.
pub proof fn lemma_fixed_codes(i: int)
    requires
        0 <= i < 288,
    ensures
        i < 144 ==> fixed_literal_lengths()[i] == 8 && code_value(fixed_literal_lengths(), i) == 0x30 + i,
        144 <= i < 256 ==> fixed_literal_lengths()[i] == 9 && code_value(fixed_literal_lengths(), i) == 0x190 + (i
            - 144),
        256 <= i < 280 ==> fixed_literal_lengths()[i] == 7 && code_value(fixed_literal_lengths(), i) == i - 256,
        280 <= i < 288 ==> fixed_literal_lengths()[i] == 8 && code_value(fixed_literal_lengths(), i) == 0xC0 + (i
            - 280),
        i < 32 ==> fixed_distance_lengths()[i] == 5 && code_value(fixed_distance_lengths(), i) == i,
{
    lemma_fixed_first_codes();
    let l = fixed_literal_lengths();
    lemma_fixed_count(l[i] as int, i);
    if i < 32 {
        lemma_fixed_distance_count(5, i);
    }
}

} // verus!
