use std::collections::HashMap;

use fxhash::FxBuildHasher;
use vstd::arithmetic::power2::{lemma_pow2_unfold, pow2};
use vstd::prelude::*;

use super::InflateError;
use crate::bit_reader::{bit_len, lemma_msb_value_bound, msb_value, BitReader};

verus! {

/// `fxhash::FxHasher`, the hasher of a code table.
#[verifier::external_type_specification]
#[verifier::external_body]
pub struct ExFxHasher(fxhash::FxHasher);

/// `std::hash::BuildHasherDefault`, which builds the hasher of a code table.
#[verifier::external_type_specification]
#[verifier::external_body]
#[verifier::reject_recursive_types(H)]
pub struct ExBuildHasherDefault<H>(std::hash::BuildHasherDefault<H>);

/// `HashMap::insert` on a map hashed by `FxHasher`: afterwards the map sends
/// `key` to `value` and every other key where it sent it before. FxHasher
/// hashes a key the same way every time, so the map behaves as a map.
#[verifier::external_body]
fn table_insert(table: &mut HashMap<(u16, u16), u16, FxBuildHasher>, key: (u16, u16), value: u16)
    ensures
        final(table)@ == old(table)@.insert(key, value),
{
    table.insert(key, value);
}

/// `HashMap::get` on a map hashed by `FxHasher`: the value stored under
/// `key`, if there is one.
#[verifier::external_body]
fn table_get(table: &HashMap<(u16, u16), u16, FxBuildHasher>, key: (u16, u16)) -> (value: Option<u16>)
    ensures
        value == (if table@.contains_key(key) {
            Some(table@[key])
        } else {
            None::<u16>
        }),
{
    table.get(&key).copied()
}

/// The number of entries of `lengths` that equal `len`.
pub open spec fn count_len(lengths: Seq<u8>, len: int) -> nat
    decreases lengths.len(),
{
    if lengths.len() == 0 {
        0
    } else {
        count_len(lengths.drop_last(), len) + if lengths.last() == len {
            1nat
        } else {
            0nat
        }
    }
}

/// `bl_count[len]` of RFC 1951, section 3.2.2: the number of codes of
/// length `len`, where length zero stands for "no code".
pub open spec fn bl_count(lengths: Seq<u8>, len: int) -> nat {
    if len == 0 {
        0
    } else {
        count_len(lengths, len)
    }
}

/// `next_code[len]` of RFC 1951, section 3.2.2, step 2: the smallest code
/// of length `len`.
pub open spec fn first_code(lengths: Seq<u8>, len: nat) -> nat
    decreases len,
{
    if len == 0 {
        0
    } else {
        2 * (first_code(lengths, (len - 1) as nat) + bl_count(lengths, len - 1))
    }
}

/// The canonical Huffman code of symbol `i` (RFC 1951, section 3.2.2, step
/// 3): codes of one length are handed out in the order of the symbols. Only
/// the low sixteen bits are kept.
pub open spec fn code_of(lengths: Seq<u8>, i: int) -> u16 {
    ((first_code(lengths, lengths[i] as nat) + count_len(lengths.take(i), lengths[i] as int)) % 0x10000) as u16
}

/// The code table of the first `k` symbols: (code, length) to symbol, for
/// each symbol of nonzero length; where two symbols share a code, the later
/// one holds it.
pub open spec fn code_table_prefix(lengths: Seq<u8>, k: nat) -> Map<(u16, u16), u16>
    decreases k,
{
    if k == 0 {
        Map::empty()
    } else {
        let table = code_table_prefix(lengths, (k - 1) as nat);
        let i = k - 1;
        if lengths[i] > 0 {
            table.insert((code_of(lengths, i), lengths[i] as u16), i as u16)
        } else {
            table
        }
    }
}

/// The code table that the code lengths `lengths` define.
pub open spec fn code_table(lengths: Seq<u8>) -> Map<(u16, u16), u16> {
    code_table_prefix(lengths, lengths.len())
}

/// Decoding one symbol from bit `pos` on, having tried the codes shorter
/// than `len` bits: codes are read most significant bit first, one bit more
/// at a time, up to sixteen bits.
pub open spec fn decode_from(table: Map<(u16, u16), u16>, data: Seq<u8>, pos: int, len: nat) -> Result<
    (u16, int),
    InflateError,
>
    decreases 17 - len,
{
    if len == 0 || len > 16 {
        Err(InflateError::InvalidSymbol)
    } else if pos + len > bit_len(data) {
        Err(InflateError::UnexpectedEnd)
    } else {
        let key = (msb_value(data, pos, len) as u16, len as u16);
        if table.contains_key(key) {
            Ok((table[key], pos + len))
        } else {
            decode_from(table, data, pos, len + 1)
        }
    }
}

/// The symbol that `table` decodes at bit `pos` of `data`, and the position after its code.
pub open spec fn decode_symbol_spec(table: Map<(u16, u16), u16>, data: Seq<u8>, pos: int) -> Result<
    (u16, int),
    InflateError,
> {
    decode_from(table, data, pos, 1)
}

pub proof fn lemma_decode_from_advances(table: Map<(u16, u16), u16>, data: Seq<u8>, pos: int, len: nat)
    requires
        len >= 1,
    ensures
        decode_from(table, data, pos, len) matches Ok((_, p)) ==> pos + len <= p <= bit_len(data) && p <= pos + 16,
    decreases 17 - len,
{
    if len <= 16 && pos + len <= bit_len(data) {
        lemma_decode_from_advances(table, data, pos, len + 1);
    }
}

/// A decoded symbol takes between one and sixteen bits of the input.
pub proof fn lemma_decode_symbol_advances(table: Map<(u16, u16), u16>, data: Seq<u8>, pos: int)
    ensures
        decode_symbol_spec(table, data, pos) matches Ok((_, p)) ==> pos < p <= bit_len(data) && p <= pos + 16,
{
    lemma_decode_from_advances(table, data, pos, 1);
}

proof fn lemma_count_len_bound(lengths: Seq<u8>, len: int)
    ensures
        count_len(lengths, len) <= lengths.len(),
    decreases lengths.len(),
{
    if lengths.len() > 0 {
        lemma_count_len_bound(lengths.drop_last(), len);
    }
}

proof fn lemma_first_code_bound(lengths: Seq<u8>, len: nat)
    ensures
        first_code(lengths, len) + 2 * lengths.len() <= pow2(len + 1) * lengths.len(),
    decreases len,
{
    let n = lengths.len();
    if len == 0 {
        vstd::arithmetic::power2::lemma2_to64();
    } else {
        lemma_first_code_bound(lengths, (len - 1) as nat);
        lemma_count_len_bound(lengths, len - 1);
        lemma_pow2_unfold(len + 1);
        let p = pow2(len);
        assert(pow2(len + 1) * n == 2 * (p * n)) by (nonlinear_arith)
            requires
                pow2(len + 1) == 2 * p,
        ;
    }
}

pub(crate) proof fn lemma_count_len_take_step(lengths: Seq<u8>, i: int, len: int)
    requires
        0 <= i < lengths.len(),
    ensures
        count_len(lengths.take(i + 1), len) == count_len(lengths.take(i), len) + if lengths[i] == len {
            1nat
        } else {
            0nat
        },
{
    assert(lengths.take(i + 1).drop_last() =~= lengths.take(i));
}

/// The canonical code of symbol `i` as a number (before it is cut to sixteen bits).
pub open spec fn code_value(lengths: Seq<u8>, i: int) -> int {
    (first_code(lengths, lengths[i] as nat) + count_len(lengths.take(i), lengths[i] as int)) as int
}

/// The codes of length `len` and below take this much of the code space
/// (in units of 2^-15): the Kraft sum of RFC 1951's code length counts.
pub open spec fn kraft_sum(lengths: Seq<u8>, len: nat) -> int
    decreases len,
{
    if len == 0 {
        0
    } else {
        kraft_sum(lengths, (len - 1) as nat) + bl_count(lengths, len as int) * pow2((15 - len) as nat)
    }
}

/// The code lengths are not over-subscribed: their codes fit in the code space.
pub open spec fn not_oversubscribed(lengths: Seq<u8>) -> bool {
    kraft_sum(lengths, 15) <= pow2(15)
}

/// The codes of length `len` that are handed out: all of them lie below this.
spec fn used_codes(lengths: Seq<u8>, len: nat) -> int {
    (first_code(lengths, len) + bl_count(lengths, len as int)) as int
}

proof fn lemma_count_take_mono(s: Seq<u8>, a: int, b: int, l: int)
    requires
        0 <= a <= b <= s.len(),
    ensures
        count_len(s.take(a), l) <= count_len(s.take(b), l),
    decreases b - a,
{
    if a < b {
        lemma_count_take_mono(s, a, b - 1, l);
        lemma_count_len_take_step(s, b - 1, l);
    }
}

proof fn lemma_count_before_bound(s: Seq<u8>, j: int)
    requires
        0 <= j < s.len(),
    ensures
        count_len(s.take(j), s[j] as int) + 1 <= count_len(s, s[j] as int),
{
    lemma_count_len_take_step(s, j, s[j] as int);
    lemma_count_take_mono(s, j + 1, s.len() as int, s[j] as int);
    assert(s.take(s.len() as int) =~= s);
}

proof fn lemma_count_before_strict(s: Seq<u8>, j: int, j2: int)
    requires
        0 <= j < j2 < s.len(),
        s[j] == s[j2],
    ensures
        count_len(s.take(j), s[j] as int) + 1 <= count_len(s.take(j2), s[j] as int),
{
    lemma_count_len_take_step(s, j, s[j] as int);
    lemma_count_take_mono(s, j + 1, j2, s[j] as int);
}

proof fn lemma_kraft_used(s: Seq<u8>, len: nat)
    requires
        len <= 15,
    ensures
        used_codes(s, len) * pow2((15 - len) as nat) == kraft_sum(s, len),
    decreases len,
{
    if len > 0 {
        lemma_kraft_used(s, (len - 1) as nat);
        lemma_pow2_unfold((16 - len) as nat);
        let p = pow2((15 - len) as nat);
        let u = used_codes(s, (len - 1) as nat);
        assert(((15 - (len - 1) as nat) as nat) == (16 - len) as nat);
        assert((((16 - len) as nat) - 1) as nat == (15 - len) as nat);
        assert(pow2((16 - len) as nat) == 2 * p);
        assert(kraft_sum(s, (len - 1) as nat) == u * (2 * p));
        assert(kraft_sum(s, len) == kraft_sum(s, (len - 1) as nat) + bl_count(s, len as int) * p);
        assert(used_codes(s, len) == 2 * u + bl_count(s, len as int));
        let c = bl_count(s, len as int);
        assert((2 * u + c) * p == u * (2 * p) + c * p) by (nonlinear_arith);
        assert(used_codes(s, len) * p == (2 * u + c) * p);
    } else {
        assert(used_codes(s, 0) == 0);
        assert(kraft_sum(s, 0) == 0);
        assert(0 * pow2(15) == 0);
    }
}

proof fn lemma_kraft_mono(s: Seq<u8>, a: nat, b: nat)
    requires
        a <= b,
    ensures
        kraft_sum(s, a) <= kraft_sum(s, b),
    decreases b - a,
{
    if a < b {
        lemma_kraft_mono(s, a, (b - 1) as nat);
        vstd::arithmetic::power2::lemma_pow2_pos((15 - b) as nat);
        assert(bl_count(s, b as int) * pow2((15 - b) as nat) >= 0) by (nonlinear_arith)
            requires
                pow2((15 - b) as nat) > 0,
        ;
    }
}

proof fn lemma_used_bound(s: Seq<u8>, len: nat)
    requires
        len <= 15,
        not_oversubscribed(s),
    ensures
        used_codes(s, len) <= pow2(len),
{
    lemma_kraft_used(s, len);
    lemma_kraft_mono(s, len, 15);
    vstd::arithmetic::power2::lemma_pow2_adds(len, (15 - len) as nat);
    vstd::arithmetic::power2::lemma_pow2_pos((15 - len) as nat);
    assert(len + (15 - len) as nat == 15);
    let u = used_codes(s, len);
    let p = pow2((15 - len) as nat);
    assert(u <= pow2(len)) by (nonlinear_arith)
        requires
            u * p <= pow2(len) * p,
            p > 0,
    ;
}

proof fn lemma_first_code_lower(s: Seq<u8>, a: nat, b: nat)
    requires
        a < b,
    ensures
        first_code(s, b) >= pow2((b - a) as nat) * used_codes(s, a),
    decreases b - a,
{
    lemma_pow2_unfold((b - a) as nat);
    if b == a + 1 {
        vstd::arithmetic::power2::lemma2_to64();
        assert(((b - a) - 1) as nat == 0);
    } else {
        lemma_first_code_lower(s, a, (b - 1) as nat);
        let q = pow2(((b - 1) - a) as nat);
        assert(((b - a) - 1) as nat == ((b - 1) - a) as nat);
        assert(first_code(s, b) == 2 * used_codes(s, (b - 1) as nat));
        assert(used_codes(s, (b - 1) as nat) >= first_code(s, (b - 1) as nat));
        assert(2 * (q * used_codes(s, a)) == pow2((b - a) as nat) * used_codes(s, a)) by (nonlinear_arith)
            requires
                pow2((b - a) as nat) == 2 * q,
        ;
    }
}

proof fn lemma_code_value_bound(s: Seq<u8>, i: int)
    requires
        0 <= i < s.len(),
        1 <= s[i] <= 15,
        not_oversubscribed(s),
    ensures
        0 <= code_value(s, i) < used_codes(s, s[i] as nat) <= pow2(s[i] as nat),
        pow2(s[i] as nat) <= 0x8000,
{
    lemma_count_before_bound(s, i);
    lemma_used_bound(s, s[i] as nat);
    vstd::arithmetic::power2::lemma2_to64();
    if s[i] < 15 {
        vstd::arithmetic::power2::lemma_pow2_strictly_increases(s[i] as nat, 15);
    }
}

proof fn lemma_codes_distinct(s: Seq<u8>, j: int, j2: int)
    requires
        0 <= j < j2 < s.len(),
        1 <= s[j] <= 15,
        1 <= s[j2] <= 15,
        not_oversubscribed(s),
    ensures
        table_key_of(s, j) != table_key_of(s, j2),
{
    if s[j] == s[j2] {
        lemma_count_before_strict(s, j, j2);
        lemma_code_value_bound(s, j);
        lemma_code_value_bound(s, j2);
    }
}

proof fn lemma_table_prefix(s: Seq<u8>, k: nat)
    requires
        k <= s.len(),
        forall|i: int| 0 <= i < s.len() ==> s[i] <= 15,
        not_oversubscribed(s),
    ensures
        forall|j: int|
            0 <= j < k && s[j] > 0 ==> #[trigger] code_table_prefix(s, k).contains_key(table_key_of(s, j))
                && code_table_prefix(s, k)[table_key_of(s, j)] == j as u16,
        forall|key: (u16, u16)|
            #[trigger] code_table_prefix(s, k).contains_key(key) ==> exists|j: int|
                0 <= j < k && s[j] > 0 && key == table_key_of(s, j),
    decreases k,
{
    if k > 0 {
        lemma_table_prefix(s, (k - 1) as nat);
        let i = k - 1;
        let prev = code_table_prefix(s, (k - 1) as nat);
        let table = code_table_prefix(s, k);
        if s[i] > 0 {
            assert(table == prev.insert(table_key_of(s, i), i as u16));
            assert forall|j: int| 0 <= j < k && s[j] > 0 implies #[trigger] table.contains_key(table_key_of(s, j))
                && table[table_key_of(s, j)] == j as u16 by {
                if j < i {
                    lemma_codes_distinct(s, j, i);
                    assert(prev.contains_key(table_key_of(s, j)));
                }
            }
            assert forall|key: (u16, u16)| #[trigger] table.contains_key(key) implies exists|j: int|
                0 <= j < k && s[j] > 0 && key == table_key_of(s, j) by {
                if key != table_key_of(s, i) {
                    assert(prev.contains_key(key));
                }
            }
        } else {
            assert(table == prev);
            assert forall|j: int| 0 <= j < k && s[j] > 0 implies #[trigger] table.contains_key(table_key_of(s, j))
                && table[table_key_of(s, j)] == j as u16 by {
                assert(prev.contains_key(table_key_of(s, j)));
            }
        }
    }
}

proof fn lemma_msb_value_split(data: Seq<u8>, pos: int, l: nat, m: nat)
    ensures
        msb_value(data, pos, l + m) == msb_value(data, pos, l) * pow2(m) + msb_value(data, pos + l, m),
    decreases m,
{
    if m == 0 {
        vstd::arithmetic::power2::lemma2_to64();
    } else {
        lemma_msb_value_split(data, pos, l, (m - 1) as nat);
        lemma_pow2_unfold(m);
        let a = msb_value(data, pos, l);
        let q = pow2((m - 1) as nat);
        assert((l + m - 1) as nat == l + (m - 1) as nat);
        assert(pos + (l + m) - 1 == pos + l + m - 1);
        assert(2 * (a * q) == a * pow2(m)) by (nonlinear_arith)
            requires
                pow2(m) == 2 * q,
        ;
    }
}

proof fn lemma_shorter_prefix_misses(lengths: Seq<u8>, i: int, data: Seq<u8>, pos: int, l: nat)
    requires
        forall|k: int| 0 <= k < lengths.len() ==> lengths[k] <= 15,
        not_oversubscribed(lengths),
        0 <= i < lengths.len(),
        1 <= l < lengths[i],
        msb_value(data, pos, lengths[i] as nat) == code_value(lengths, i),
    ensures
        !code_table(lengths).contains_key((msb_value(data, pos, l) as u16, l as u16)),
{
    let table = code_table(lengths);
    let len = lengths[i] as nat;
    let v = code_value(lengths, i);
    let key = (msb_value(data, pos, l) as u16, l as u16);
    lemma_table_prefix(lengths, lengths.len());
    lemma_code_value_bound(lengths, i);
    lemma_msb_value_split(data, pos, l, (len - l) as nat);
    lemma_msb_value_bound(data, pos + l, (len - l) as nat);
    lemma_msb_value_bound(data, pos, l);
    vstd::arithmetic::power2::lemma_pow2_pos((len - l) as nat);
    vstd::arithmetic::power2::lemma_pow2_strictly_increases(l, len);
    let m = msb_value(data, pos, l);
    let d = pow2((len - l) as nat);
    assert(l + (len - l) as nat == len);
    if table.contains_key(key) {
        let j = choose|j: int| 0 <= j < lengths.len() && lengths[j] > 0 && key == table_key_of(lengths, j);
        assert(lengths[j] == l);
        lemma_code_value_bound(lengths, j);
        lemma_first_code_lower(lengths, l, len);
        assert(code_value(lengths, i) >= first_code(lengths, len));
        assert(v >= d * used_codes(lengths, l));
        assert(m * d + msb_value(data, pos + l, (len - l) as nat) == v);
        assert(m >= used_codes(lengths, l)) by (nonlinear_arith)
            requires
                m * d + msb_value(data, pos + l, (len - l) as nat) == v,
                msb_value(data, pos + l, (len - l) as nat) < d,
                v >= d * used_codes(lengths, l),
                d > 0,
        ;
        assert(false);
    }
}

proof fn lemma_decode_from_canonical(lengths: Seq<u8>, i: int, data: Seq<u8>, pos: int, l: nat)
    requires
        forall|k: int| 0 <= k < lengths.len() ==> lengths[k] <= 15,
        not_oversubscribed(lengths),
        0 <= i < lengths.len(),
        1 <= l <= lengths[i],
        pos + lengths[i] <= bit_len(data),
        msb_value(data, pos, lengths[i] as nat) == code_value(lengths, i),
    ensures
        decode_from(code_table(lengths), data, pos, l) == Ok::<(u16, int), InflateError>(
            (i as u16, pos + lengths[i]),
        ),
    decreases lengths[i] - l,
{
    if l < lengths[i] {
        lemma_shorter_prefix_misses(lengths, i, data, pos, l);
        lemma_decode_from_canonical(lengths, i, data, pos, l + 1);
    } else {
        lemma_table_prefix(lengths, lengths.len());
        lemma_code_value_bound(lengths, i);
        assert(code_table(lengths).contains_key(table_key_of(lengths, i)));
    }
}

/// The key of symbol `i` in the code table: its code and its length.
spec fn table_key_of(lengths: Seq<u8>, i: int) -> (u16, u16) {
    (code_of(lengths, i), lengths[i] as u16)
}

/// With code lengths that are not over-subscribed, reading the canonical
/// code of a symbol decodes that symbol: no shorter prefix of the code is
/// the code of another symbol, and no other symbol has the same code.
pub proof fn lemma_decode_canonical_code(lengths: Seq<u8>, i: int, data: Seq<u8>, pos: int)
    requires
        forall|k: int| 0 <= k < lengths.len() ==> lengths[k] <= 15,
        not_oversubscribed(lengths),
        0 <= i < lengths.len(),
        lengths[i] > 0,
        pos + lengths[i] <= bit_len(data),
        msb_value(data, pos, lengths[i] as nat) == code_value(lengths, i),
    ensures
        decode_symbol_spec(code_table(lengths), data, pos) == Ok::<(u16, int), InflateError>(
            (i as u16, pos + lengths[i]),
        ),
{
    lemma_decode_from_canonical(lengths, i, data, pos, 1);
}

/// With code lengths of at most 15 bits that are not over-subscribed, the
/// canonical codes are a prefix code: each symbol with a nonzero length has
/// one code, which fits in its length and which the code table sends back to
/// the symbol; and no symbol's code is a prefix of another symbol's code
/// (the first `lengths[i]` bits of symbol `j`'s code are not symbol `i`'s code).
pub proof fn lemma_canonical_codes_prefix_free(lengths: Seq<u8>, i: int, j: int)
    requires
        forall|k: int| 0 <= k < lengths.len() ==> lengths[k] <= 15,
        not_oversubscribed(lengths),
        0 <= i < lengths.len(),
        0 <= j < lengths.len(),
        i != j,
        0 < lengths[i] <= lengths[j],
    ensures
        0 <= code_value(lengths, i) < pow2(lengths[i] as nat),
        code_of(lengths, i) as int == code_value(lengths, i),
        code_table(lengths).contains_key((code_of(lengths, i), lengths[i] as u16)),
        code_table(lengths)[(code_of(lengths, i), lengths[i] as u16)] == i as u16,
        code_value(lengths, j) / (pow2((lengths[j] - lengths[i]) as nat) as int) != code_value(lengths, i),
{
    let a = lengths[i] as nat;
    let b = lengths[j] as nat;
    lemma_code_value_bound(lengths, i);
    lemma_code_value_bound(lengths, j);
    lemma_table_prefix(lengths, lengths.len());
    assert(code_table_prefix(lengths, lengths.len()).contains_key(table_key_of(lengths, i)));
    if a == b {
        vstd::arithmetic::power2::lemma2_to64();
        assert((b - a) as nat == 0);
        if i < j {
            lemma_codes_distinct(lengths, i, j);
        } else {
            lemma_codes_distinct(lengths, j, i);
        }
    } else {
        lemma_first_code_lower(lengths, a, b);
        vstd::arithmetic::power2::lemma_pow2_pos((b - a) as nat);
        let d = pow2((b - a) as nat) as int;
        let v = code_value(lengths, j);
        let u = used_codes(lengths, a);
        assert(v >= first_code(lengths, b));
        assert(v / d >= u) by (nonlinear_arith)
            requires
                v >= d * u,
                d > 0,
                u >= 0,
        ;
    }
}

/// A canonical Huffman code table (RFC 1951, section 3.2.2), from (code,
/// length) to symbol.
pub struct HuffmanTree(HashMap<(u16, u16), u16, FxBuildHasher>);

/// A Huffman code: its value and its number of bits.
#[derive(Clone, Copy, Debug, Hash, PartialEq, Eq, Structural)]
pub struct HuffmanCode {
    pub code: u16,
    pub length: u16,
}

/// The literal/length and the distance code tables of a compressed block.
pub struct LiteralDistanceTrees {
    pub literal_length: HuffmanTree,
    pub distance: HuffmanTree,
}

impl HuffmanTree {
    /// The table: (code, length) to symbol.
    pub closed spec fn table(&self) -> Map<(u16, u16), u16> {
        self.0@
    }

    /// The canonical code table of the code lengths `code_lengths`, one per
    /// symbol, zero for a symbol without a code. Any length is accepted; the
    /// codes are computed modulo 2^16, and only those of at most sixteen bits
    /// can be decoded.
    pub fn new(code_lengths: &[u8]) -> (tree: Self)
        requires
            code_lengths@.len() > 0,
        ensures
            tree.table() == code_table(code_lengths@),
    {
        let ghost lengths = code_lengths@;
        let n = code_lengths.len();
        let mut codes_per_length: Vec<usize> = vec![0usize; 256];
        let mut i: usize = 0;
        while i < n
            invariant
                n == lengths.len(),
                lengths == code_lengths@,
                i <= n,
                codes_per_length@.len() == 256,
                forall|l: int| 1 <= l < 256 ==> #[trigger] codes_per_length@[l] == count_len(lengths.take(i as int), l),
                forall|l: int| 1 <= l < 256 ==> #[trigger] codes_per_length@[l] <= i,
            decreases n - i,
        {
            proof {
                assert forall|l: int| 1 <= l < 256 implies count_len(lengths.take(i + 1), l) == count_len(lengths.take(i as int), l) + if lengths[i as int] == l { 1nat } else { 0nat } by {
                    lemma_count_len_take_step(lengths, i as int, l);
                }
            }
            let length = code_lengths[i];
            if length != 0 {
                let c = codes_per_length[length as usize];
                codes_per_length.set(length as usize, c + 1);
            }
            i += 1;
        }
        assert(lengths.take(n as int) =~= lengths);
        let mut next_code: Vec<u16> = vec![0u16; 256];
        let mut code: u16 = 0;
        let mut bits: usize = 1;
        while bits < 256
            invariant
                n == lengths.len(),
                1 <= bits <= 256,
                codes_per_length@.len() == 256,
                next_code@.len() == 256,
                forall|l: int| 1 <= l < 256 ==> #[trigger] codes_per_length@[l] == count_len(lengths, l),
                code == first_code(lengths, (bits - 1) as nat) % 0x10000,
                forall|l: int| 1 <= l < bits ==> #[trigger] next_code@[l] == first_code(lengths, l as nat) % 0x10000,
            decreases 256 - bits,
        {
            let count = if bits - 1 == 0 { 0 } else { codes_per_length[bits - 1] };
            proof {
                let a = first_code(lengths, (bits - 1) as nat) as int;
                let b = bl_count(lengths, bits - 1) as int;
                assert(count == b);
                vstd::arithmetic::div_mod::lemma_add_mod_noop(a, b, 0x10000);
                vstd::arithmetic::div_mod::lemma_mul_mod_noop_left((a % 0x10000 + b % 0x10000) % 0x10000, 2, 0x10000);
                vstd::arithmetic::div_mod::lemma_mul_mod_noop_left(a + b, 2, 0x10000);
                vstd::arithmetic::div_mod::lemma_mul_mod_noop_left(a % 0x10000 + b % 0x10000, 2, 0x10000);
            }
            code = (((code as u64 + (count % 0x10000) as u64) * 2) % 0x10000) as u16;
            next_code.set(bits, code);
            bits += 1;
        }
        let mut table: HashMap<(u16, u16), u16, FxBuildHasher> = HashMap::default();
        let mut value: usize = 0;
        while value < n
            invariant
                n == lengths.len(),
                lengths == code_lengths@,
                value <= n,
                next_code@.len() == 256,
                forall|l: int|
                    1 <= l < 256 ==> #[trigger] next_code@[l] == (first_code(lengths, l as nat) + count_len(
                        lengths.take(value as int),
                        l,
                    )) % 0x10000,
                table@ == code_table_prefix(lengths, value as nat),
            decreases n - value,
        {
            proof {
                assert forall|l: int| 1 <= l < 256 implies count_len(lengths.take(value + 1), l) == count_len(lengths.take(value as int), l) + if lengths[value as int] == l { 1nat } else { 0nat } by {
                    lemma_count_len_take_step(lengths, value as int, l);
                }
            }
            let length = code_lengths[value];
            if length > 0 {
                let c = next_code[length as usize];
                proof {
                    let l = length as int;
                    let a = first_code(lengths, l as nat) + count_len(lengths.take(value as int), l);
                    vstd::arithmetic::div_mod::lemma_add_mod_noop(a as int, 1, 0x10000);
                }
                table_insert(&mut table, (c, length as u16), value as u16);
                next_code.set(length as usize, ((c as u32 + 1) % 0x10000) as u16);
            }
            value += 1;
        }
        HuffmanTree(table)
    }

    /// Decodes one symbol: reads the code bit by bit, most significant bit
    /// first, until the bits read so far form a code of the table. Fails
    /// where the input ends first, or where sixteen bits form no code.
    pub fn try_decode_symbol(&self, reader: &mut BitReader) -> (symbol: Result<u16, InflateError>)
        requires
            old(reader).wf(),
        ensures
            final(reader).wf(),
            final(reader).bits() == old(reader).bits(),
            match decode_symbol_spec(self.table(), old(reader).bits(), old(reader).position()) {
                Ok((value, p)) => symbol == Ok::<u16, InflateError>(value) && final(reader).position() == p,
                Err(e) => symbol == Err::<u16, InflateError>(e),
            },
            symbol == Err::<u16, InflateError>(InflateError::UnexpectedEnd) ==> final(reader).position() == bit_len(
                old(reader).bits(),
            ),
            symbol == Err::<u16, InflateError>(InflateError::InvalidSymbol) ==> final(reader).position()
                == old(reader).position() + 16,
    {
        let ghost data = reader.bits();
        let ghost start = reader.position();
        let mut code: u16 = 0;
        let mut bit_count: u16 = 1;
        while bit_count <= 16
            invariant
                1 <= bit_count <= 17,
                reader.wf(),
                reader.bits() == data,
                data == old(reader).bits(),
                start == old(reader).position(),
                reader.position() == start + bit_count - 1,
                code == msb_value(data, start, (bit_count - 1) as nat),
                decode_from(self.table(), data, start, 1) == decode_from(
                    self.table(),
                    data,
                    start,
                    bit_count as nat,
                ),
            decreases 17 - bit_count,
        {
            if !reader.has_bits(1) {
                return Err(InflateError::UnexpectedEnd);
            }
            let bit = reader.read_n_bits(1);
            proof {
                reveal_with_fuel(crate::bit_reader::lsb_value, 2);
                crate::bit_reader::lemma_bit_at_bound(data, start + bit_count - 1);
                crate::bit_reader::lemma_msb_value_bound(data, start, (bit_count - 1) as nat);
                vstd::arithmetic::power2::lemma2_to64();
                if bit_count - 1 < 15 {
                    vstd::arithmetic::power2::lemma_pow2_strictly_increases((bit_count - 1) as nat, 15);
                }
            }
            code = code * 2 + bit as u16;
            match table_get(&self.0, (code, bit_count)) {
                Some(value) => {
                    return Ok(value);
                },
                None => {},
            }
            bit_count += 1;
        }
        Err(InflateError::InvalidSymbol)
    }

    /// Decodes one symbol of sound input: reads the code bit by bit, most
    /// significant bit first, until the bits read so far form a code of the
    /// table.
    pub fn decode_symbol(&self, reader: &mut BitReader) -> (symbol: u16)
        requires
            old(reader).wf(),
            decode_symbol_spec(self.table(), old(reader).bits(), old(reader).position()) is Ok,
        ensures
            final(reader).wf(),
            final(reader).bits() == old(reader).bits(),
            decode_symbol_spec(self.table(), old(reader).bits(), old(reader).position()) matches Ok((value, p))
                && symbol == value && final(reader).position() == p,
    {
        match self.try_decode_symbol(reader) {
            Ok(value) => value,
            Err(_) => {
                proof {
                    assert(false);
                }
                0
            },
        }
    }
}

} // verus!
