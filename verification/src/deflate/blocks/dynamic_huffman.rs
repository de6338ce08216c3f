use vstd::prelude::*;

use crate::bit_reader::{bit_len, lsb_value, BitReader};
use crate::deflate::huffman_tree::{
    code_table, decode_symbol_spec, lemma_decode_symbol_advances, HuffmanTree,
};
use crate::deflate::InflateError;

verus! {

/// The order in which the code lengths of the code length alphabet are
/// stored (RFC 1951, section 3.2.7).
pub open spec fn code_length_order(i: int) -> int {
    if i == 0 { 16 } else if i == 1 { 17 } else if i == 2 { 18 } else if i == 3 { 0 }
    else if i == 4 { 8 } else if i == 5 { 7 } else if i == 6 { 9 } else if i == 7 { 6 }
    else if i == 8 { 10 } else if i == 9 { 5 } else if i == 10 { 11 } else if i == 11 { 4 }
    else if i == 12 { 12 } else if i == 13 { 3 } else if i == 14 { 13 } else if i == 15 { 2 }
    else if i == 16 { 14 } else if i == 17 { 1 } else { 15 }
}

/// The symbol whose code length comes `i`-th.
fn code_length_slot(i: usize) -> (slot: usize)
    requires
        i < 19,
    ensures
        slot == code_length_order(i as int),
        slot < 19,
{
    match i {
        0 => 16,
        1 => 17,
        2 => 18,
        3 => 0,
        4 => 8,
        5 => 7,
        6 => 9,
        7 => 6,
        8 => 10,
        9 => 5,
        10 => 11,
        11 => 4,
        12 => 12,
        13 => 3,
        14 => 13,
        15 => 2,
        16 => 14,
        17 => 1,
        _ => 15,
    }
}

/// The code lengths of the code length alphabet after the first `k` of the
/// three-bit values from bit `pos` on have been stored, the `i`-th one for
/// symbol `code_length_order(i)`; the others are zero.
pub open spec fn code_length_lengths_spec(data: Seq<u8>, pos: int, k: nat) -> Seq<u8>
    decreases k,
{
    if k == 0 {
        Seq::new(19, |i: int| 0u8)
    } else {
        code_length_lengths_spec(data, pos, (k - 1) as nat).update(
            code_length_order(k - 1),
            lsb_value(data, pos + 3 * (k - 1), 3) as u8,
        )
    }
}

/// The order in which RFC 1951, section 3.2.7, stores the code lengths of
/// the code length alphabet.
pub open spec fn rfc_code_length_order() -> Seq<int> {
    seq![16int, 17, 18, 0, 8, 7, 9, 6, 10, 5, 11, 4, 12, 3, 13, 2, 14, 1, 15]
}

proof fn lemma_code_length_order_is_rfc(i: int)
    requires
        0 <= i < 19,
    ensures
        code_length_order(i) == rfc_code_length_order()[i],
        0 <= code_length_order(i) < 19,
        forall|j: int| 0 <= j < 19 && j != i ==> code_length_order(j) != code_length_order(i),
{
    let o = rfc_code_length_order();
    assert(o[0] == 16 && o[1] == 17 && o[2] == 18 && o[3] == 0 && o[4] == 8 && o[5] == 7 && o[6] == 9);
    assert(o[7] == 6 && o[8] == 10 && o[9] == 5 && o[10] == 11 && o[11] == 4 && o[12] == 12);
    assert(o[13] == 3 && o[14] == 13 && o[15] == 2 && o[16] == 14 && o[17] == 1 && o[18] == 15);
}

proof fn lemma_code_length_lengths_step(data: Seq<u8>, pos: int, k: nat)
    requires
        k <= 19,
    ensures
        code_length_lengths_spec(data, pos, k).len() == 19,
        forall|i: int|
            0 <= i < 19 ==> #[trigger] code_length_lengths_spec(data, pos, k)[code_length_order(i)] == if i < k {
                lsb_value(data, pos + 3 * i, 3) as u8
            } else {
                0u8
            },
    decreases k,
{
    if k > 0 {
        lemma_code_length_lengths_step(data, pos, (k - 1) as nat);
        lemma_code_length_order_is_rfc(k - 1);
        assert forall|i: int| 0 <= i < 19 implies #[trigger] code_length_lengths_spec(data, pos, k)[code_length_order(i)]
            == if i < k {
            lsb_value(data, pos + 3 * i, 3) as u8
        } else {
            0u8
        } by {
            lemma_code_length_order_is_rfc(i);
        }
    }
}

/// The `i`-th three-bit value after HCLEN is the code length of code length
/// symbol `rfc_code_length_order()[i]` (RFC 1951, section 3.2.7); the symbols
/// past the first `hclen` of that order get length zero. So writing 19 code
/// lengths in that order and reading them back gives the same lengths.
pub proof fn lemma_code_length_lengths_order(data: Seq<u8>, pos: int, hclen: nat)
    requires
        hclen <= 19,
    ensures
        code_length_lengths_spec(data, pos, hclen).len() == 19,
        forall|i: int|
            0 <= i < hclen ==> code_length_lengths_spec(data, pos, hclen)[#[trigger] rfc_code_length_order()[i]]
                == lsb_value(data, pos + 3 * i, 3) as u8,
        forall|i: int|
            hclen <= i < 19 ==> code_length_lengths_spec(data, pos, hclen)[#[trigger] rfc_code_length_order()[i]]
                == 0u8,
{
    lemma_code_length_lengths_step(data, pos, hclen);
    assert forall|i: int| 0 <= i < 19 implies code_length_lengths_spec(data, pos, hclen)[
        #[trigger] rfc_code_length_order()[i]] == if i < hclen {
        lsb_value(data, pos + 3 * i, 3) as u8
    } else {
        0u8
    } by {
        lemma_code_length_order_is_rfc(i);
    }
}

/// `symbols` with the `times` entries from `index` on set to `value`.
pub open spec fn fill_run(symbols: Seq<u8>, index: int, times: int, value: u8) -> Seq<u8> {
    Seq::new(symbols.len(), |k: int| if index <= k < index + times { value } else { symbols[k] })
}

/// One instruction of the code length alphabet at bit `pos`: the code
/// length it stands for, how many times it repeats, and the position after
/// it. Symbols 0 to 15 are a length once; 16 repeats the previous length 3
/// to 6 times; 17 and 18 repeat zero 3 to 10 and 11 to 138 times.
pub open spec fn length_run(
    table: Map<(u16, u16), u16>,
    data: Seq<u8>,
    pos: int,
    index: int,
    symbols: Seq<u8>,
) -> Result<(u8, int, int), InflateError> {
    match decode_symbol_spec(table, data, pos) {
        Err(e) => Err(e),
        Ok((symbol, p)) => if symbol <= 15 {
            Ok((symbol as u8, 1, p))
        } else if symbol == 16 {
            if p + 2 > bit_len(data) {
                Err(InflateError::UnexpectedEnd)
            } else if index == 0 {
                Err(InflateError::RepeatWithoutPrevious)
            } else {
                Ok((symbols[index - 1], lsb_value(data, p, 2) + 3int, p + 2))
            }
        } else if symbol == 17 {
            if p + 3 > bit_len(data) {
                Err(InflateError::UnexpectedEnd)
            } else {
                Ok((0u8, lsb_value(data, p, 3) + 3int, p + 3))
            }
        } else if symbol == 18 {
            if p + 7 > bit_len(data) {
                Err(InflateError::UnexpectedEnd)
            } else {
                Ok((0u8, lsb_value(data, p, 7) + 11int, p + 7))
            }
        } else {
            Err(InflateError::InvalidSymbol)
        },
    }
}

/// The code length instructions of RFC 1951, section 3.2.7: symbols 0 to
/// 15 are that code length once; 16 copies the previous code length 3 to 6
/// times (two extra bits), 17 repeats a zero length 3 to 10 times (three
/// extra bits), and 18 repeats it 11 to 138 times (seven extra bits).
pub proof fn lemma_length_run_ranges(
    table: Map<(u16, u16), u16>,
    data: Seq<u8>,
    pos: int,
    index: int,
    symbols: Seq<u8>,
)
    ensures
        length_run(table, data, pos, index, symbols) matches Ok((value, times, p)) ==> decode_symbol_spec(
            table,
            data,
            pos,
        ) matches Ok((symbol, q)) && {
            &&& symbol <= 18
            &&& symbol <= 15 ==> value == symbol && times == 1 && p == q
            &&& symbol == 16 ==> index != 0 && value == symbols[index - 1] && 3 <= times <= 6 && p == q + 2
                && times - 3 == lsb_value(data, q, 2)
            &&& symbol == 17 ==> value == 0 && 3 <= times <= 10 && p == q + 3 && times - 3 == lsb_value(data, q, 3)
            &&& symbol == 18 ==> value == 0 && 11 <= times <= 138 && p == q + 7 && times - 11 == lsb_value(
                data,
                q,
                7,
            )
        },
{
    vstd::arithmetic::power2::lemma2_to64();
    if let Ok((symbol, q)) = decode_symbol_spec(table, data, pos) {
        crate::bit_reader::lemma_lsb_value_bound(data, q, 2);
        crate::bit_reader::lemma_lsb_value_bound(data, q, 3);
        crate::bit_reader::lemma_lsb_value_bound(data, q, 7);
    }
}

/// Reads code lengths with the code length code `table` into `symbols`
/// from `index` on, until at least `count` of them are set; a run may end
/// past `count` but not past the end of `symbols`.
pub open spec fn read_lengths_spec(
    table: Map<(u16, u16), u16>,
    data: Seq<u8>,
    pos: int,
    count: int,
    index: int,
    symbols: Seq<u8>,
) -> Result<(Seq<u8>, int), InflateError>
    decreases symbols.len() - index,
{
    if index >= count {
        Ok((symbols, pos))
    } else {
        match length_run(table, data, pos, index, symbols) {
            Err(e) => Err(e),
            Ok((value, times, p)) => if times < 1 || index < 0 || index + times > symbols.len() {
                Err(InflateError::TooManyCodeLengths)
            } else {
                read_lengths_spec(table, data, p, count, index + times, fill_run(symbols, index, times, value))
            },
        }
    }
}

/// The literal/length and distance code tables of a dynamic block whose
/// header bits end at bit `pos` (RFC 1951, section 3.2.7), and the position
/// after them. The literal/length code lengths fill a table of 288 entries
/// and the distance code lengths one of 32, each read on its own.
pub open spec fn dynamic_tables_spec(data: Seq<u8>, pos: int) -> Result<
    (Map<(u16, u16), u16>, Map<(u16, u16), u16>, int),
    InflateError,
> {
    if pos + 14 > bit_len(data) {
        Err(InflateError::UnexpectedEnd)
    } else {
        let hlit = lsb_value(data, pos, 5) + 257int;
        let hdist = lsb_value(data, pos + 5, 5) + 1int;
        let hclen = (lsb_value(data, pos + 10, 4) + 4) as nat;
        let p1 = pos + 14;
        if p1 + 3 * hclen > bit_len(data) {
            Err(InflateError::UnexpectedEnd)
        } else {
            let code_lengths = code_table(code_length_lengths_spec(data, p1, hclen));
            let p2 = p1 + 3 * hclen;
            match read_lengths_spec(code_lengths, data, p2, hlit, 0, Seq::new(288, |i: int| 0u8)) {
                Err(e) => Err(e),
                Ok((literals, p3)) => match read_lengths_spec(
                    code_lengths,
                    data,
                    p3,
                    hdist,
                    0,
                    Seq::new(32, |i: int| 0u8),
                ) {
                    Err(e) => Err(e),
                    Ok((distances, p4)) => Ok((code_table(literals), code_table(distances), p4)),
                },
            }
        }
    }
}

pub proof fn lemma_read_lengths_advances(
    table: Map<(u16, u16), u16>,
    data: Seq<u8>,
    pos: int,
    count: int,
    index: int,
    symbols: Seq<u8>,
)
    requires
        0 <= pos <= bit_len(data),
    ensures
        read_lengths_spec(table, data, pos, count, index, symbols) matches Ok((_, p)) ==> pos <= p
            <= bit_len(data),
    decreases symbols.len() - index,
{
    if index < count {
        lemma_decode_symbol_advances(table, data, pos);
        match length_run(table, data, pos, index, symbols) {
            Err(e) => {},
            Ok((value, times, p)) => {
                if !(times < 1 || index < 0 || index + times > symbols.len()) {
                    lemma_read_lengths_advances(
                        table,
                        data,
                        p,
                        count,
                        index + times,
                        fill_run(symbols, index, times, value),
                    );
                }
            },
        }
    }
}

pub proof fn lemma_dynamic_tables_advances(data: Seq<u8>, pos: int)
    requires
        0 <= pos <= bit_len(data),
    ensures
        dynamic_tables_spec(data, pos) matches Ok((_, _, p)) ==> pos < p <= bit_len(data),
{
    if pos + 14 <= bit_len(data) {
        let hlit = lsb_value(data, pos, 5) + 257int;
        let hdist = lsb_value(data, pos + 5, 5) + 1int;
        let hclen = (lsb_value(data, pos + 10, 4) + 4) as nat;
        let p1 = pos + 14;
        if p1 + 3 * hclen <= bit_len(data) {
            let code_lengths = code_table(code_length_lengths_spec(data, p1, hclen));
            let p2 = p1 + 3 * hclen;
            lemma_read_lengths_advances(code_lengths, data, p2, hlit, 0, Seq::new(288, |i: int| 0u8));
            match read_lengths_spec(code_lengths, data, p2, hlit, 0, Seq::new(288, |i: int| 0u8)) {
                Err(e) => {},
                Ok((literals, p3)) => {
                    lemma_read_lengths_advances(code_lengths, data, p3, hdist, 0, Seq::new(32, |i: int| 0u8));
                },
            }
        }
    }
}

/// Reads the code length instructions into `symbols` until at least `count`
/// code lengths are set, and builds their code table; or gives the first
/// fault of the instructions.
fn try_build_dynamic_huffman(
    reader: &mut BitReader,
    count: usize,
    capacity: usize,
    lengths: &HuffmanTree,
) -> (tree: Result<HuffmanTree, InflateError>)
    requires
        old(reader).wf(),
        1 <= capacity <= 288,
    ensures
        final(reader).wf(),
        final(reader).bits() == old(reader).bits(),
        match read_lengths_spec(
            lengths.table(),
            old(reader).bits(),
            old(reader).position(),
            count as int,
            0,
            Seq::new(capacity as nat, |i: int| 0u8),
        ) {
            Ok((symbols, p)) => tree matches Ok(t) && t.table() == code_table(symbols) && final(reader).position() == p,
            Err(e) => tree matches Err(e2) && e2 == e,
        },
{
    let ghost data = reader.bits();
    let ghost table = lengths.table();
    let ghost start = reader.position();
    let ghost initial = Seq::new(capacity as nat, |i: int| 0u8);
    let mut symbols: Vec<u8> = Vec::new();
    let mut k: usize = 0;
    while k < capacity
        invariant
            k <= capacity,
            symbols@.len() == k,
            forall|j: int| 0 <= j < k ==> symbols@[j] == 0u8,
        decreases capacity - k,
    {
        symbols.push(0);
        k += 1;
    }
    assert(symbols@ =~= initial);
    let mut index: usize = 0;
    while index < count
        invariant
            reader.wf(),
            reader.bits() == data,
            data == old(reader).bits(),
            start == old(reader).position(),
            table == lengths.table(),
            initial == Seq::new(capacity as nat, |i: int| 0u8),
            symbols@.len() == capacity,
            index <= capacity,
            capacity <= 288,
            forall|j: int| 0 <= j < capacity ==> symbols@[j] <= 15,
            read_lengths_spec(table, data, start, count as int, 0, initial) == read_lengths_spec(
                table,
                data,
                reader.position(),
                count as int,
                index as int,
                symbols@,
            ),
        decreases capacity - index,
    {
        let ghost pos = reader.position();
        let ghost before = symbols@;
        let symbol = match lengths.try_decode_symbol(reader) {
            Ok(s) => s,
            Err(e) => {
                return Err(e);
            },
        };
        let (value, times): (u8, usize) = if symbol <= 15 {
            (symbol as u8, 1)
        } else if symbol == 16 {
            if !reader.has_bits(2) {
                return Err(InflateError::UnexpectedEnd);
            }
            let ghost p = reader.position();
            let extra = reader.read_n_bits(2);
            if index == 0 {
                return Err(InflateError::RepeatWithoutPrevious);
            }
            proof {
                crate::bit_reader::lemma_lsb_value_bound(data, p, 2);
                vstd::arithmetic::power2::lemma2_to64();
            }
            (symbols[index - 1], extra + 3)
        } else if symbol == 17 {
            if !reader.has_bits(3) {
                return Err(InflateError::UnexpectedEnd);
            }
            let ghost p = reader.position();
            let extra = reader.read_n_bits(3);
            proof {
                crate::bit_reader::lemma_lsb_value_bound(data, p, 3);
                vstd::arithmetic::power2::lemma2_to64();
            }
            (0, extra + 3)
        } else if symbol == 18 {
            if !reader.has_bits(7) {
                return Err(InflateError::UnexpectedEnd);
            }
            let ghost p = reader.position();
            let extra = reader.read_n_bits(7);
            proof {
                crate::bit_reader::lemma_lsb_value_bound(data, p, 7);
                vstd::arithmetic::power2::lemma2_to64();
            }
            (0, extra + 11)
        } else {
            return Err(InflateError::InvalidSymbol);
        };
        assert(length_run(table, data, pos, index as int, before) == Ok::<(u8, int, int), InflateError>(
            (value, times as int, reader.position()),
        ));
        if times > capacity - index {
            return Err(InflateError::TooManyCodeLengths);
        }
        let end = index + times;
        while index < end
            invariant
                index <= end,
                end <= capacity,
                symbols@.len() == capacity,
                before.len() == capacity,
                end - times <= index,
                value <= 15,
                forall|j: int| 0 <= j < capacity ==> symbols@[j] <= 15,
                forall|j: int|
                    0 <= j < capacity ==> #[trigger] symbols@[j] == if end - times <= j < index {
                        value
                    } else {
                        before[j]
                    },
            decreases end - index,
        {
            symbols.set(index, value);
            index += 1;
        }
        assert(symbols@ =~= fill_run(before, end - times, times as int, value));
    }
    Ok(HuffmanTree::new(symbols.as_slice()))
}

/// Reads the `hclen` three-bit code lengths of the code length alphabet,
/// in the order of `code_length_order`; the others are zero.
fn read_code_length_lengths(reader: &mut BitReader, hclen: usize) -> (lengths: Vec<u8>)
    requires
        old(reader).wf(),
        hclen <= 19,
        old(reader).position() + 3 * hclen <= bit_len(old(reader).bits()),
    ensures
        final(reader).wf(),
        final(reader).bits() == old(reader).bits(),
        final(reader).position() == old(reader).position() + 3 * hclen,
        lengths@ == code_length_lengths_spec(old(reader).bits(), old(reader).position(), hclen as nat),
        lengths@.len() == 19,
        forall|j: int| 0 <= j < 19 ==> lengths@[j] <= 7,
{
    let ghost data = reader.bits();
    let ghost p1 = reader.position();
    let mut code_length_code_lengths: Vec<u8> = Vec::new();
    let mut k: usize = 0;
    while k < 19
        invariant
            k <= 19,
            code_length_code_lengths@.len() == k,
            forall|j: int| 0 <= j < k ==> code_length_code_lengths@[j] == 0u8,
        decreases 19 - k,
    {
        code_length_code_lengths.push(0);
        k += 1;
    }
    assert(code_length_code_lengths@ =~= code_length_lengths_spec(data, p1, 0));
    let mut i: usize = 0;
    while i < hclen
        invariant
            reader.wf(),
            reader.bits() == data,
            i <= hclen,
            hclen <= 19,
            reader.position() == p1 + 3 * i,
            p1 + 3 * hclen <= bit_len(data),
            data == old(reader).bits(),
            p1 == old(reader).position(),
            code_length_code_lengths@ == code_length_lengths_spec(data, p1, i as nat),
            code_length_code_lengths@.len() == 19,
            forall|j: int| 0 <= j < 19 ==> code_length_code_lengths@[j] <= 7,
        decreases hclen - i,
    {
        let ghost p = reader.position();
        let len = reader.read_n_bits(3);
        proof {
            crate::bit_reader::lemma_lsb_value_bound(data, p, 3);
            vstd::arithmetic::power2::lemma2_to64();
        }
        let slot = code_length_slot(i);
        code_length_code_lengths.set(slot, len as u8);
        i += 1;
    }
    code_length_code_lengths
}

/// Reads the code length instructions of a sound block into `symbols` until
/// at least `count` code lengths are set, and builds their code table.
fn build_dynamic_huffman(reader: &mut BitReader, count: usize, capacity: usize, lengths: &HuffmanTree) -> (tree:
    HuffmanTree)
    requires
        old(reader).wf(),
        1 <= capacity <= 288,
        read_lengths_spec(
            lengths.table(),
            old(reader).bits(),
            old(reader).position(),
            count as int,
            0,
            Seq::new(capacity as nat, |i: int| 0u8),
        ) is Ok,
    ensures
        final(reader).wf(),
        final(reader).bits() == old(reader).bits(),
        read_lengths_spec(
            lengths.table(),
            old(reader).bits(),
            old(reader).position(),
            count as int,
            0,
            Seq::new(capacity as nat, |i: int| 0u8),
        ) matches Ok((symbols, p)) && tree.table() == code_table(symbols) && final(reader).position() == p,
{
    match try_build_dynamic_huffman(reader, count, capacity, lengths) {
        Ok(t) => t,
        Err(_) => {
            proof {
                assert(false);
            }
            HuffmanTree::new(&[0u8])
        },
    }
}

/// Reads the code tables of a dynamic block: the literal/length table and
/// the distance table; or gives the first fault of the block header.
pub fn try_read_dynamic_huffman(reader: &mut BitReader) -> (trees: Result<(HuffmanTree, HuffmanTree), InflateError>)
    requires
        old(reader).wf(),
    ensures
        final(reader).wf(),
        final(reader).bits() == old(reader).bits(),
        match dynamic_tables_spec(old(reader).bits(), old(reader).position()) {
            Ok((literals, distances, p)) => trees matches Ok(t) && t.0.table() == literals
                && t.1.table() == distances && final(reader).position() == p,
            Err(e) => trees matches Err(e2) && e2 == e,
        },
{
    let ghost data = reader.bits();
    let ghost pos = reader.position();
    if !reader.has_bits(14) {
        return Err(InflateError::UnexpectedEnd);
    }
    let hlit_bits = reader.read_n_bits(5);
    let hdist_bits = reader.read_n_bits(5);
    let hclen_bits = reader.read_n_bits(4);
    proof {
        crate::bit_reader::lemma_lsb_value_bound(data, pos, 5);
        crate::bit_reader::lemma_lsb_value_bound(data, pos + 5, 5);
        crate::bit_reader::lemma_lsb_value_bound(data, pos + 10, 4);
        vstd::arithmetic::power2::lemma2_to64();
    }
    let hlit = hlit_bits + 257;
    let hdist = hdist_bits + 1;
    let hclen = hclen_bits + 4;
    if !reader.has_bits(3 * hclen) {
        return Err(InflateError::UnexpectedEnd);
    }
    let code_length_code_lengths = read_code_length_lengths(reader, hclen);
    let code_length_tree = HuffmanTree::new(code_length_code_lengths.as_slice());
    let literal_table = match try_build_dynamic_huffman(reader, hlit, 288, &code_length_tree) {
        Ok(t) => t,
        Err(e) => {
            return Err(e);
        },
    };
    let dist_table = match try_build_dynamic_huffman(reader, hdist, 32, &code_length_tree) {
        Ok(t) => t,
        Err(e) => {
            return Err(e);
        },
    };
    Ok((literal_table, dist_table))
}

/// Reads the code tables of a sound dynamic block: the literal/length table
/// and the distance table.
pub fn read_dynamic_huffman(reader: &mut BitReader) -> (trees: (HuffmanTree, HuffmanTree))
    requires
        old(reader).wf(),
        dynamic_tables_spec(old(reader).bits(), old(reader).position()) is Ok,
    ensures
        final(reader).wf(),
        final(reader).bits() == old(reader).bits(),
        dynamic_tables_spec(old(reader).bits(), old(reader).position()) matches Ok((literals, distances, p))
            && trees.0.table() == literals && trees.1.table() == distances && final(reader).position() == p,
{
    let ghost data = reader.bits();
    let ghost pos = reader.position();
    let hlit_bits = reader.read_n_bits(5);
    let hdist_bits = reader.read_n_bits(5);
    let hclen_bits = reader.read_n_bits(4);
    proof {
        crate::bit_reader::lemma_lsb_value_bound(data, pos, 5);
        crate::bit_reader::lemma_lsb_value_bound(data, pos + 5, 5);
        crate::bit_reader::lemma_lsb_value_bound(data, pos + 10, 4);
        vstd::arithmetic::power2::lemma2_to64();
    }
    let hlit = hlit_bits + 257;
    let hdist = hdist_bits + 1;
    let hclen = hclen_bits + 4;
    let code_length_code_lengths = read_code_length_lengths(reader, hclen);
    let code_length_tree = HuffmanTree::new(code_length_code_lengths.as_slice());
    let literal_table = build_dynamic_huffman(reader, hlit, 288, &code_length_tree);
    let dist_table = build_dynamic_huffman(reader, hdist, 32, &code_length_tree);
    (literal_table, dist_table)
}

} // verus!
