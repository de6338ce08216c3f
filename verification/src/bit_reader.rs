use vstd::arithmetic::power2::{lemma_pow2_unfold, pow2};
use vstd::prelude::*;

verus! {

/// Bit `i` of `data`, counting from the least significant bit of the first
/// byte (the bit order of RFC 1951, section 3.1.1).
pub open spec fn bit_at(data: Seq<u8>, i: int) -> u8 {
    (data[i / 8] >> ((i % 8) as u8)) & 1u8
}

/// The number of bits in `data`.
pub open spec fn bit_len(data: Seq<u8>) -> int {
    (data.len() * 8) as int
}

/// The `n` bits of `data` from position `pos` on, read as a number whose
/// least significant bit is the first one ("packed starting with the
/// least-significant bit").
pub open spec fn lsb_value(data: Seq<u8>, pos: int, n: nat) -> nat
    decreases n,
{
    if n == 0 {
        0
    } else {
        bit_at(data, pos) as nat + 2 * lsb_value(data, pos + 1, (n - 1) as nat)
    }
}

/// The `n` bits of `data` from position `pos` on, read as a number whose
/// most significant bit is the first one (the order of Huffman codes).
pub open spec fn msb_value(data: Seq<u8>, pos: int, n: nat) -> nat
    decreases n,
{
    if n == 0 {
        0
    } else {
        2 * msb_value(data, pos, (n - 1) as nat) + bit_at(data, pos + n - 1) as nat
    }
}

/// `pos` rounded up to the next multiple of eight.
pub open spec fn round_up_to_byte(pos: int) -> int {
    if pos % 8 == 0 {
        pos
    } else {
        pos + (8 - pos % 8)
    }
}

pub proof fn lemma_bit_at_bound(data: Seq<u8>, i: int)
    ensures
        bit_at(data, i) <= 1,
{
    let b = data[i / 8];
    let k = (i % 8) as u8;
    assert((b >> k) & 1u8 <= 1u8) by (bit_vector);
}

pub proof fn lemma_lsb_value_bound(data: Seq<u8>, pos: int, n: nat)
    ensures
        lsb_value(data, pos, n) < pow2(n),
    decreases n,
{
    if n == 0 {
        vstd::arithmetic::power2::lemma2_to64();
    } else {
        lemma_bit_at_bound(data, pos);
        lemma_lsb_value_bound(data, pos + 1, (n - 1) as nat);
        lemma_pow2_unfold(n);
    }
}

pub proof fn lemma_msb_value_bound(data: Seq<u8>, pos: int, n: nat)
    ensures
        msb_value(data, pos, n) < pow2(n),
    decreases n,
{
    if n == 0 {
        vstd::arithmetic::power2::lemma2_to64();
    } else {
        lemma_bit_at_bound(data, pos + n - 1);
        lemma_msb_value_bound(data, pos, (n - 1) as nat);
        lemma_pow2_unfold(n);
    }
}

/// Reading `n` bits and then `m` more gives the same bits as reading `n + m`
/// at once: the bits read second are the high part of the value.
pub proof fn lemma_lsb_value_split(data: Seq<u8>, pos: int, n: nat, m: nat)
    ensures
        lsb_value(data, pos, n + m) == lsb_value(data, pos, n) + pow2(n) * lsb_value(data, pos + n, m),
    decreases n,
{
    if n == 0 {
        vstd::arithmetic::power2::lemma2_to64();
        assert(pos + n == pos);
    } else {
        lemma_lsb_value_split(data, pos + 1, (n - 1) as nat, m);
        lemma_pow2_unfold(n);
        let rest = lsb_value(data, pos + n, m);
        let p = pow2((n - 1) as nat);
        assert(pos + 1 + (n - 1) == pos + n);
        assert(((n + m) - 1) as nat == ((n - 1) as nat + m));
        assert(2 * (p * rest) == pow2(n) * rest) by (nonlinear_arith)
            requires
                pow2(n) == 2 * p,
        ;
    }
}

/// Within one machine word, reading `a` bits and then `b` more gives the
/// same value as reading `a + b` bits at once, with the bits read second
/// shifted left by `a` and or'ed in: `z == x | (y << a)`.
pub proof fn lemma_lsb_value_split_bits(data: Seq<u8>, pos: int, a: usize, b: usize)
    requires
        a < usize::BITS,
        a + b <= usize::BITS,
    ensures
        lsb_value(data, pos, (a + b) as nat) == ((lsb_value(data, pos, a as nat) as usize) | ((lsb_value(
            data,
            pos + a,
            b as nat,
        ) as usize) << a)),
{
    let x = lsb_value(data, pos, a as nat);
    let y = lsb_value(data, pos + a, b as nat);
    lemma_lsb_value_split(data, pos, a as nat, b as nat);
    lemma_lsb_value_bound(data, pos, a as nat);
    lemma_lsb_value_bound(data, pos + a, b as nat);
    vstd::arithmetic::power2::lemma_pow2_adds(a as nat, b as nat);
    vstd::arithmetic::power2::lemma_pow2_pos(a as nat);
    vstd::layout::unsigned_int_max_values();
    if a + b < usize::BITS {
        vstd::arithmetic::power2::lemma_pow2_strictly_increases((a + b) as nat, usize::BITS as nat);
    }
    assert(usize::MAX == pow2(usize::BITS as nat) - 1) by {
        vstd::arithmetic::power2::lemma2_to64();
        vstd::arithmetic::power2::lemma2_to64_rest();
    }
    assert(y * pow2(a as nat) < pow2(a as nat) * pow2(b as nat)) by (nonlinear_arith)
        requires
            y < pow2(b as nat),
            pow2(a as nat) > 0,
    ;
    assert(pow2((a + b) as nat) <= pow2(usize::BITS as nat));
    assert(y <= y * pow2(a as nat)) by (nonlinear_arith)
        requires
            pow2(a as nat) > 0,
    ;
    assert(x < pow2(usize::BITS as nat)) by {
        if a < usize::BITS {
            vstd::arithmetic::power2::lemma_pow2_strictly_increases(a as nat, usize::BITS as nat);
        }
    }
    let xu = x as usize;
    let yu = y as usize;
    vstd::bits::lemma_usize_pow2_no_overflow(a as nat);
    vstd::bits::lemma_usize_shl_is_mul(yu, a);
    vstd::bits::lemma_usize_shl_is_mul(1usize, a);
    assert(xu < (1usize << a) ==> xu | (yu << a) == xu + (yu << a)) by (bit_vector)
        requires
            a < usize::BITS,
    ;
    assert(xu as int == x && yu as int == y);
    assert((1usize << a) == pow2(a as nat));
    assert(pow2(a as nat) * y == y * pow2(a as nat)) by (nonlinear_arith);
    assert((yu << a) == y * pow2(a as nat));
    assert(xu | (yu << a) == xu + (yu << a));
}

/// Eight bits read at a byte boundary are that byte.
pub proof fn lemma_lsb_value_byte(data: Seq<u8>, k: int)
    requires
        0 <= k < data.len(),
    ensures
        lsb_value(data, 8 * k, 8) == data[k],
{
    reveal_with_fuel(lsb_value, 9);
    let b = data[k];
    assert(bit_at(data, 8 * k) == (b >> 0u8) & 1u8);
    assert(bit_at(data, 8 * k + 1) == (b >> 1u8) & 1u8);
    assert(bit_at(data, 8 * k + 2) == (b >> 2u8) & 1u8);
    assert(bit_at(data, 8 * k + 3) == (b >> 3u8) & 1u8);
    assert(bit_at(data, 8 * k + 4) == (b >> 4u8) & 1u8);
    assert(bit_at(data, 8 * k + 5) == (b >> 5u8) & 1u8);
    assert(bit_at(data, 8 * k + 6) == (b >> 6u8) & 1u8);
    assert(bit_at(data, 8 * k + 7) == (b >> 7u8) & 1u8);
    assert(b as u32 == ((b >> 0u8) & 1u8) as u32 + 2u32 * (((b >> 1u8) & 1u8) as u32 + 2u32 * (((b >> 2u8)
        & 1u8) as u32 + 2u32 * (((b >> 3u8) & 1u8) as u32 + 2u32 * (((b >> 4u8) & 1u8) as u32 + 2u32 * (((b
        >> 5u8) & 1u8) as u32 + 2u32 * (((b >> 6u8) & 1u8) as u32 + 2u32 * ((b >> 7u8) & 1u8) as u32)))))))
        by (bit_vector);
}

/// Reads a byte slice bit by bit, in the order of RFC 1951.
pub struct BitReader<'a> {
    data: &'a [u8],
    bit_position: usize,
}

impl<'b> BitReader<'b> {
    /// The bytes that are read.
    pub closed spec fn bits(&self) -> Seq<u8> {
        self.data@
    }

    /// The number of bits read so far.
    pub closed spec fn position(&self) -> int {
        self.bit_position as int
    }

    /// The reader stands within its data, and every bit position of the data
    /// can be counted in a `usize`.
    pub open spec fn wf(&self) -> bool {
        &&& 0 <= self.position() <= bit_len(self.bits())
        &&& bit_len(self.bits()) <= usize::MAX
    }

    /// A reader at the first bit of `data`.
    pub fn new<'a>(data: &'a [u8]) -> (reader: BitReader<'a>)
        requires
            data@.len() * 8 <= usize::MAX,
        ensures
            reader.wf(),
            reader.bits() == data@,
            reader.position() == 0,
    {
        BitReader { data, bit_position: 0 }
    }

    /// The number of bits read so far.
    pub fn pos(&self) -> (p: usize)
        ensures
            p == self.position(),
    {
        self.bit_position
    }

    /// The number of bytes of the data.
    pub fn byte_len(&self) -> (n: usize)
        ensures
            n == self.bits().len(),
    {
        self.data.len()
    }

    /// Whether `n` more bits can be read.
    pub fn has_bits(&self, n: usize) -> (b: bool)
        requires
            self.wf(),
        ensures
            b == (self.position() + n <= bit_len(self.bits())),
    {
        (self.bit_position as u128) + (n as u128) <= (self.data.len() as u128) * 8
    }

    /// The number of bytes that have been entered, the last of them maybe in part.
    pub fn bytes_read(&self) -> (n: usize)
        requires
            self.wf(),
        ensures
            n * 8 == round_up_to_byte(self.position()),
    {
        let p = self.bit_position;
        if p % 8 == 0 {
            p / 8
        } else {
            p / 8 + 1
        }
    }

    /// Reads `n` bits, the first of them being the least significant bit of the result.
    pub fn read_n_bits(&mut self, n: usize) -> (result: usize)
        requires
            old(self).wf(),
            old(self).position() + n <= bit_len(old(self).bits()),
            n <= usize::BITS,
        ensures
            final(self).wf(),
            final(self).bits() == old(self).bits(),
            final(self).position() == old(self).position() + n,
            result == lsb_value(old(self).bits(), old(self).position(), n as nat),
    {
        let start = self.bit_position;
        let ghost data = self.data@;
        let mut result: usize = 0;
        let mut j: usize = 0;
        while j < n
            invariant
                j <= n,
                n <= usize::BITS,
                self.data@ == data,
                self.bit_position == start,
                start + n <= data.len() * 8,
                data.len() * 8 <= usize::MAX,
                result == lsb_value(data, start + n - j, j as nat),
            decreases n - j,
        {
            let p = start + (n - 1 - j);
            let byte = self.data[p / 8];
            let bit = (byte >> ((p % 8) as u8)) & 1u8;
            proof {
                assert(bit == bit_at(data, p as int));
                lemma_bit_at_bound(data, p as int);
                lemma_lsb_value_bound(data, start + n - j, j as nat);
                lemma_pow2_unfold((j + 1) as nat);
                if j + 1 < usize::BITS {
                    vstd::arithmetic::power2::lemma_pow2_strictly_increases((j + 1) as nat, usize::BITS as nat);
                }
                vstd::layout::unsigned_int_max_values();
                assert(lsb_value(data, p as int, (j + 1) as nat) == bit as nat + 2 * lsb_value(data, p + 1, j as nat));
            }
            result = result * 2 + bit as usize;
            j += 1;
        }
        self.bit_position = start + n;
        result
    }

    /// Reads one bit.
    pub fn read_bool(&mut self) -> (b: bool)
        requires
            old(self).wf(),
            old(self).position() + 1 <= bit_len(old(self).bits()),
        ensures
            final(self).wf(),
            final(self).bits() == old(self).bits(),
            final(self).position() == old(self).position() + 1,
            b == (bit_at(old(self).bits(), old(self).position()) == 1),
    {
        let v = self.read_n_bits(1);
        proof {
            reveal_with_fuel(lsb_value, 2);
        }
        v == 1
    }

    /// Skips the bits up to the next byte boundary.
    pub fn read_until_byte_boundry(&mut self)
        requires
            old(self).wf(),
        ensures
            final(self).wf(),
            final(self).bits() == old(self).bits(),
            final(self).position() == round_up_to_byte(old(self).position()),
    {
        let bit_index = self.bit_position % 8;
        if bit_index != 0 {
            self.read_n_bits(8 - bit_index);
        }
    }

    /// Reads `n` whole bytes; the reader must stand at a byte boundary.
    pub fn read_bytes<'a>(&'a mut self, n: usize) -> (slice: &'b [u8])
        requires
            old(self).wf(),
            old(self).position() % 8 == 0,
            old(self).position() / 8 + n <= old(self).bits().len(),
        ensures
            final(self).wf(),
            final(self).bits() == old(self).bits(),
            final(self).position() == old(self).position() + 8 * n,
            slice@ == old(self).bits().subrange(old(self).position() / 8, old(self).position() / 8 + n),
    {
        let byte_index = self.bit_position / 8;
        let slice = &self.data[byte_index..byte_index + n];
        self.bit_position = self.bit_position + n * 8;
        slice
    }

    /// Reads sixteen bits as a little-endian number: the first byte is the low one.
    pub fn read_u16(&mut self) -> (v: usize)
        requires
            old(self).wf(),
            old(self).position() + 16 <= bit_len(old(self).bits()),
        ensures
            final(self).wf(),
            final(self).bits() == old(self).bits(),
            final(self).position() == old(self).position() + 16,
            v == lsb_value(old(self).bits(), old(self).position(), 8) + 256 * lsb_value(
                old(self).bits(),
                old(self).position() + 8,
                8,
            ),
            v == lsb_value(old(self).bits(), old(self).position(), 16),
    {
        let ghost p = self.position();
        let byte1 = self.read_n_bits(8);
        let byte2 = self.read_n_bits(8);
        proof {
            vstd::arithmetic::power2::lemma2_to64();
            lemma_lsb_value_bound(self.bits(), p, 8);
            lemma_lsb_value_bound(self.bits(), p + 8, 8);
            lemma_lsb_value_split(self.bits(), p, 8, 8);
        }
        byte2 * 256 + byte1
    }
}

} // verus!
