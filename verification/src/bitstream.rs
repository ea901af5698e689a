//! Bit-level input and output over byte buffers, most significant bit first.

use vstd::prelude::*;

verus! {

/// Bit `j` of a byte, counted from the most significant bit.
pub open spec fn bit_of_byte(b: u8, j: int) -> bool {
    b & (0x80u8 >> (j as u8)) != 0
}

/// The bits of a byte sequence, most significant bit of each byte first.
pub open spec fn bits_of(bytes: Seq<u8>) -> Seq<bool> {
    Seq::new(8 * bytes.len(), |i: int| bit_of_byte(bytes[i / 8], i % 8))
}

/// Bit `i` of the endless stream that starts with the bits of `bytes` and
/// goes on with one bits.
pub open spec fn stream_bit(bytes: Seq<u8>, i: int) -> bool {
    if 0 <= i < 8 * bytes.len() {
        bit_of_byte(bytes[i / 8], i % 8)
    } else {
        true
    }
}

/// Number of bits already placed in a partial byte whose next free bit is `mask`.
pub open spec fn mask_index(mask: u8) -> int {
    if mask == 0x80 {
        0
    } else if mask == 0x40 {
        1
    } else if mask == 0x20 {
        2
    } else if mask == 0x10 {
        3
    } else if mask == 0x08 {
        4
    } else if mask == 0x04 {
        5
    } else if mask == 0x02 {
        6
    } else {
        7
    }
}

proof fn lemma_mask_shift(j: u8)
    by (bit_vector)
    requires
        j < 8,
    ensures
        mask_index(0x80u8 >> j) == j,
        0x80u8 >> j != 0,
        ({
            let m = 0x80u8 >> j;
            m == 0x80 || m == 0x40 || m == 0x20 || m == 0x10 || m == 0x08 || m == 0x04 || m
                == 0x02 || m == 0x01
        }),
        j < 7 ==> (0x80u8 >> j) >> 1u8 == 0x80u8 >> ((j + 1) as u8),
        j == 7 ==> (0x80u8 >> j) >> 1u8 == 0,
{
}

proof fn lemma_mask_of_index(mask: u8)
    by (bit_vector)
    requires
        mask == 0x80 || mask == 0x40 || mask == 0x20 || mask == 0x10 || mask == 0x08 || mask
            == 0x04 || mask == 0x02 || mask == 0x01,
    ensures
        mask == 0x80u8 >> (mask_index(mask) as u8),
{
}

proof fn lemma_set_bit(acc: u8, j: u8, i: u8)
    by (bit_vector)
    requires
        j < 8,
        i < 8,
        acc & (0xffu8 >> j) == 0,
    ensures
        ((acc | (0x80u8 >> j)) & (0x80u8 >> i) != 0) == (i == j || acc & (0x80u8 >> i) != 0),
        acc & (0x80u8 >> j) == 0,
        j < 7 ==> (acc | (0x80u8 >> j)) & (0xffu8 >> ((j + 1) as u8)) == 0,
        j < 7 ==> acc & (0xffu8 >> ((j + 1) as u8)) == 0,
{
}

proof fn lemma_byte_bits(a: u8, b: u8)
    by (bit_vector)
    requires
        (a & 0x80 != 0) == (b & 0x80 != 0),
        (a & 0x40 != 0) == (b & 0x40 != 0),
        (a & 0x20 != 0) == (b & 0x20 != 0),
        (a & 0x10 != 0) == (b & 0x10 != 0),
        (a & 0x08 != 0) == (b & 0x08 != 0),
        (a & 0x04 != 0) == (b & 0x04 != 0),
        (a & 0x02 != 0) == (b & 0x02 != 0),
        (a & 0x01 != 0) == (b & 0x01 != 0),
    ensures
        a == b,
{
}

/// Two bytes with the same bits are the same byte.
pub proof fn lemma_byte_of_bits(a: u8, b: u8)
    requires
        forall|j: int| 0 <= j < 8 ==> bit_of_byte(a, j) == bit_of_byte(b, j),
    ensures
        a == b,
{
    assert(bit_of_byte(a, 0) == bit_of_byte(b, 0));
    assert(bit_of_byte(a, 1) == bit_of_byte(b, 1));
    assert(bit_of_byte(a, 2) == bit_of_byte(b, 2));
    assert(bit_of_byte(a, 3) == bit_of_byte(b, 3));
    assert(bit_of_byte(a, 4) == bit_of_byte(b, 4));
    assert(bit_of_byte(a, 5) == bit_of_byte(b, 5));
    assert(bit_of_byte(a, 6) == bit_of_byte(b, 6));
    assert(bit_of_byte(a, 7) == bit_of_byte(b, 7));
    assert(0x80u8 >> 0u8 == 0x80) by (bit_vector);
    assert(0x80u8 >> 1u8 == 0x40) by (bit_vector);
    assert(0x80u8 >> 2u8 == 0x20) by (bit_vector);
    assert(0x80u8 >> 3u8 == 0x10) by (bit_vector);
    assert(0x80u8 >> 4u8 == 0x08) by (bit_vector);
    assert(0x80u8 >> 5u8 == 0x04) by (bit_vector);
    assert(0x80u8 >> 6u8 == 0x02) by (bit_vector);
    assert(0x80u8 >> 7u8 == 0x01) by (bit_vector);
    lemma_byte_bits(a, b);
}

/// Collects bits into bytes.
pub struct BitWriter {
    bytes: Vec<u8>,
    acc: u8,
    mask: u8,
}

impl BitWriter {
    /// Number of bits waiting in the partial byte.
    pub closed spec fn pending(&self) -> int {
        mask_index(self.mask)
    }

    /// The bytes that are complete.
    pub closed spec fn full_bytes(&self) -> Seq<u8> {
        self.bytes@
    }

    /// The next free bit is one of the eight bits of the partial byte, and
    /// the bits from there on are still zero.
    pub closed spec fn wf(&self) -> bool {
        &&& (self.mask == 0x80 || self.mask == 0x40 || self.mask == 0x20 || self.mask == 0x10
            || self.mask == 0x08 || self.mask == 0x04 || self.mask == 0x02 || self.mask == 0x01)
        &&& self.acc & (0xffu8 >> (mask_index(self.mask) as u8)) == 0
    }

    /// Every bit written so far, in order.
    pub closed spec fn view(&self) -> Seq<bool> {
        bits_of(self.bytes@) + Seq::new(
            mask_index(self.mask) as nat,
            |j: int| bit_of_byte(self.acc, j),
        )
    }

    /// The complete bytes hold the written bits, eight to a byte; the rest
    /// of the bits wait in the partial byte.
    pub proof fn lemma_view(&self)
        requires
            self.wf(),
        ensures
            self@.len() == 8 * self.full_bytes().len() + self.pending(),
            0 <= self.pending() < 8,
            bits_of(self.full_bytes()) == self@.take(8 * self.full_bytes().len() as int),
    {
        assert(bits_of(self.full_bytes()) =~= self@.take(8 * self.full_bytes().len() as int));
    }

    /// A writer that goes on after `bytes`.
    pub fn new(bytes: Vec<u8>) -> (w: Self)
        ensures
            w.wf(),
            w@ == bits_of(bytes@),
            w.full_bytes() == bytes@,
            w.pending() == 0,
    {
        let w = BitWriter { bytes, acc: 0, mask: 0x80 };
        proof {
            assert(0u8 & (0xffu8 >> 0u8) == 0) by (bit_vector);
            assert(w@ =~= bits_of(bytes@));
        }
        w
    }

    /// Appends one bit. A byte that becomes complete joins the output.
    pub fn put_bit(&mut self, bit: bool)
        requires
            old(self).wf(),
        ensures
            final(self).wf(),
            final(self)@ == old(self)@.push(bit),
    {
        let ghost j = mask_index(self.mask) as u8;
        let ghost acc0 = self.acc;
        proof {
            lemma_mask_of_index(self.mask);
            lemma_mask_shift(j);
            if j < 7 {
                lemma_mask_shift((j + 1) as u8);
            }
            assert forall|i: u8| i < 8 implies (((acc0 | (0x80u8 >> j)) & (0x80u8 >> i) != 0) == (i
                == j || acc0 & (0x80u8 >> i) != 0)) by {
                lemma_set_bit(acc0, j, i);
            }
            lemma_set_bit(acc0, j, 0);
        }
        if bit {
            self.acc |= self.mask;
        }
        let ghost acc1 = self.acc;
        assert forall|i: int| 0 <= i < 8 implies bit_of_byte(acc1, i) == (if i == j {
            bit
        } else {
            bit_of_byte(acc0, i)
        }) by {
            let iu = i as u8;
            assert(iu < 8);
            assert(((acc0 | (0x80u8 >> j)) & (0x80u8 >> iu) != 0) == (iu == j || acc0 & (0x80u8
                >> iu) != 0));
        }
        self.mask >>= 1;
        if self.mask == 0 {
            self.bytes.push(self.acc);
            self.acc = 0;
            self.mask = 0x80;
            proof {
                assert(0u8 & (0xffu8 >> 0u8) == 0) by (bit_vector);
                let n = old(self).bytes@.len() as int;
                assert(self.bytes@ == old(self).bytes@.push(acc1));
                assert forall|i: int| 0 <= i < 8 * n + 8 implies self@[i] == old(self)@.push(
                    bit,
                )[i] by {
                    if i < 8 * n {
                        assert(i / 8 < n);
                    } else {
                        assert(i / 8 == n);
                        assert(i % 8 == i - 8 * n);
                    }
                }
                assert(self@ =~= old(self)@.push(bit));
            }
        } else {
            proof {
                assert(mask_index(self.mask) == j + 1);
                assert(self@ =~= old(self)@.push(bit));
            }
        }
    }

    /// Pads with seven zero bits, so that every bit written before is in a
    /// complete byte.
    pub fn flush_bit_buffer(&mut self)
        requires
            old(self).wf(),
        ensures
            final(self).wf(),
            final(self)@ == old(self)@ + Seq::new(7, |i: int| false),
    {
        let mut n: usize = 0;
        while n < 7
            invariant
                n <= 7,
                self.wf(),
                self@ == old(self)@ + Seq::new(n as nat, |i: int| false),
            decreases 7 - n,
        {
            self.put_bit(false);
            n += 1;
        }
    }

    /// Hands out the complete bytes; the partial byte is dropped.
    pub fn into_bytes(self) -> (out: Vec<u8>)
        requires
            self.wf(),
        ensures
            out@ == self.full_bytes(),
    {
        self.bytes
    }
}

/// Value of the byte at index `k`, with `0xFF` past the end.
pub open spec fn byte_or_ones(bytes: Seq<u8>, k: int) -> u8 {
    if 0 <= k < bytes.len() {
        bytes[k]
    } else {
        0xFF
    }
}

proof fn lemma_ones(j: u8)
    by (bit_vector)
    requires
        j < 8,
    ensures
        0xFFu8 & (0x80u8 >> j) != 0,
{
}

/// Hands out the bits of a byte slice one by one, and one bits past its end.
pub struct BitReader<'a> {
    bytes: &'a [u8],
    cursor: usize,
    acc: u8,
    mask: u8,
    pos: Ghost<int>,
}

impl<'a> BitReader<'a> {
    /// The bytes that are read.
    pub closed spec fn source(&self) -> Seq<u8> {
        self.bytes@
    }

    /// Index, in the bits of the source, of the bit that is handed out next.
    pub closed spec fn position(&self) -> int {
        self.pos@
    }

    /// The reader is at a bit of its source or at a bit past its end, and
    /// holds the byte of the bit that it handed out last.
    pub closed spec fn wf(&self) -> bool {
        let p = self.pos@;
        let len = self.bytes@.len() as int;
        &&& p >= 0
        &&& self.cursor <= len
        &&& if self.mask == 0 {
            &&& p % 8 == 0
            &&& self.cursor == if p / 8 < len { p / 8 } else { len }
        } else {
            &&& p >= 1
            &&& self.mask == 0x80u8 >> (((p - 1) % 8) as u8)
            &&& self.acc == byte_or_ones(self.bytes@, (p - 1) / 8)
            &&& self.cursor == if (p - 1) / 8 + 1 < len { (p - 1) / 8 + 1 } else { len }
        }
    }

    /// Positions are never negative.
    pub proof fn lemma_position(&self)
        requires
            self.wf(),
        ensures
            self.position() >= 0,
    {
    }

    /// A reader that starts at byte `start` of `bytes`.
    pub fn new(bytes: &'a [u8], start: usize) -> (r: Self)
        requires
            start <= bytes@.len(),
        ensures
            r.wf(),
            r.source() == bytes@,
            r.position() == 8 * start,
    {
        BitReader { bytes, cursor: start, acc: 0, mask: 0, pos: Ghost(8 * start as int) }
    }

    /// Hands out the next bit.
    pub fn get_bit(&mut self) -> (bit: bool)
        requires
            old(self).wf(),
        ensures
            final(self).wf(),
            final(self).source() == old(self).source(),
            final(self).position() == old(self).position() + 1,
            bit == stream_bit(old(self).source(), old(self).position()),
    {
        let ghost p = self.pos@;
        proof {
            if self.mask != 0 {
                lemma_mask_shift(((p - 1) % 8) as u8);
                if (p - 1) % 8 < 7 {
                    lemma_mask_shift(((p - 1) % 8 + 1) as u8);
                }
            } else {
                assert(0u8 >> 1u8 == 0) by (bit_vector);
            }
            lemma_ones((p % 8) as u8);
        }
        self.mask >>= 1;
        if self.mask == 0 {
            if self.cursor < self.bytes.len() {
                self.acc = self.bytes[self.cursor];
                self.cursor += 1;
            } else {
                self.acc = 0xFF;
            }
            self.mask = 0x80;
            proof {
                assert(0x80u8 >> 0u8 == 0x80u8) by (bit_vector);
            }
        }
        proof {
            self.pos@ = p + 1;
        }
        self.acc & self.mask != 0
    }
}

} // verus!
