//! Bit-level writers for encoding packed binary data.
use super::bits::{
    byte_bit, byte_bits, bits_of, bytes_for_bits, cap_bits, fits_bits, le_bytes, lemma_bits_of_push, lemma_le_bytes_len,
    lemma_bits_of_update, lemma_set_clear_bit, lemma_zero_byte_bits, lemma_varu32_len, pad_len, varu32_bytes, zigzag, padded, u64_bits, zeros,
};
use super::error::{BitError, BitResult};
use vstd::arithmetic::power2::pow2;
use vstd::prelude::*;

verus! {

/// Returns `b` with bit `j` (counted from the most significant bit) set to `value`.
pub(crate) fn set_bit_in_byte(b: u8, j: usize, value: bool) -> (nb: u8)
    requires
        j < 8,
    ensures
        forall|t: int|
            0 <= t < 8 ==> #[trigger] byte_bit(nb, t) == if t == j {
                value
            } else {
                byte_bit(b, t)
            },
{
    let sh: u8 = (7 - j) as u8;
    let mask: u8 = 1u8 << sh;
    let nb = if value {
        b | mask
    } else {
        b & !mask
    };
    proof {
        assert forall|t: int| 0 <= t < 8 implies #[trigger] byte_bit(nb, t) == if t == j {
            value
        } else {
            byte_bit(b, t)
        } by {
            lemma_set_clear_bit(b, sh, (7 - t) as u8);
        }
    }
    nb
}

/// Number of bytes in the varint encoding of `value`.
pub fn varu32_len(value: u32) -> (n: usize)
    ensures
        n == varu32_bytes(value).len(),
        1 <= n <= 5,
{
    proof {
        lemma_varu32_len(value);
        lemma_varu32_len(value / 128);
        lemma_varu32_len(value / 128 / 128);
        lemma_varu32_len(value / 128 / 128 / 128);
        lemma_varu32_len(value / 128 / 128 / 128 / 128);
    }
    let v1 = value / 128;
    let v2 = v1 / 128;
    let v3 = v2 / 128;
    let v4 = v3 / 128;
    assert(value >= 128 ==> varu32_bytes(value).len() == 1 + varu32_bytes(v1).len());
    assert(v1 >= 128 ==> varu32_bytes(v1).len() == 1 + varu32_bytes(v2).len());
    assert(v2 >= 128 ==> varu32_bytes(v2).len() == 1 + varu32_bytes(v3).len());
    assert(v3 >= 128 ==> varu32_bytes(v3).len() == 1 + varu32_bytes(v4).len());
    assert(v4 < 128);
    if value < 128 {
        1
    } else if value < 16384 {
        2
    } else if value < 2097152 {
        3
    } else if value < 268435456 {
        4
    } else {
        5
    }
}

/// Zigzag mapping of a signed value onto an unsigned one.
pub fn zigzag_exec(value: i32) -> (z: u32)
    ensures
        z == zigzag(value),
{
    if value >= 0 {
        (value as u32) * 2
    } else {
        ((-(value + 1)) as u32) * 2 + 1
    }
}

/// Bits of `v` as a little-endian byte count `n` (used for aligned integers).
pub open spec fn le_bits(v: u64, n: nat) -> Seq<bool> {
    bits_of(le_bytes(v as nat, n))
}

/// A bounded bit-level writer for encoding packed binary data.
///
/// The writer never grows the buffer. Writes past the end return
/// [`BitError::WriteOverflow`].
#[derive(Debug)]
pub struct BitWriter<'a> {
    buf: &'a mut [u8],
    bit_pos: usize,
}

impl<'a> BitWriter<'a> {
    #[verifier::type_invariant]
    spec fn inv(self) -> bool {
        self.bit_pos <= cap_bits(self.buf@.len())
    }

    /// The bytes of the underlying buffer.
    pub closed spec fn bytes(&self) -> Seq<u8> {
        self.buf@
    }

    /// The borrowed buffer (its final value is the caller's buffer after the writer is done).
    pub closed spec fn target(&self) -> &'a mut [u8] {
        self.buf
    }

    /// The bits written so far.
    pub closed spec fn written(&self) -> Seq<bool> {
        bits_of(self.buf@).take(self.bit_pos as int)
    }

    /// Capacity of the buffer in bits.
    pub closed spec fn capacity(&self) -> nat {
        cap_bits(self.buf@.len())
    }

    /// Free bits left.
    pub open spec fn remaining(&self) -> int {
        self.capacity() - self.written().len()
    }

    /// The writer state is preserved apart from what a method says it changes.
    pub open spec fn same_buffer(&self, other: &Self) -> bool {
        &&& self.capacity() == other.capacity()
        &&& self.bytes().len() == other.bytes().len()
    }

    /// Every bit of the buffer after the write position is as in `other`'s
    /// buffer: a write touches only the bits it writes.
    #[verifier::opaque]
    pub open spec fn keeps_rest(&self, other: &Self) -> bool {
        forall|i: int|
            self.written().len() <= i < bits_of(self.bytes()).len() ==> #[trigger] bits_of(self.bytes())[i]
                == bits_of(other.bytes())[i]
    }

    /// Creates a new `BitWriter` over a fixed buffer.
    pub fn new(buf: &'a mut [u8]) -> (w: BitWriter<'a>)
        ensures
            w.written() == Seq::<bool>::empty(),
            w.bytes() == old(buf)@,
            w.capacity() == cap_bits(old(buf)@.len()),
            final(buf)@ == final(w.target())@,
    {
        let w = BitWriter { buf, bit_pos: 0 };
        assert(w.written() =~= Seq::<bool>::empty());
        w
    }

    /// Returns the number of bits written so far.
    pub fn bits_written(&self) -> (n: usize)
        ensures
            n == self.written().len(),
            n <= self.capacity(),
    {
        proof {
            use_type_invariant(self);
        }
        self.bit_pos
    }

    /// Returns the number of bits remaining in the buffer.
    pub fn bits_remaining(&self) -> (n: usize)
        ensures
            n == self.remaining(),
            self.written().len() <= self.capacity(),
    {
        proof {
            use_type_invariant(self);
        }
        let len = self.buf.len();
        let cap = if len <= usize::MAX / 8 {
            len * 8
        } else {
            usize::MAX
        };
        cap - self.bit_pos
    }

    fn ensure_bits(&self, bits: usize) -> (r: BitResult<()>)
        ensures
            r is Ok <==> bits <= self.remaining(),
            r is Err ==> r == Err::<(), BitError>(
                BitError::WriteOverflow { attempted: bits, available: self.remaining() as usize },
            ),
    {
        let available = self.bits_remaining();
        if bits > available {
            return Err(BitError::WriteOverflow { attempted: bits, available });
        }
        Ok(())
    }

    fn ensure_aligned(&self) -> (r: BitResult<()>)
        ensures
            r is Ok <==> self.written().len() % 8 == 0,
            r is Err ==> r == Err::<(), BitError>(
                BitError::MisalignedAccess { bit_position: self.written().len() as usize },
            ),
    {
        proof {
            use_type_invariant(&*self);
        }
        if self.bit_pos % 8 != 0 {
            return Err(BitError::MisalignedAccess { bit_position: self.bit_pos });
        }
        Ok(())
    }

    fn write_bit_unchecked(&mut self, value: bool)
        requires
            old(self).remaining() >= 1,
        ensures
            final(self).written() == old(self).written().push(value),
            final(self).same_buffer(old(self)),
            final(self).keeps_rest(old(self)),
            final(final(self).target())@ == final(old(self).target())@,
    {
        proof {
            reveal(BitWriter::keeps_rest);
        }
        proof {
            use_type_invariant(&*self);
        }
        let ghost old_bytes = self.buf@;
        let ghost pos = self.bit_pos as int;
        let byte_idx = self.bit_pos / 8;
        let bit_idx = self.bit_pos % 8;
        let b = self.buf[byte_idx];
        let nb = set_bit_in_byte(b, bit_idx, value);
        self.buf[byte_idx] = nb;
        self.bit_pos = self.bit_pos + 1;
        proof {
            lemma_bits_of_update(old_bytes, byte_idx as int, nb);
            assert(self.written() =~= bits_of(old_bytes).take(pos).push(value));
            assert forall|i: int| pos + 1 <= i < bits_of(self.buf@).len() implies #[trigger] bits_of(self.buf@)[i]
                == bits_of(old_bytes)[i] by {
                if i / 8 == byte_idx {
                    assert(i % 8 != bit_idx);
                    assert(bits_of(old_bytes)[i] == byte_bit(old_bytes[i / 8], i % 8));
                }
            }
        }
    }

    /// Writes a single bit.
    pub fn write_bit(&mut self, value: bool) -> (r: BitResult<()>)
        ensures
            final(self).same_buffer(old(self)),
            final(self).keeps_rest(old(self)),
            r is Err ==> final(self).bytes() == old(self).bytes(),
            final(final(self).target())@ == final(old(self).target())@,
            r is Ok <==> old(self).remaining() >= 1,
            r is Ok ==> final(self).written() == old(self).written().push(value),
            r is Err ==> final(self).written() == old(self).written() && r == Err::<(), BitError>(
                BitError::WriteOverflow { attempted: 1, available: old(self).remaining() as usize },
            ),
    {
        proof {
            reveal(BitWriter::keeps_rest);
        }
        self.ensure_bits(1)?;
        self.write_bit_unchecked(value);
        Ok(())
    }

    /// Writes up to 64 bits from an unsigned integer, most significant bit first.
    ///
    /// # Errors
    ///
    /// Returns [`BitError::InvalidBitCount`] if `bits > 64`.
    /// Returns [`BitError::ValueOutOfRange`] if `value` doesn't fit in `bits`.
    /// Returns [`BitError::WriteOverflow`] if the buffer cannot hold `bits` more bits.
    pub fn write_bits(&mut self, value: u64, bits: u8) -> (r: BitResult<()>)
        ensures
            final(self).same_buffer(old(self)),
            final(self).keeps_rest(old(self)),
            r is Err ==> final(self).bytes() == old(self).bytes(),
            final(final(self).target())@ == final(old(self).target())@,
            r is Ok <==> bits <= 64 && (bits == 0 || (fits_bits(value, bits as nat) && bits
                <= old(self).remaining())),
            r is Ok ==> final(self).written() == old(self).written() + u64_bits(value, bits as nat),
            r is Err ==> final(self).written() == old(self).written(),
            r is Err ==> r == Err::<(), BitError>(
                if bits > 64 {
                    BitError::InvalidBitCount { bits: bits as usize, max_bits: 64 }
                } else if !fits_bits(value, bits as nat) {
                    BitError::ValueOutOfRange { value, bits: bits as usize }
                } else {
                    BitError::WriteOverflow {
                        attempted: bits as usize,
                        available: old(self).remaining() as usize,
                    }
                },
            ),
    {
        proof {
            reveal(BitWriter::keeps_rest);
        }
        if bits > 64 {
            return Err(BitError::InvalidBitCount { bits: bits as usize, max_bits: 64 });
        }
        if bits == 0 {
            assert(u64_bits(value, 0) =~= Seq::<bool>::empty());
            assert(old(self).written() + u64_bits(value, 0) =~= old(self).written());
            return Ok(());
        }
        if bits < 64 {
            proof {
                vstd::bits::lemma_u64_pow2_no_overflow(bits as nat);
                vstd::bits::lemma_u64_shl_is_mul(1, bits as u64);
            }
            if value >= (1u64 << bits) {
                return Err(BitError::ValueOutOfRange { value, bits: bits as usize });
            }
        }
        self.ensure_bits(bits as usize)?;
        let ghost start = self.written();
        let mut k: u8 = 0;
        while k < bits
            invariant
                0 < bits <= 64,
                k <= bits,
                self.written() == start + u64_bits(value, bits as nat).take(k as int),
                self.remaining() >= bits - k,
                self.same_buffer(old(self)),
                self.keeps_rest(old(self)),
                final(self.target())@ == final(old(self).target())@,
            decreases bits - k,
        {
            proof {
                reveal(BitWriter::keeps_rest);
            }
            let sh: u8 = bits - 1 - k;
            let bit = (value >> sh) & 1 == 1;
            self.write_bit_unchecked(bit);
            proof {
                assert(u64_bits(value, bits as nat).take(k + 1) =~= u64_bits(value, bits as nat).take(
                    k as int,
                ).push(bit));
            }
            k = k + 1;
        }
        assert(u64_bits(value, bits as nat).take(bits as int) =~= u64_bits(value, bits as nat));
        Ok(())
    }

    /// Pads with zero bits until the next byte boundary.
    pub fn align_to_byte(&mut self) -> (r: BitResult<()>)
        ensures
            final(self).same_buffer(old(self)),
            final(self).keeps_rest(old(self)),
            r is Err ==> final(self).bytes() == old(self).bytes(),
            final(final(self).target())@ == final(old(self).target())@,
            r is Ok <==> pad_len(old(self).written().len()) <= old(self).remaining(),
            r is Ok ==> final(self).written() == padded(old(self).written()),
            r is Err ==> final(self).written() == old(self).written() && r == Err::<(), BitError>(
                BitError::WriteOverflow {
                    attempted: pad_len(old(self).written().len()) as usize,
                    available: old(self).remaining() as usize,
                },
            ),
    {
        proof {
            reveal(BitWriter::keeps_rest);
        }
        proof {
            use_type_invariant(&*self);
        }
        let rem = self.bit_pos % 8;
        if rem == 0 {
            assert(padded(old(self).written()) =~= old(self).written());
            return Ok(());
        }
        let padding = 8 - rem;
        self.ensure_bits(padding)?;
        let ghost start = self.written();
        let mut k: usize = 0;
        while k < padding
            invariant
                padding <= 8,
                k <= padding,
                padding == pad_len(start.len()),
                self.written() == start + zeros(k as nat),
                self.remaining() >= padding - k,
                self.same_buffer(old(self)),
                self.keeps_rest(old(self)),
                final(self.target())@ == final(old(self).target())@,
            decreases padding - k,
        {
            proof {
                reveal(BitWriter::keeps_rest);
            }
            self.write_bit_unchecked(false);
            proof {
                assert(start + zeros((k + 1) as nat) =~= (start + zeros(k as nat)).push(false));
            }
            k = k + 1;
        }
        Ok(())
    }

    fn put_byte_unchecked(&mut self, value: u8)
        requires
            old(self).written().len() % 8 == 0,
            old(self).remaining() >= 8,
        ensures
            final(self).written() == old(self).written() + byte_bits(value),
            final(self).same_buffer(old(self)),
            final(self).keeps_rest(old(self)),
            final(final(self).target())@ == final(old(self).target())@,
    {
        proof {
            reveal(BitWriter::keeps_rest);
        }
        proof {
            use_type_invariant(&*self);
        }
        let ghost old_bytes = self.buf@;
        let ghost pos = self.bit_pos as int;
        let idx = self.bit_pos / 8;
        self.buf[idx] = value;
        self.bit_pos = self.bit_pos + 8;
        proof {
            lemma_bits_of_update(old_bytes, idx as int, value);
            assert forall|i: int| pos <= i < pos + 8 implies #[trigger] bits_of(self.buf@)[i]
                == byte_bits(value)[i - pos] by {
                assert(i / 8 == idx);
                assert(i % 8 == i - pos);
            }
            assert(self.written() =~= bits_of(old_bytes).take(pos) + byte_bits(value));
            assert forall|i: int| pos + 8 <= i < bits_of(self.buf@).len() implies #[trigger] bits_of(self.buf@)[i]
                == bits_of(old_bytes)[i] by {
                assert(i / 8 != idx);
            }
        }
    }

    /// Writes a byte-aligned `u8`.
    pub fn write_u8_aligned(&mut self, value: u8) -> (r: BitResult<()>)
        ensures
            final(self).same_buffer(old(self)),
            final(self).keeps_rest(old(self)),
            r is Err ==> final(self).bytes() == old(self).bytes(),
            final(final(self).target())@ == final(old(self).target())@,
            r is Ok <==> old(self).written().len() % 8 == 0 && old(self).remaining() >= 8,
            r is Ok ==> final(self).written() == old(self).written() + byte_bits(value),
            r is Err ==> final(self).written() == old(self).written() && r == Err::<(), BitError>(
                if old(self).written().len() % 8 != 0 {
                    BitError::MisalignedAccess { bit_position: old(self).written().len() as usize }
                } else {
                    BitError::WriteOverflow { attempted: 8, available: old(self).remaining() as usize }
                },
            ),
    {
        proof {
            reveal(BitWriter::keeps_rest);
        }
        self.ensure_aligned()?;
        self.ensure_bits(8)?;
        self.put_byte_unchecked(value);
        Ok(())
    }

    fn write_le_aligned(&mut self, value: u64, n: usize) -> (r: BitResult<()>)
        requires
            n <= 8,
        ensures
            final(self).same_buffer(old(self)),
            final(self).keeps_rest(old(self)),
            r is Err ==> final(self).bytes() == old(self).bytes(),
            final(final(self).target())@ == final(old(self).target())@,
            r is Ok <==> old(self).written().len() % 8 == 0 && old(self).remaining() >= 8 * n,
            r is Ok ==> final(self).written() == old(self).written() + le_bits(value, n as nat),
            r is Err ==> final(self).written() == old(self).written() && r == Err::<(), BitError>(
                if old(self).written().len() % 8 != 0 {
                    BitError::MisalignedAccess { bit_position: old(self).written().len() as usize }
                } else {
                    BitError::WriteOverflow {
                        attempted: (8 * n) as usize,
                        available: old(self).remaining() as usize,
                    }
                },
            ),
    {
        proof {
            reveal(BitWriter::keeps_rest);
        }
        self.ensure_aligned()?;
        self.ensure_bits(n * 8)?;
        let ghost start = self.written();
        let mut rest = value;
        let mut k: usize = 0;
        proof {
            lemma_le_bytes_len(value as nat, n as nat);
            assert(le_bytes(value as nat, n as nat).take(0) =~= Seq::<u8>::empty());
            assert(bits_of(Seq::<u8>::empty()) =~= Seq::<bool>::empty());
            assert(start + Seq::<bool>::empty() =~= start);
        }
        while k < n
            invariant
                k <= n <= 8,
                self.written().len() % 8 == 0,
                self.remaining() >= 8 * (n - k),
                self.written() == start + bits_of(le_bytes(value as nat, n as nat).take(k as int)),
                le_bytes(value as nat, n as nat).skip(k as int) == le_bytes(rest as nat, (n - k) as nat),
                self.same_buffer(old(self)),
                self.keeps_rest(old(self)),
                final(self.target())@ == final(old(self).target())@,
            decreases n - k,
        {
            proof {
                reveal(BitWriter::keeps_rest);
            }
            let ghost whole = le_bytes(value as nat, n as nat);
            let byte = (rest % 256) as u8;
            proof {
                lemma_le_bytes_len(value as nat, n as nat);
                lemma_le_bytes_len(rest as nat, (n - k) as nat);
                assert(whole.skip(k as int)[0] == whole[k as int]);
                let tail = le_bytes(rest as nat, (n - k) as nat);
                assert(tail[0] == byte);
                assert(whole[k as int] == byte);
                lemma_bits_of_push(whole.take(k as int), byte);
                assert(whole.take(k + 1) =~= whole.take(k as int).push(byte));
                assert(whole.skip(k + 1) =~= tail.drop_first());
            }
            self.put_byte_unchecked(byte);
            rest = rest / 256;
            k = k + 1;
        }
        proof {
            lemma_le_bytes_len(value as nat, n as nat);
        }
        assert(le_bytes(value as nat, n as nat).take(n as int) =~= le_bytes(value as nat, n as nat));
        Ok(())
    }

    /// Writes a byte-aligned `u16` (little-endian).
    pub fn write_u16_aligned(&mut self, value: u16) -> (r: BitResult<()>)
        ensures
            final(self).same_buffer(old(self)),
            final(self).keeps_rest(old(self)),
            r is Err ==> final(self).bytes() == old(self).bytes(),
            final(final(self).target())@ == final(old(self).target())@,
            r is Ok <==> old(self).written().len() % 8 == 0 && old(self).remaining() >= 16,
            r is Ok ==> final(self).written() == old(self).written() + le_bits(value as u64, 2),
            r is Err ==> final(self).written() == old(self).written() && r == Err::<(), BitError>(
                if old(self).written().len() % 8 != 0 {
                    BitError::MisalignedAccess { bit_position: old(self).written().len() as usize }
                } else {
                    BitError::WriteOverflow { attempted: 16, available: old(self).remaining() as usize }
                },
            ),
    {
        self.write_le_aligned(value as u64, 2)
    }

    /// Writes a byte-aligned `u32` (little-endian).
    pub fn write_u32_aligned(&mut self, value: u32) -> (r: BitResult<()>)
        ensures
            final(self).same_buffer(old(self)),
            final(self).keeps_rest(old(self)),
            r is Err ==> final(self).bytes() == old(self).bytes(),
            final(final(self).target())@ == final(old(self).target())@,
            r is Ok <==> old(self).written().len() % 8 == 0 && old(self).remaining() >= 32,
            r is Ok ==> final(self).written() == old(self).written() + le_bits(value as u64, 4),
            r is Err ==> final(self).written() == old(self).written() && r == Err::<(), BitError>(
                if old(self).written().len() % 8 != 0 {
                    BitError::MisalignedAccess { bit_position: old(self).written().len() as usize }
                } else {
                    BitError::WriteOverflow { attempted: 32, available: old(self).remaining() as usize }
                },
            ),
    {
        self.write_le_aligned(value as u64, 4)
    }

    /// Writes a byte-aligned `u64` (little-endian).
    pub fn write_u64_aligned(&mut self, value: u64) -> (r: BitResult<()>)
        ensures
            final(self).same_buffer(old(self)),
            final(self).keeps_rest(old(self)),
            r is Err ==> final(self).bytes() == old(self).bytes(),
            final(final(self).target())@ == final(old(self).target())@,
            r is Ok <==> old(self).written().len() % 8 == 0 && old(self).remaining() >= 64,
            r is Ok ==> final(self).written() == old(self).written() + le_bits(value, 8),
            r is Err ==> final(self).written() == old(self).written() && r == Err::<(), BitError>(
                if old(self).written().len() % 8 != 0 {
                    BitError::MisalignedAccess { bit_position: old(self).written().len() as usize }
                } else {
                    BitError::WriteOverflow { attempted: 64, available: old(self).remaining() as usize }
                },
            ),
    {
        self.write_le_aligned(value, 8)
    }

    /// Writes a byte-aligned varint `u32` (LEB128: low seven-bit groups first).
    ///
    /// When the buffer fills up part way, the bytes that fit stay written.
    pub fn write_varu32(&mut self, value: u32) -> (r: BitResult<()>)
        ensures
            final(self).same_buffer(old(self)),
            final(self).keeps_rest(old(self)),
            r is Err && old(self).written().len() % 8 != 0 ==> final(self).bytes() == old(self).bytes(),
            final(final(self).target())@ == final(old(self).target())@,
            r is Ok <==> old(self).written().len() % 8 == 0 && old(self).remaining() >= 8
                * varu32_bytes(value).len(),
            r is Ok ==> final(self).written() == old(self).written() + bits_of(varu32_bytes(value)),
            r is Err ==> r == Err::<(), BitError>(
                if old(self).written().len() % 8 != 0 {
                    BitError::MisalignedAccess { bit_position: old(self).written().len() as usize }
                } else {
                    BitError::WriteOverflow {
                        attempted: 8,
                        available: (old(self).remaining() % 8) as usize,
                    }
                },
            ),
            r is Err && old(self).written().len() % 8 != 0 ==> final(self).written() == old(
                self,
            ).written(),
            r is Err && old(self).written().len() % 8 == 0 ==> final(self).written() == old(
                self,
            ).written() + bits_of(varu32_bytes(value).take(old(self).remaining() / 8)),
    {
        proof {
            reveal(BitWriter::keeps_rest);
        }
        proof {
            use_type_invariant(&*self);
        }
        self.ensure_aligned()?;
        let n = varu32_len(value);
        let ghost enc = varu32_bytes(value);
        let ghost start = self.written();
        let ghost total = self.remaining();
        let mut cur = value;
        let mut k: usize = 0;
        proof {
            assert(enc.take(0) =~= Seq::<u8>::empty());
            assert(bits_of(Seq::<u8>::empty()) =~= Seq::<bool>::empty());
            assert(start + Seq::<bool>::empty() =~= start);
            assert(enc.skip(0) =~= enc);
        }
        while k < n
            invariant
                n == enc.len(),
                1 <= n <= 5,
                k <= n,
                enc == varu32_bytes(value),
                k < n ==> enc.skip(k as int) == varu32_bytes(cur),
                self.written().len() % 8 == 0,
                self.written() == start + bits_of(enc.take(k as int)),
                self.remaining() == total - 8 * k,
                total >= 8 * k,
                total == old(self).remaining(),
                start == old(self).written(),
                start.len() % 8 == 0,
                self.same_buffer(old(self)),
                self.keeps_rest(old(self)),
                final(self.target())@ == final(old(self).target())@,
            decreases n - k,
        {
            proof {
                reveal(BitWriter::keeps_rest);
            }
            proof {
                lemma_varu32_len(cur);
                assert(enc.skip(k as int)[0] == enc[k as int]);
            }
            let mut byte = (cur % 128) as u8;
            cur = cur / 128;
            if cur != 0 {
                byte = byte + 128;
            }
            let ghost prev = self.written();
            let res = self.write_u8_aligned(byte);
            if res.is_err() {
                proof {
                    assert(self.remaining() < 8);
                    assert(total / 8 == k);
                    assert(total % 8 == total - 8 * k);
                    assert(total < 8 * n);
                }
                return res;
            }
            proof {
                lemma_bits_of_push(enc.take(k as int), byte);
                assert(enc.take(k + 1) =~= enc.take(k as int).push(byte));
                assert(enc.skip(k + 1) =~= enc.skip(k as int).drop_first());
                if k + 1 < n {
                    assert(varu32_bytes(cur).len() > 0);
                }
            }
            k = k + 1;
        }
        assert(enc.take(n as int) =~= enc);
        Ok(())
    }

    /// Writes a byte-aligned zigzag varint `i32`.
    pub fn write_vars32(&mut self, value: i32) -> (r: BitResult<()>)
        ensures
            final(self).same_buffer(old(self)),
            final(self).keeps_rest(old(self)),
            final(final(self).target())@ == final(old(self).target())@,
            r is Ok <==> old(self).written().len() % 8 == 0 && old(self).remaining() >= 8
                * varu32_bytes(zigzag(value)).len(),
            r is Ok ==> final(self).written() == old(self).written() + bits_of(
                varu32_bytes(zigzag(value)),
            ),
            r is Err ==> r == Err::<(), BitError>(
                if old(self).written().len() % 8 != 0 {
                    BitError::MisalignedAccess { bit_position: old(self).written().len() as usize }
                } else {
                    BitError::WriteOverflow {
                        attempted: 8,
                        available: (old(self).remaining() % 8) as usize,
                    }
                },
            ),
    {
        self.write_varu32(zigzag_exec(value))
    }

    /// Finishes writing and returns the number of bytes used.
    pub fn finish(self) -> (n: usize)
        ensures
            n == bytes_for_bits(self.written().len()),
            n <= self.bytes().len(),
            bits_of(self.bytes().take(n as int)).take(self.written().len() as int)
                == self.written(),
            self.written().len() % 8 == 0 ==> bits_of(self.bytes().take(n as int))
                == self.written(),
            final(self.target())@ == self.bytes(),
    {
        proof {
            use_type_invariant(&self);
            let t = self.bytes().take(bytes_for_bits(self.written().len()) as int);
            assert(bits_of(t).take(self.written().len() as int) =~= self.written());
        }
        let n = self.bit_pos / 8 + if self.bit_pos % 8 != 0 {
            1
        } else {
            0
        };
        n
    }
}

/// A growable bit-level writer backed by a `Vec<u8>`.
#[derive(Debug)]
pub struct BitVecWriter {
    buf: Vec<u8>,
    bit_pos: usize,
}

impl Default for BitVecWriter {
    fn default() -> (w: Self)
        ensures
            w.wf(),
            w.written() == Seq::<bool>::empty(),
    {
        let w = BitVecWriter { buf: Vec::new(), bit_pos: 0 };
        assert(w.written() =~= Seq::<bool>::empty());
        w
    }
}

impl BitVecWriter {
    /// The writer's internal invariant: the buffer holds the written bits
    /// followed only by zero bits.
    pub closed spec fn wf(&self) -> bool {
        &&& self.buf@.len() >= bytes_for_bits(self.bit_pos as nat)
        &&& self.buf@.len() * 8 <= usize::MAX
        &&& forall|i: int|
            self.bit_pos <= i < self.buf@.len() * 8 ==> !#[trigger] bits_of(self.buf@)[i]
    }

    /// The bits written so far.
    pub closed spec fn written(&self) -> Seq<bool> {
        bits_of(self.buf@).take(self.bit_pos as int)
    }

    /// Room for one more write of up to 64 bits without overflowing the bit counter.
    pub open spec fn has_room(&self) -> bool {
        self.written().len() + 128 <= usize::MAX
    }

    /// Creates a new empty `BitVecWriter`.
    pub fn new() -> (w: Self)
        ensures
            w.wf(),
            w.written() == Seq::<bool>::empty(),
    {
        Self::default()
    }

    /// Creates a new `BitVecWriter` with pre-allocated capacity.
    pub fn with_capacity(bytes: usize) -> (w: Self)
        ensures
            w.wf(),
            w.written() == Seq::<bool>::empty(),
    {
        let w = BitVecWriter { buf: Vec::with_capacity(bytes), bit_pos: 0 };
        assert(w.written() =~= Seq::<bool>::empty());
        w
    }

    /// Returns the number of bits written so far.
    pub fn bits_written(&self) -> (n: usize)
        requires
            self.wf(),
        ensures
            n == self.written().len(),
    {
        self.bit_pos
    }

    fn ensure_capacity_bits(&mut self, bits: usize)
        requires
            old(self).wf(),
            bits <= 64,
            old(self).bit_pos + bits + 7 <= usize::MAX,
        ensures
            final(self).wf(),
            final(self).bit_pos == old(self).bit_pos,
            final(self).written() == old(self).written(),
            final(self).buf@.len() * 8 >= final(self).bit_pos + bits,
    {
        let required_bits = self.bit_pos + bits;
        let required_bytes = required_bits / 8 + if required_bits % 8 != 0 {
            1
        } else {
            0
        };
        let ghost old_buf = self.buf@;
        assert(required_bytes * 8 <= required_bits + 7);
        while self.buf.len() < required_bytes
            invariant
                self.wf(),
                self.bit_pos == old(self).bit_pos,
                self.buf@.take(old_buf.len() as int) == old_buf,
                self.buf@.len() >= old_buf.len(),
                required_bytes * 8 >= required_bits,
                required_bytes * 8 <= usize::MAX,
            decreases required_bytes - self.buf.len(),
        {
            let ghost before = self.buf@;
            self.buf.push(0u8);
            proof {
                lemma_bits_of_push(before, 0u8);
                lemma_zero_byte_bits();
                assert(self.buf@.take(old_buf.len() as int) =~= old_buf);
            }
        }
        proof {
            assert forall|i: int| 0 <= i < self.bit_pos implies #[trigger] bits_of(self.buf@)[i]
                == bits_of(old_buf)[i] by {
                assert(self.buf@[i / 8] == old_buf[i / 8]);
            }
            assert(self.written() =~= old(self).written());
        }
    }

    fn write_bit_unchecked(&mut self, value: bool)
        requires
            old(self).wf(),
            old(self).bit_pos < old(self).buf@.len() * 8,
        ensures
            final(self).wf(),
            final(self).bit_pos == old(self).bit_pos + 1,
            final(self).buf@.len() == old(self).buf@.len(),
            final(self).written() == old(self).written().push(value),
    {
        let ghost old_bytes = self.buf@;
        let ghost pos = self.bit_pos as int;
        let byte_idx = self.bit_pos / 8;
        let bit_idx = self.bit_pos % 8;
        let b = self.buf[byte_idx];
        let nb = set_bit_in_byte(b, bit_idx, value);
        self.buf.set(byte_idx, nb);
        self.bit_pos = self.bit_pos + 1;
        proof {
            lemma_bits_of_update(old_bytes, byte_idx as int, nb);
            assert(self.written() =~= bits_of(old_bytes).take(pos).push(value));
            assert forall|i: int| self.bit_pos <= i < self.buf@.len() * 8 implies !#[trigger] bits_of(
                self.buf@,
            )[i] by {
                if i / 8 == byte_idx {
                    assert(i % 8 != bit_idx);
                    assert(bits_of(old_bytes)[i] == byte_bit(b, i % 8));
                }
            }
        }
    }

    /// Writes a single bit.
    pub fn write_bit(&mut self, value: bool)
        requires
            old(self).wf(),
            old(self).has_room(),
        ensures
            final(self).wf(),
            final(self).written() == old(self).written().push(value),
    {
        self.ensure_capacity_bits(1);
        self.write_bit_unchecked(value);
    }

    /// Writes up to 64 bits from an unsigned integer, most significant bit first.
    pub fn write_bits(&mut self, value: u64, bits: u8) -> (r: BitResult<()>)
        requires
            old(self).wf(),
            old(self).has_room(),
        ensures
            final(self).wf(),
            r is Ok <==> bits <= 64 && (bits == 0 || fits_bits(value, bits as nat)),
            r is Ok ==> final(self).written() == old(self).written() + u64_bits(value, bits as nat),
            r is Err ==> final(self).written() == old(self).written(),
            r is Err ==> r == Err::<(), BitError>(
                if bits > 64 {
                    BitError::InvalidBitCount { bits: bits as usize, max_bits: 64 }
                } else {
                    BitError::ValueOutOfRange { value, bits: bits as usize }
                },
            ),
    {
        if bits > 64 {
            return Err(BitError::InvalidBitCount { bits: bits as usize, max_bits: 64 });
        }
        if bits == 0 {
            assert(old(self).written() + u64_bits(value, 0) =~= old(self).written());
            return Ok(());
        }
        if bits < 64 {
            proof {
                vstd::bits::lemma_u64_pow2_no_overflow(bits as nat);
                vstd::bits::lemma_u64_shl_is_mul(1, bits as u64);
            }
            if value >= (1u64 << bits) {
                return Err(BitError::ValueOutOfRange { value, bits: bits as usize });
            }
        }
        self.ensure_capacity_bits(bits as usize);
        let ghost start = self.written();
        let ghost p0 = self.bit_pos;
        let mut k: u8 = 0;
        while k < bits
            invariant
                0 < bits <= 64,
                k <= bits,
                self.wf(),
                self.bit_pos == p0 + k,
                self.buf@.len() * 8 >= p0 + bits,
                self.written() == start + u64_bits(value, bits as nat).take(k as int),
            decreases bits - k,
        {
            let sh: u8 = bits - 1 - k;
            let bit = (value >> sh) & 1 == 1;
            self.write_bit_unchecked(bit);
            proof {
                assert(u64_bits(value, bits as nat).take(k + 1) =~= u64_bits(value, bits as nat).take(
                    k as int,
                ).push(bit));
            }
            k = k + 1;
        }
        assert(u64_bits(value, bits as nat).take(bits as int) =~= u64_bits(value, bits as nat));
        Ok(())
    }

    /// Pads with zero bits until the next byte boundary.
    pub fn align_to_byte(&mut self)
        requires
            old(self).wf(),
            old(self).has_room(),
        ensures
            final(self).wf(),
            final(self).written() == padded(old(self).written()),
    {
        let rem = self.bit_pos % 8;
        if rem == 0 {
            assert(padded(old(self).written()) =~= old(self).written());
            return ;
        }
        let padding = 8 - rem;
        self.ensure_capacity_bits(padding);
        let ghost start = self.written();
        let ghost p0 = self.bit_pos;
        let mut k: usize = 0;
        while k < padding
            invariant
                padding <= 8,
                k <= padding,
                padding == pad_len(start.len()),
                start.len() == p0,
                self.wf(),
                self.bit_pos == p0 + k,
                self.buf@.len() * 8 >= p0 + padding,
                self.written() == start + zeros(k as nat),
            decreases padding - k,
        {
            self.write_bit_unchecked(false);
            proof {
                assert(start + zeros((k + 1) as nat) =~= (start + zeros(k as nat)).push(false));
            }
            k = k + 1;
        }
    }

    fn ensure_aligned(&self) -> (r: BitResult<()>)
        requires
            self.wf(),
        ensures
            r is Ok <==> self.written().len() % 8 == 0,
            r is Err ==> r == Err::<(), BitError>(
                BitError::MisalignedAccess { bit_position: self.written().len() as usize },
            ),
    {
        if self.bit_pos % 8 != 0 {
            return Err(BitError::MisalignedAccess { bit_position: self.bit_pos });
        }
        Ok(())
    }

    fn put_byte(&mut self, value: u8)
        requires
            old(self).wf(),
            old(self).written().len() + 16 <= usize::MAX,
            old(self).written().len() % 8 == 0,
        ensures
            final(self).wf(),
            final(self).written() == old(self).written() + byte_bits(value),
    {
        self.ensure_capacity_bits(8);
        let ghost old_bytes = self.buf@;
        let ghost pos = self.bit_pos as int;
        let idx = self.bit_pos / 8;
        self.buf.set(idx, value);
        self.bit_pos = self.bit_pos + 8;
        proof {
            lemma_bits_of_update(old_bytes, idx as int, value);
            assert forall|i: int| pos <= i < pos + 8 implies #[trigger] bits_of(self.buf@)[i]
                == byte_bits(value)[i - pos] by {
                assert(i / 8 == idx);
                assert(i % 8 == i - pos);
            }
            assert forall|i: int| self.bit_pos <= i < self.buf@.len() * 8 implies !#[trigger] bits_of(
                self.buf@,
            )[i] by {
                assert(i / 8 != idx);
            }
            assert(self.written() =~= bits_of(old_bytes).take(pos) + byte_bits(value));
        }
    }

    /// Writes a byte-aligned `u8`.
    pub fn write_u8_aligned(&mut self, value: u8) -> (r: BitResult<()>)
        requires
            old(self).wf(),
            old(self).has_room(),
        ensures
            final(self).wf(),
            r is Ok <==> old(self).written().len() % 8 == 0,
            r is Ok ==> final(self).written() == old(self).written() + byte_bits(value),
            r is Err ==> final(self).written() == old(self).written() && r == Err::<(), BitError>(
                BitError::MisalignedAccess { bit_position: old(self).written().len() as usize },
            ),
    {
        self.ensure_aligned()?;
        self.put_byte(value);
        Ok(())
    }

    fn write_le_aligned(&mut self, value: u64, n: usize) -> (r: BitResult<()>)
        requires
            old(self).wf(),
            old(self).has_room(),
            n <= 8,
        ensures
            final(self).wf(),
            r is Ok <==> old(self).written().len() % 8 == 0,
            r is Ok ==> final(self).written() == old(self).written() + le_bits(value, n as nat),
            r is Err ==> final(self).written() == old(self).written() && r == Err::<(), BitError>(
                BitError::MisalignedAccess { bit_position: old(self).written().len() as usize },
            ),
    {
        self.ensure_aligned()?;
        let ghost start = self.written();
        let mut rest = value;
        let mut k: usize = 0;
        proof {
            lemma_le_bytes_len(value as nat, n as nat);
            assert(le_bytes(value as nat, n as nat).take(0) =~= Seq::<u8>::empty());
            assert(bits_of(Seq::<u8>::empty()) =~= Seq::<bool>::empty());
            assert(start + Seq::<bool>::empty() =~= start);
        }
        while k < n
            invariant
                k <= n <= 8,
                self.wf(),
                self.written().len() == start.len() + 8 * k,
                start.len() + 128 <= usize::MAX,
                self.written().len() % 8 == 0,
                self.written() == start + bits_of(le_bytes(value as nat, n as nat).take(k as int)),
                le_bytes(value as nat, n as nat).skip(k as int) == le_bytes(rest as nat, (n - k) as nat),
            decreases n - k,
        {
            let ghost whole = le_bytes(value as nat, n as nat);
            let byte = (rest % 256) as u8;
            proof {
                lemma_le_bytes_len(value as nat, n as nat);
                lemma_le_bytes_len(rest as nat, (n - k) as nat);
                assert(whole.skip(k as int)[0] == whole[k as int]);
                let tail = le_bytes(rest as nat, (n - k) as nat);
                assert(tail[0] == byte);
                lemma_bits_of_push(whole.take(k as int), byte);
                assert(whole.take(k + 1) =~= whole.take(k as int).push(byte));
                assert(whole.skip(k + 1) =~= tail.drop_first());
            }
            self.put_byte(byte);
            rest = rest / 256;
            k = k + 1;
        }
        proof {
            lemma_le_bytes_len(value as nat, n as nat);
        }
        assert(le_bytes(value as nat, n as nat).take(n as int) =~= le_bytes(value as nat, n as nat));
        Ok(())
    }

    /// Writes a byte-aligned `u16` (little-endian).
    pub fn write_u16_aligned(&mut self, value: u16) -> (r: BitResult<()>)
        requires
            old(self).wf(),
            old(self).has_room(),
        ensures
            final(self).wf(),
            r is Ok <==> old(self).written().len() % 8 == 0,
            r is Ok ==> final(self).written() == old(self).written() + le_bits(value as u64, 2),
            r is Err ==> final(self).written() == old(self).written() && r == Err::<(), BitError>(
                BitError::MisalignedAccess { bit_position: old(self).written().len() as usize },
            ),
    {
        self.write_le_aligned(value as u64, 2)
    }

    /// Writes a byte-aligned `u32` (little-endian).
    pub fn write_u32_aligned(&mut self, value: u32) -> (r: BitResult<()>)
        requires
            old(self).wf(),
            old(self).has_room(),
        ensures
            final(self).wf(),
            r is Ok <==> old(self).written().len() % 8 == 0,
            r is Ok ==> final(self).written() == old(self).written() + le_bits(value as u64, 4),
            r is Err ==> final(self).written() == old(self).written() && r == Err::<(), BitError>(
                BitError::MisalignedAccess { bit_position: old(self).written().len() as usize },
            ),
    {
        self.write_le_aligned(value as u64, 4)
    }

    /// Writes a byte-aligned `u64` (little-endian).
    pub fn write_u64_aligned(&mut self, value: u64) -> (r: BitResult<()>)
        requires
            old(self).wf(),
            old(self).has_room(),
        ensures
            final(self).wf(),
            r is Ok <==> old(self).written().len() % 8 == 0,
            r is Ok ==> final(self).written() == old(self).written() + le_bits(value, 8),
            r is Err ==> final(self).written() == old(self).written() && r == Err::<(), BitError>(
                BitError::MisalignedAccess { bit_position: old(self).written().len() as usize },
            ),
    {
        self.write_le_aligned(value, 8)
    }

    /// Writes a byte-aligned varint `u32`.
    pub fn write_varu32(&mut self, value: u32) -> (r: BitResult<()>)
        requires
            old(self).wf(),
            old(self).has_room(),
        ensures
            final(self).wf(),
            r is Ok <==> old(self).written().len() % 8 == 0,
            r is Ok ==> final(self).written() == old(self).written() + bits_of(varu32_bytes(value)),
            r is Err ==> final(self).written() == old(self).written() && r == Err::<(), BitError>(
                BitError::MisalignedAccess { bit_position: old(self).written().len() as usize },
            ),
    {
        self.ensure_aligned()?;
        let n = varu32_len(value);
        let ghost enc = varu32_bytes(value);
        let ghost start = self.written();
        let mut cur = value;
        let mut k: usize = 0;
        proof {
            assert(enc.take(0) =~= Seq::<u8>::empty());
            assert(bits_of(Seq::<u8>::empty()) =~= Seq::<bool>::empty());
            assert(start + Seq::<bool>::empty() =~= start);
            assert(enc.skip(0) =~= enc);
        }
        while k < n
            invariant
                n == enc.len(),
                1 <= n <= 5,
                k <= n,
                enc == varu32_bytes(value),
                k < n ==> enc.skip(k as int) == varu32_bytes(cur),
                self.wf(),
                self.written().len() == start.len() + 8 * k,
                start.len() + 128 <= usize::MAX,
                self.written().len() % 8 == 0,
                self.written() == start + bits_of(enc.take(k as int)),
            decreases n - k,
        {
            proof {
                lemma_varu32_len(cur);
                assert(enc.skip(k as int)[0] == enc[k as int]);
            }
            let mut byte = (cur % 128) as u8;
            cur = cur / 128;
            if cur != 0 {
                byte = byte + 128;
            }
            self.put_byte(byte);
            proof {
                lemma_bits_of_push(enc.take(k as int), byte);
                assert(enc.take(k + 1) =~= enc.take(k as int).push(byte));
                assert(enc.skip(k + 1) =~= enc.skip(k as int).drop_first());
                if k + 1 < n {
                    assert(varu32_bytes(cur).len() > 0);
                }
            }
            k = k + 1;
        }
        assert(enc.take(n as int) =~= enc);
        Ok(())
    }

    /// Writes a byte-aligned zigzag varint `i32`.
    pub fn write_vars32(&mut self, value: i32) -> (r: BitResult<()>)
        requires
            old(self).wf(),
            old(self).has_room(),
        ensures
            final(self).wf(),
            r is Ok <==> old(self).written().len() % 8 == 0,
            r is Ok ==> final(self).written() == old(self).written() + bits_of(
                varu32_bytes(zigzag(value)),
            ),
            r is Err ==> final(self).written() == old(self).written() && r == Err::<(), BitError>(
                BitError::MisalignedAccess { bit_position: old(self).written().len() as usize },
            ),
    {
        self.write_varu32(zigzag_exec(value))
    }

    /// Finishes writing and returns the byte buffer: the written bits,
    /// padded with zero bits to a whole number of bytes.
    pub fn finish(self) -> (bytes: Vec<u8>)
        requires
            self.wf(),
        ensures
            bits_of(bytes@) == padded(self.written()),
            bytes@.len() == bytes_for_bits(self.written().len()),
    {
        let mut buf = self.buf;
        let n = self.bit_pos / 8 + if self.bit_pos % 8 != 0 {
            1
        } else {
            0
        };
        let ghost full = buf@;
        buf.truncate(n);
        proof {
            let w = bits_of(full).take(self.bit_pos as int);
            assert(w.len() == self.bit_pos);
            assert forall|i: int| 0 <= i < n * 8 implies #[trigger] bits_of(buf@)[i] == padded(
                w,
            )[i] by {
                assert(buf@[i / 8] == full[i / 8]);
                if i >= self.bit_pos {
                    assert(!bits_of(full)[i]);
                }
            }
            assert(bits_of(buf@) =~= padded(w));
        }
        buf
    }
}

} // verus!
