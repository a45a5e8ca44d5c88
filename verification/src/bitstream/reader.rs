//! Bit-level reader with bounded operations.
use super::bits::{
    bits_of, bits_value, byte_bit, cap_bits, le_value, lemma_bits_value_bound,
    lemma_le_value_bound, lemma_varu32_parse_bound, pad_len, unzigzag, varu32_parse,
};
use super::error::{BitError, BitResult};
use vstd::arithmetic::power2::pow2;
use vstd::prelude::*;

verus! {

/// A bit-level reader for decoding packed binary data.
///
/// All read operations are bounds-checked and return errors on failure.
/// The reader never panics on malformed input.
#[derive(Debug)]
pub struct BitReader<'a> {
    data: &'a [u8],
    bit_pos: usize,
}

impl<'a> BitReader<'a> {
    #[verifier::type_invariant]
    spec fn inv(self) -> bool {
        self.bit_pos <= cap_bits(self.data@.len())
    }

    /// The bytes being read.
    pub closed spec fn data(&self) -> Seq<u8> {
        self.data@
    }

    /// The current bit position.
    pub closed spec fn pos(&self) -> nat {
        self.bit_pos as nat
    }

    /// Number of readable bits.
    pub open spec fn cap(&self) -> nat {
        cap_bits(self.data().len())
    }

    /// The bit stream being read.
    pub open spec fn bits(&self) -> Seq<bool> {
        bits_of(self.data())
    }

    /// Bits left to read.
    pub open spec fn remaining(&self) -> int {
        self.cap() - self.pos()
    }

    /// The little-endian value of the `n` bytes at the (aligned) position.
    pub open spec fn le_at(&self, n: nat) -> nat {
        le_value(self.data().subrange((self.pos() / 8) as int, (self.pos() / 8 + n) as int))
    }

    /// Creates a new `BitReader` from a byte slice.
    pub fn new(data: &'a [u8]) -> (r: Self)
        ensures
            r.data() == data@,
            r.pos() == 0,
    {
        BitReader { data, bit_pos: 0 }
    }

    /// Returns the number of bits remaining to read.
    pub fn bits_remaining(&self) -> (n: usize)
        ensures
            n == self.remaining(),
            self.pos() <= self.cap(),
            self.cap() <= self.data().len() * 8,
    {
        proof {
            use_type_invariant(self);
        }
        let len = self.data.len();
        let cap = if len <= usize::MAX / 8 {
            len * 8
        } else {
            usize::MAX
        };
        cap - self.bit_pos
    }

    /// Returns `true` if there are no more bits to read.
    pub fn is_empty(&self) -> (b: bool)
        ensures
            b == (self.remaining() == 0),
    {
        self.bits_remaining() == 0
    }

    /// Returns the current bit position.
    pub fn bit_position(&self) -> (n: usize)
        ensures
            n == self.pos(),
    {
        self.bit_pos
    }

    /// Reads a single bit as a boolean.
    ///
    /// # Errors
    ///
    /// Returns [`BitError::EndOfBuffer`] if no bits remain.
    pub fn read_bool(&mut self) -> (r: BitResult<bool>)
        ensures
            final(self).data() == old(self).data(),
            r is Ok <==> old(self).remaining() >= 1,
            r matches Ok(b) ==> b == old(self).bits()[old(self).pos() as int] && final(self).pos()
                == old(self).pos() + 1,
            r is Err ==> final(self).pos() == old(self).pos() && r == Err::<bool, BitError>(
                BitError::EndOfBuffer { requested: 1, available: 0 },
            ),
    {
        proof {
            use_type_invariant(&*self);
        }
        if self.bits_remaining() == 0 {
            return Err(BitError::EndOfBuffer { requested: 1, available: 0 });
        }
        let byte_idx = self.bit_pos / 8;
        let bit_idx = self.bit_pos % 8;
        let sh: u8 = (7 - bit_idx) as u8;
        let bit = (self.data[byte_idx] >> sh) & 1;
        self.bit_pos = self.bit_pos + 1;
        Ok(bit == 1)
    }

    /// Reads a single bit as a boolean (same as [`BitReader::read_bool`]).
    pub fn read_bit(&mut self) -> (r: BitResult<bool>)
        ensures
            final(self).data() == old(self).data(),
            r is Ok <==> old(self).remaining() >= 1,
            r matches Ok(b) ==> b == old(self).bits()[old(self).pos() as int] && final(self).pos()
                == old(self).pos() + 1,
            r is Err ==> final(self).pos() == old(self).pos() && r == Err::<bool, BitError>(
                BitError::EndOfBuffer { requested: 1, available: 0 },
            ),
    {
        self.read_bool()
    }

    /// Reads up to 64 bits as an unsigned integer, most significant bit first.
    ///
    /// # Errors
    ///
    /// Returns [`BitError::InvalidBitCount`] if `bits > 64`.
    /// Returns [`BitError::EndOfBuffer`] if insufficient bits remain.
    pub fn read_bits(&mut self, bits: u8) -> (r: BitResult<u64>)
        ensures
            final(self).data() == old(self).data(),
            old(self).pos() <= old(self).cap() <= old(self).bits().len(),
            r is Ok <==> bits <= 64 && (bits == 0 || bits <= old(self).remaining()),
            r matches Ok(v) ==> v == bits_value(
                old(self).bits().subrange(old(self).pos() as int, old(self).pos() + bits),
            ) && final(self).pos() == old(self).pos() + bits,
            r is Err ==> final(self).pos() == old(self).pos() && r == Err::<u64, BitError>(
                if bits > 64 {
                    BitError::InvalidBitCount { bits: bits as usize, max_bits: 64 }
                } else {
                    BitError::EndOfBuffer {
                        requested: bits as usize,
                        available: old(self).remaining() as usize,
                    }
                },
            ),
    {
        proof {
            use_type_invariant(&*self);
        }
        if bits > 64 {
            return Err(BitError::InvalidBitCount { bits: bits as usize, max_bits: 64 });
        }
        if bits == 0 {
            assert(old(self).bits().subrange(old(self).pos() as int, old(self).pos() as int)
                =~= Seq::<bool>::empty());
            return Ok(0);
        }
        let available = self.bits_remaining();
        if bits as usize > available {
            return Err(BitError::EndOfBuffer { requested: bits as usize, available });
        }
        let ghost start = self.bit_pos as int;
        let ghost all = self.bits();
        let mut value: u64 = 0;
        let mut k: u8 = 0;
        proof {
            vstd::arithmetic::power2::lemma2_to64();
            assert(all.subrange(start, start) =~= Seq::<bool>::empty());
        }
        while k < bits
            invariant
                k <= bits <= 64,
                self.cap() <= all.len(),
                start >= 0,
                all.len() == self.data().len() * 8,
                self.data() == old(self).data(),
                all == self.bits(),
                self.pos() == start + k,
                start + bits <= self.cap(),
                self.cap() == old(self).cap(),
                value == bits_value(all.subrange(start, start + k)),
                value < pow2(k as nat),
            decreases bits - k,
        {
            let ghost before = value;
            let b = self.read_bool();
            let bit: bool = match b {
                Ok(x) => x,
                Err(_) => false,
            };
            proof {
                assert(b is Ok);
                assert(start + k + 1 <= all.len());
                let kk: int = k as int;
                let sub = all.subrange(start, start + kk + 1);
                assert(sub.len() == kk + 1);
                assert(sub[kk] == all[start + kk]);
                assert(all[start + kk] == bit);
                assert(sub.drop_last() =~= all.subrange(start, start + kk));
                assert(sub.last() == bit);
                vstd::arithmetic::power2::lemma_pow2_unfold((k + 1) as nat);
                if k < 63 {
                    vstd::arithmetic::power2::lemma_pow2_strictly_increases(k as nat, 63);
                }
                vstd::arithmetic::power2::lemma2_to64_rest();
                assert(value < 0x8000_0000_0000_0000u64);
                let bv: u64 = if bit { 1 } else { 0 };
                assert((value << 1u64) | bv == value * 2 + bv) by (bit_vector)
                    requires
                        value < 0x8000_0000_0000_0000u64,
                        bv < 2,
                ;
            }
            value = (value << 1) | (if bit {
                1u64
            } else {
                0u64
            });
            k = k + 1;
        }
        Ok(value)
    }

    /// Skips to the next byte boundary.
    pub fn align_to_byte(&mut self) -> (r: BitResult<()>)
        ensures
            final(self).data() == old(self).data(),
            r is Ok <==> pad_len(old(self).pos()) <= old(self).remaining(),
            r is Ok ==> final(self).pos() == old(self).pos() + pad_len(old(self).pos()),
            r is Err ==> final(self).pos() == old(self).pos() && r == Err::<(), BitError>(
                BitError::EndOfBuffer {
                    requested: pad_len(old(self).pos()) as usize,
                    available: old(self).remaining() as usize,
                },
            ),
    {
        proof {
            use_type_invariant(&*self);
        }
        let rem = self.bit_pos % 8;
        if rem == 0 {
            return Ok(());
        }
        let padding = 8 - rem;
        let available = self.bits_remaining();
        if padding > available {
            return Err(BitError::EndOfBuffer { requested: padding, available });
        }
        self.bit_pos = self.bit_pos + padding;
        Ok(())
    }

    fn ensure_aligned(&self) -> (r: BitResult<()>)
        ensures
            r is Ok <==> self.pos() % 8 == 0,
            r is Err ==> r == Err::<(), BitError>(
                BitError::MisalignedAccess { bit_position: self.pos() as usize },
            ),
    {
        if self.bit_pos % 8 != 0 {
            return Err(BitError::MisalignedAccess { bit_position: self.bit_pos });
        }
        Ok(())
    }

    /// Reads a byte-aligned `u8`.
    pub fn read_u8_aligned(&mut self) -> (r: BitResult<u8>)
        ensures
            final(self).data() == old(self).data(),
            r is Ok <==> old(self).pos() % 8 == 0 && old(self).remaining() >= 8,
            r matches Ok(b) ==> b == old(self).data()[(old(self).pos() / 8) as int] && final(self).pos()
                == old(self).pos() + 8,
            r is Err ==> final(self).pos() == old(self).pos() && r == Err::<u8, BitError>(
                if old(self).pos() % 8 != 0 {
                    BitError::MisalignedAccess { bit_position: old(self).pos() as usize }
                } else {
                    BitError::EndOfBuffer {
                        requested: 8,
                        available: old(self).remaining() as usize,
                    }
                },
            ),
    {
        proof {
            use_type_invariant(&*self);
        }
        self.ensure_aligned()?;
        let available = self.bits_remaining();
        if available < 8 {
            return Err(BitError::EndOfBuffer { requested: 8, available });
        }
        let idx = self.bit_pos / 8;
        let b = self.data[idx];
        self.bit_pos = self.bit_pos + 8;
        Ok(b)
    }

    fn read_le_aligned(&mut self, n: usize) -> (r: BitResult<u64>)
        requires
            1 <= n <= 8,
        ensures
            final(self).data() == old(self).data(),
            r is Ok <==> old(self).pos() % 8 == 0 && old(self).remaining() >= 8 * n,
            r matches Ok(v) ==> v == old(self).le_at(n as nat) && final(self).pos() == old(
                self,
            ).pos() + 8 * n,
            r is Err ==> final(self).pos() == old(self).pos() && r == Err::<u64, BitError>(
                if old(self).pos() % 8 != 0 {
                    BitError::MisalignedAccess { bit_position: old(self).pos() as usize }
                } else {
                    BitError::EndOfBuffer {
                        requested: (8 * n) as usize,
                        available: old(self).remaining() as usize,
                    }
                },
            ),
    {
        proof {
            use_type_invariant(&*self);
        }
        self.ensure_aligned()?;
        let available = self.bits_remaining();
        if available < n * 8 {
            return Err(BitError::EndOfBuffer { requested: n * 8, available });
        }
        let start = self.bit_pos / 8;
        let len = self.data.len();
        assert(start + n <= len);
        let ghost s = self.data().subrange(start as int, start + n);
        let mut value: u64 = 0;
        let mut k: usize = n;
        while k > 0
            invariant
                k <= n <= 8,
                start + n <= len,
                len == self.data@.len(),
                s == self.data().subrange(start as int, start + n),
                value == le_value(s.skip(k as int)),
            decreases k,
        {
            let b = self.data[start + k - 1];
            proof {
                let t = s.skip(k - 1);
                assert(t.drop_first() =~= s.skip(k as int));
                assert(t[0] == b);
                lemma_le_value_bound(s.skip(k as int));
                assert(s.skip(k as int).len() == n - k);
                vstd::arithmetic::power::lemma_pow_increases(256, (n - k) as nat, 7);
                assert(vstd::arithmetic::power::pow(256, 7) == 0x100000000000000) by {
                    reveal_with_fuel(vstd::arithmetic::power::pow, 8);
                }
            }
            value = value * 256 + b as u64;
            k = k - 1;
        }
        assert(s.skip(0) =~= s);
        self.bit_pos = self.bit_pos + n * 8;
        Ok(value)
    }

    /// Reads a byte-aligned `u16` (little-endian).
    pub fn read_u16_aligned(&mut self) -> (r: BitResult<u16>)
        ensures
            final(self).data() == old(self).data(),
            r is Ok <==> old(self).pos() % 8 == 0 && old(self).remaining() >= 16,
            r matches Ok(v) ==> v == old(self).le_at(2) && final(self).pos() == old(self).pos() + 16,
            r is Err ==> final(self).pos() == old(self).pos() && r == Err::<u16, BitError>(
                if old(self).pos() % 8 != 0 {
                    BitError::MisalignedAccess { bit_position: old(self).pos() as usize }
                } else {
                    BitError::EndOfBuffer {
                        requested: 16,
                        available: old(self).remaining() as usize,
                    }
                },
            ),
    {
        let ghost s = self.data().subrange((self.pos() / 8) as int, (self.pos() / 8 + 2) as int);
        match self.read_le_aligned(2) {
            Ok(v) => {
                proof {
                    lemma_le_value_bound(s);
                    assert(vstd::arithmetic::power::pow(256, 2) == 65536) by {
                        reveal_with_fuel(vstd::arithmetic::power::pow, 3);
                    }
                }
                Ok(v as u16)
            },
            Err(e) => Err(e),
        }
    }

    /// Reads a byte-aligned `u32` (little-endian).
    pub fn read_u32_aligned(&mut self) -> (r: BitResult<u32>)
        ensures
            final(self).data() == old(self).data(),
            r is Ok <==> old(self).pos() % 8 == 0 && old(self).remaining() >= 32,
            r matches Ok(v) ==> v == old(self).le_at(4) && final(self).pos() == old(self).pos() + 32,
            r is Err ==> final(self).pos() == old(self).pos() && r == Err::<u32, BitError>(
                if old(self).pos() % 8 != 0 {
                    BitError::MisalignedAccess { bit_position: old(self).pos() as usize }
                } else {
                    BitError::EndOfBuffer {
                        requested: 32,
                        available: old(self).remaining() as usize,
                    }
                },
            ),
    {
        let ghost s = self.data().subrange((self.pos() / 8) as int, (self.pos() / 8 + 4) as int);
        match self.read_le_aligned(4) {
            Ok(v) => {
                proof {
                    lemma_le_value_bound(s);
                    assert(vstd::arithmetic::power::pow(256, 4) == 0x1_0000_0000) by {
                        reveal_with_fuel(vstd::arithmetic::power::pow, 5);
                    }
                }
                Ok(v as u32)
            },
            Err(e) => Err(e),
        }
    }

    /// Reads a byte-aligned `u64` (little-endian).
    pub fn read_u64_aligned(&mut self) -> (r: BitResult<u64>)
        ensures
            final(self).data() == old(self).data(),
            r is Ok <==> old(self).pos() % 8 == 0 && old(self).remaining() >= 64,
            r matches Ok(v) ==> v == old(self).le_at(8) && final(self).pos() == old(self).pos() + 64,
            r is Err ==> final(self).pos() == old(self).pos() && r == Err::<u64, BitError>(
                if old(self).pos() % 8 != 0 {
                    BitError::MisalignedAccess { bit_position: old(self).pos() as usize }
                } else {
                    BitError::EndOfBuffer {
                        requested: 64,
                        available: old(self).remaining() as usize,
                    }
                },
            ),
    {
        self.read_le_aligned(8)
    }

    fn read_varu32_from(&mut self, k: usize) -> (r: BitResult<u64>)
        requires
            k <= 4,
            old(self).pos() % 8 == 0,
        ensures
            final(self).data() == old(self).data(),
            match varu32_parse(old(self).data(), old(self).pos(), old(self).cap(), k as nat) {
                Ok((v, e)) => r == Ok::<u64, BitError>(v as u64) && final(self).pos() == e,
                Err(e) => r == Err::<u64, BitError>(e),
            },
        decreases 5 - k,
    {
        proof {
            use_type_invariant(&*self);
            lemma_varu32_parse_bound(self.data(), self.pos(), self.cap(), k as nat);
        }
        let b = self.read_u8_aligned()?;
        if b < 128 {
            if k == 4 && b > 15 {
                return Err(BitError::InvalidVarint);
            }
            return Ok(b as u64);
        }
        if k == 4 {
            return Err(BitError::InvalidVarint);
        }
        let high = self.read_varu32_from(k + 1)?;
        proof {
            lemma_varu32_parse_bound(old(self).data(), old(self).pos() + 8, old(self).cap(), (k + 1) as nat);
            vstd::arithmetic::power2::lemma_pow2_strictly_increases((7 * (3 - k) + 4) as nat, 32);
            vstd::arithmetic::power2::lemma2_to64();
        }
        Ok((b - 128) as u64 + 128 * high)
    }

    /// Reads a byte-aligned varint `u32`.
    ///
    /// # Errors
    ///
    /// [`BitError::MisalignedAccess`] off a byte boundary, [`BitError::EndOfBuffer`]
    /// when the input ends inside the varint, and [`BitError::InvalidVarint`] when
    /// it runs over five bytes or past the `u32` range.
    pub fn read_varu32(&mut self) -> (r: BitResult<u32>)
        ensures
            final(self).data() == old(self).data(),
            old(self).pos() % 8 != 0 ==> r == Err::<u32, BitError>(
                BitError::MisalignedAccess { bit_position: old(self).pos() as usize },
            ),
            old(self).pos() % 8 == 0 ==> match varu32_parse(
                old(self).data(),
                old(self).pos(),
                old(self).cap(),
                0,
            ) {
                Ok((v, e)) => r == Ok::<u32, BitError>(v as u32) && final(self).pos() == e,
                Err(e) => r == Err::<u32, BitError>(e),
            },
    {
        self.ensure_aligned()?;
        proof {
            lemma_varu32_parse_bound(self.data(), self.pos(), self.cap(), 0);
            vstd::arithmetic::power2::lemma2_to64();
        }
        let v = self.read_varu32_from(0)?;
        Ok(v as u32)
    }

    /// Reads a byte-aligned zigzag varint `i32`.
    pub fn read_vars32(&mut self) -> (r: BitResult<i32>)
        ensures
            final(self).data() == old(self).data(),
            old(self).pos() % 8 != 0 ==> r == Err::<i32, BitError>(
                BitError::MisalignedAccess { bit_position: old(self).pos() as usize },
            ),
            old(self).pos() % 8 == 0 ==> match varu32_parse(
                old(self).data(),
                old(self).pos(),
                old(self).cap(),
                0,
            ) {
                Ok((v, e)) => r == Ok::<i32, BitError>(unzigzag(v as u32)) && final(self).pos() == e,
                Err(e) => r == Err::<i32, BitError>(e),
            },
    {
        let u = self.read_varu32()?;
        Ok(unzigzag_exec(u))
    }
}

/// Inverse of the zigzag mapping.
pub fn unzigzag_exec(u: u32) -> (v: i32)
    ensures
        v == unzigzag(u),
{
    if u % 2 == 0 {
        (u / 2) as i32
    } else {
        -((u / 2) as i32) - 1
    }
}

} // verus!
