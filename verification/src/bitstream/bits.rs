//! Mathematical model of bit sequences: how bytes, integers and varints
//! look as a most-significant-bit-first stream of booleans.
use vstd::arithmetic::power2::pow2;
use super::error::BitError;
use vstd::prelude::*;

verus! {

/// Bit `j` of a byte, counting from the most significant bit (`j == 0`).
pub open spec fn byte_bit(b: u8, j: int) -> bool {
    (b >> ((7 - j) as u8)) & 1u8 == 1u8
}

/// The eight bits of a byte, most significant first.
pub open spec fn byte_bits(b: u8) -> Seq<bool> {
    Seq::new(8, |j: int| byte_bit(b, j))
}

/// The bit stream spelled by a byte sequence (MSB of the first byte first).
pub open spec fn bits_of(bytes: Seq<u8>) -> Seq<bool> {
    Seq::new(bytes.len() * 8, |i: int| byte_bit(bytes[i / 8], i % 8))
}

/// `n` zero bits.
pub open spec fn zeros(n: nat) -> Seq<bool> {
    Seq::new(n, |i: int| false)
}

/// Number of zero bits that bring a stream of `len` bits to a byte boundary.
pub open spec fn pad_len(len: nat) -> nat {
    if len % 8 == 0 {
        0
    } else {
        (8 - len % 8) as nat
    }
}

/// The stream padded with zero bits up to the next byte boundary.
pub open spec fn padded(s: Seq<bool>) -> Seq<bool> {
    s + zeros(pad_len(s.len()))
}

/// The low `n` bits of `v`, most significant first.
pub open spec fn u64_bits(v: u64, n: nat) -> Seq<bool> {
    Seq::new(n, |i: int| (v >> ((n - 1 - i) as u64)) & 1u64 == 1u64)
}

/// The unsigned integer spelled by a bit sequence (most significant first).
pub open spec fn bits_value(s: Seq<bool>) -> nat
    decreases s.len(),
{
    if s.len() == 0 {
        0
    } else {
        bits_value(s.drop_last()) * 2 + if s.last() {
            1nat
        } else {
            0nat
        }
    }
}

/// `value` fits in `bits` bits.
pub open spec fn fits_bits(value: u64, bits: nat) -> bool {
    bits >= 64 || (value as nat) < pow2(bits)
}

/// The `n` little-endian bytes of `v` (higher bytes are dropped).
pub open spec fn le_bytes(v: nat, n: nat) -> Seq<u8>
    decreases n,
{
    if n == 0 {
        Seq::empty()
    } else {
        seq![(v % 256) as u8] + le_bytes(v / 256, (n - 1) as nat)
    }
}

/// The integer spelled by little-endian bytes.
pub open spec fn le_value(s: Seq<u8>) -> nat
    decreases s.len(),
{
    if s.len() == 0 {
        0
    } else {
        s[0] as nat + 256 * le_value(s.drop_first())
    }
}

/// LEB128 bytes of a `u32`: seven bits per byte, low group first,
/// high bit set on every byte but the last.
pub open spec fn varu32_bytes(v: u32) -> Seq<u8>
    decreases v,
{
    if v < 128 {
        seq![v as u8]
    } else {
        seq![(v % 128 + 128) as u8] + varu32_bytes(v / 128)
    }
}

/// Zigzag mapping of a signed value onto an unsigned one
/// (0, -1, 1, -2, ... map to 0, 1, 2, 3, ...).
pub open spec fn zigzag(v: i32) -> u32 {
    if v >= 0 {
        (2 * v) as u32
    } else {
        (-2 * v - 1) as u32
    }
}

/// Inverse of [`zigzag`].
pub open spec fn unzigzag(u: u32) -> i32 {
    if u % 2 == 0 {
        (u / 2) as i32
    } else {
        (-((u / 2) as int) - 1) as i32
    }
}

pub proof fn lemma_bits_of_len(bytes: Seq<u8>)
    ensures
        bits_of(bytes).len() == bytes.len() * 8,
{
}

/// Appending one byte appends its eight bits.
pub proof fn lemma_bits_of_push(bytes: Seq<u8>, b: u8)
    ensures
        bits_of(bytes.push(b)) == bits_of(bytes) + byte_bits(b),
{
    assert(bits_of(bytes.push(b)) =~= bits_of(bytes) + byte_bits(b));
}

pub proof fn lemma_bits_of_add(a: Seq<u8>, b: Seq<u8>)
    ensures
        bits_of(a + b) == bits_of(a) + bits_of(b),
{
    let l = bits_of(a + b);
    let r = bits_of(a) + bits_of(b);
    assert forall|i: int| 0 <= i < l.len() implies l[i] == r[i] by {
        if i >= a.len() * 8 {
            assert((i - a.len() * 8) / 8 == i / 8 - a.len());
            assert((i - a.len() * 8) % 8 == i % 8);
        }
    }
    assert(l =~= r);
}

/// Different byte sequences spell different bit streams.
pub proof fn lemma_bits_of_injective(a: Seq<u8>, b: Seq<u8>)
    requires
        bits_of(a) == bits_of(b),
    ensures
        a == b,
{
    lemma_bits_of_len(a);
    lemma_bits_of_len(b);
    assert(a.len() * 8 == b.len() * 8);
    assert(a.len() == b.len());
    assert forall|k: int| 0 <= k < a.len() implies a[k] == b[k] by {
        assert forall|j: int| 0 <= j < 8 implies byte_bit(a[k], j) == byte_bit(b[k], j) by {
            let i = 8 * k + j;
            assert(i / 8 == k);
            assert(i % 8 == j);
            assert(bits_of(a)[i] == byte_bit(a[i / 8], i % 8));
            assert(bits_of(b)[i] == byte_bit(b[i / 8], i % 8));
        }
        lemma_byte_bits_determine(a[k], b[k]);
    }
    assert(a =~= b);
}

pub proof fn lemma_byte_bits_determine(x: u8, y: u8)
    requires
        forall|j: int| 0 <= j < 8 ==> byte_bit(x, j) == byte_bit(y, j),
    ensures
        x == y,
{
    assert(byte_bit(x, 0) == byte_bit(y, 0));
    assert(byte_bit(x, 1) == byte_bit(y, 1));
    assert(byte_bit(x, 2) == byte_bit(y, 2));
    assert(byte_bit(x, 3) == byte_bit(y, 3));
    assert(byte_bit(x, 4) == byte_bit(y, 4));
    assert(byte_bit(x, 5) == byte_bit(y, 5));
    assert(byte_bit(x, 6) == byte_bit(y, 6));
    assert(byte_bit(x, 7) == byte_bit(y, 7));
    assert(x == y) by (bit_vector)
        requires
            ((x >> 7u8) & 1u8 == 1u8) == ((y >> 7u8) & 1u8 == 1u8),
            ((x >> 6u8) & 1u8 == 1u8) == ((y >> 6u8) & 1u8 == 1u8),
            ((x >> 5u8) & 1u8 == 1u8) == ((y >> 5u8) & 1u8 == 1u8),
            ((x >> 4u8) & 1u8 == 1u8) == ((y >> 4u8) & 1u8 == 1u8),
            ((x >> 3u8) & 1u8 == 1u8) == ((y >> 3u8) & 1u8 == 1u8),
            ((x >> 2u8) & 1u8 == 1u8) == ((y >> 2u8) & 1u8 == 1u8),
            ((x >> 1u8) & 1u8 == 1u8) == ((y >> 1u8) & 1u8 == 1u8),
            ((x >> 0u8) & 1u8 == 1u8) == ((y >> 0u8) & 1u8 == 1u8),
    ;
}

/// Setting or clearing bit `s` (counted from the least significant bit)
/// of a byte changes that bit only.
pub proof fn lemma_set_clear_bit(b: u8, s: u8, t: u8)
    requires
        s < 8,
        t < 8,
    ensures
        ((b | (1u8 << s)) >> t) & 1u8 == if t == s {
            1u8
        } else {
            (b >> t) & 1u8
        },
        ((b & !(1u8 << s)) >> t) & 1u8 == if t == s {
            0u8
        } else {
            (b >> t) & 1u8
        },
{
    assert(((b | (1u8 << s)) >> t) & 1u8 == if t == s {
        1u8
    } else {
        (b >> t) & 1u8
    }) by (bit_vector)
        requires
            s < 8,
            t < 8,
    ;
    assert(((b & !(1u8 << s)) >> t) & 1u8 == if t == s {
        0u8
    } else {
        (b >> t) & 1u8
    }) by (bit_vector)
        requires
            s < 8,
            t < 8,
    ;
}

/// A byte is zero exactly when all of its bits are.
pub proof fn lemma_zero_byte_bits()
    ensures
        byte_bits(0u8) == zeros(8),
{
    assert forall|j: int| 0 <= j < 8 implies !byte_bit(0u8, j) by {
        let s = (7 - j) as u8;
        assert((0u8 >> s) & 1u8 == 0u8) by (bit_vector);
    }
    assert(byte_bits(0u8) =~= zeros(8));
}

proof fn lemma_shr_step(v: u64, s: u64)
    requires
        s < 63,
    ensures
        (v >> 1u64) >> s == v >> (s + 1),
{
    assert((v >> 1u64) >> s == v >> (s + 1)) by (bit_vector)
        requires
            s < 63,
    ;
}

/// Reading back the bits written for `v` gives `v`.
pub proof fn lemma_u64_bits_value(v: u64, n: nat)
    requires
        n <= 64,
        fits_bits(v, n),
    ensures
        bits_value(u64_bits(v, n)) == v,
    decreases n,
{
    if n == 0 {
        assert(u64_bits(v, n) =~= Seq::<bool>::empty());
        vstd::arithmetic::power2::lemma2_to64();
    } else {
        vstd::arithmetic::power2::lemma_pow2_unfold(n);
        let s = u64_bits(v, n);
        let h = v >> 1u64;
        assert(h == v / 2) by (bit_vector)
            requires h == v >> 1u64;
        assert(v == h * 2 + (v & 1u64)) by (bit_vector)
            requires h == v >> 1u64;
        assert((v & 1u64) < 2) by (bit_vector);
        assert forall|i: int| 0 <= i < n - 1 implies s.drop_last()[i] == u64_bits(h, (n - 1) as nat)[i] by {
            lemma_shr_step(v, (n - 2 - i) as u64);
        }
        assert(s.drop_last() =~= u64_bits(h, (n - 1) as nat));
        assert(v >> 0u64 == v) by (bit_vector);
        assert(s.last() == ((v & 1u64) == 1u64));
        if n < 64 {
            assert(fits_bits(h, (n - 1) as nat));
        } else {
            assert(h < 0x8000_0000_0000_0000u64) by (bit_vector)
                requires h == v >> 1u64;
            vstd::arithmetic::power2::lemma2_to64_rest();
            assert(fits_bits(h, 63));
        }
        lemma_u64_bits_value(h, (n - 1) as nat);
    }
}

/// A bit string of length `n` spells a number below `2^n`.
pub proof fn lemma_bits_value_bound(s: Seq<bool>)
    ensures
        bits_value(s) < pow2(s.len()),
    decreases s.len(),
{
    if s.len() == 0 {
        vstd::arithmetic::power2::lemma2_to64();
    } else {
        vstd::arithmetic::power2::lemma_pow2_unfold(s.len());
        lemma_bits_value_bound(s.drop_last());
    }
}

/// Reading `n` bits and writing them back reproduces them.
pub proof fn lemma_bits_value_u64_bits(s: Seq<bool>)
    requires
        s.len() <= 64,
    ensures
        bits_value(s) <= u64::MAX,
        u64_bits(bits_value(s) as u64, s.len()) == s,
    decreases s.len(),
{
    lemma_bits_value_bound(s);
    vstd::arithmetic::power2::lemma2_to64();
    vstd::arithmetic::power2::lemma2_to64_rest();
    if s.len() == 0 {
        assert(u64_bits(0, 0) =~= s);
    } else {
        let p = s.drop_last();
        lemma_bits_value_u64_bits(p);
        lemma_bits_value_bound(p);
        let h = bits_value(p) as u64;
        let b: u64 = if s.last() { 1 } else { 0 };
        assert(bits_value(p) < pow2(63)) by {
            if p.len() < 63 {
                vstd::arithmetic::power2::lemma_pow2_strictly_increases(p.len(), 63);
            }
        }
        assert(h < 0x8000_0000_0000_0000u64);
        let v = (h * 2 + b) as u64;
        assert(bits_value(s) == v);
        assert(v >> 1u64 == h) by (bit_vector)
            requires v == h * 2 + b, b < 2, h < 0x8000_0000_0000_0000u64;
        assert((v & 1u64) == b) by (bit_vector)
            requires v == h * 2 + b, b < 2, h < 0x8000_0000_0000_0000u64;
        let n = s.len();
        assert forall|i: int| 0 <= i < n implies u64_bits(v, n)[i] == s[i] by {
            if i < n - 1 {
                lemma_shr_step(v, (n - 2 - i) as u64);
                assert(u64_bits(h, (n - 1) as nat)[i] == p[i]);
            } else {
                assert(v >> 0u64 == v) by (bit_vector);
            }
        }
        assert(u64_bits(v, n) =~= s);
    }
}

pub proof fn lemma_le_bytes_len(v: nat, n: nat)
    ensures
        le_bytes(v, n).len() == n,
    decreases n,
{
    if n > 0 {
        lemma_le_bytes_len(v / 256, (n - 1) as nat);
    }
}

/// Little-endian bytes read back as the value they were written from.
pub proof fn lemma_le_roundtrip(v: nat, n: nat)
    requires
        v < vstd::arithmetic::power::pow(256, n),
    ensures
        le_value(le_bytes(v, n)) == v,
        le_bytes(v, n).len() == n,
    decreases n,
{
    vstd::arithmetic::power::lemma_pow0(256);
    if n == 0 {
    } else {
        vstd::arithmetic::power::lemma_pow_adds(256, 1, (n - 1) as nat);
        vstd::arithmetic::power::lemma_pow1(256);
        let p = vstd::arithmetic::power::pow(256, (n - 1) as nat);
        assert(v / 256 < p) by (nonlinear_arith)
            requires
                v < 256 * p,
        ;
        lemma_le_roundtrip(v / 256, (n - 1) as nat);
        let s = le_bytes(v, n);
        assert(s.drop_first() =~= le_bytes(v / 256, (n - 1) as nat));
    }
}

/// Little-endian bytes of length `n` spell a value below `256^n`.
pub proof fn lemma_le_value_bound(s: Seq<u8>)
    ensures
        le_value(s) < vstd::arithmetic::power::pow(256, s.len()),
    decreases s.len(),
{
    vstd::arithmetic::power::lemma_pow0(256);
    if s.len() > 0 {
        lemma_le_value_bound(s.drop_first());
        vstd::arithmetic::power::lemma_pow_adds(256, 1, (s.len() - 1) as nat);
        vstd::arithmetic::power::lemma_pow1(256);
        let p = vstd::arithmetic::power::pow(256, (s.len() - 1) as nat);
        let t = le_value(s.drop_first());
        assert(s[0] as nat + 256 * t < 256 * p) by (nonlinear_arith)
            requires
                t < p,
                s[0] < 256,
        ;
    }
}

/// A varint has between one and five bytes.
pub proof fn lemma_varu32_len(v: u32)
    ensures
        1 <= varu32_bytes(v).len() <= 5,
        v < 128 ==> varu32_bytes(v).len() == 1,
        v >= 128 ==> varu32_bytes(v).len() == 1 + varu32_bytes(v / 128).len(),
    decreases v,
{
    if v >= 128 {
        lemma_varu32_len(v / 128);
        if v / 128 >= 128 {
            lemma_varu32_len(v / 128 / 128);
            if v / 128 / 128 >= 128 {
                lemma_varu32_len(v / 128 / 128 / 128);
                if v / 128 / 128 / 128 >= 128 {
                    lemma_varu32_len(v / 128 / 128 / 128 / 128);
                }
            }
        }
    }
}

/// Replacing byte `k` changes exactly the eight bits of that byte.
pub proof fn lemma_bits_of_update(bytes: Seq<u8>, k: int, nb: u8)
    requires
        0 <= k < bytes.len(),
    ensures
        bits_of(bytes.update(k, nb)).len() == bits_of(bytes).len(),
        forall|i: int|
            0 <= i < bytes.len() * 8 ==> #[trigger] bits_of(bytes.update(k, nb))[i] == if i / 8
                == k {
                byte_bit(nb, i % 8)
            } else {
                bits_of(bytes)[i]
            },
{
}

/// Usable capacity in bits of a buffer of `len` bytes (saturating at `usize::MAX`).
pub open spec fn cap_bits(len: nat) -> nat {
    if len * 8 <= usize::MAX {
        len * 8
    } else {
        usize::MAX as nat
    }
}

/// `ceil(bits / 8)`: bytes needed to hold `bits` bits.
pub open spec fn bytes_for_bits(bits: nat) -> nat {
    if bits % 8 == 0 {
        bits / 8
    } else {
        bits / 8 + 1
    }
}

/// Parse of a varint whose `k`-th byte (counting from zero) starts at bit
/// position `p` of `s`, with `cap` readable bits: the value carried by bytes
/// `k..` and the position after the last byte.
pub open spec fn varu32_parse(s: Seq<u8>, p: nat, cap: nat, k: nat) -> Result<(nat, nat), BitError>
    decreases 5 - k,
{
    if k >= 5 {
        Err(BitError::InvalidVarint)
    } else if p + 8 > cap {
        Err(BitError::EndOfBuffer { requested: 8, available: (cap - p) as usize })
    } else {
        let b = s[(p / 8) as int];
        if b < 128 {
            if k == 4 && b > 15 {
                Err(BitError::InvalidVarint)
            } else {
                Ok((b as nat, p + 8))
            }
        } else {
            match varu32_parse(s, p + 8, cap, k + 1) {
                Ok((v, e)) => Ok((((b - 128) + 128 * v) as nat, e)),
                Err(e) => Err(e),
            }
        }
    }
}

/// A parsed varint fits the `u32` range (more precisely, the bytes from
/// number `k` on carry fewer than `7 * (4 - k) + 4` bits).
pub proof fn lemma_varu32_parse_bound(s: Seq<u8>, p: nat, cap: nat, k: nat)
    requires
        k <= 4,
    ensures
        varu32_parse(s, p, cap, k) matches Ok((v, e)) ==> v < pow2((7 * (4 - k) + 4) as nat) && e
            > p,
    decreases 5 - k,
{
    vstd::arithmetic::power2::lemma2_to64();
    if k < 4 && p + 8 <= cap && s[(p / 8) as int] >= 128 {
        lemma_varu32_parse_bound(s, p + 8, cap, k + 1);
        vstd::arithmetic::power2::lemma_pow2_adds(7, (7 * (3 - k) + 4) as nat);
        assert((7 * (4 - k) + 4) as nat == 7 + (7 * (3 - k) + 4) as nat);
    } else if k == 4 && p + 8 <= cap && s[(p / 8) as int] >= 128 {
        assert(varu32_parse(s, p + 8, cap, 5) is Err);
    }
}

/// Reading back the bytes of `varu32_bytes(v)` gives `v`.
pub proof fn lemma_varu32_parse_roundtrip(s: Seq<u8>, p: nat, cap: nat, k: nat, v: u32)
    requires
        p % 8 == 0,
        k <= 4,
        v < pow2((7 * (4 - k) + 4) as nat),
        p + 8 * varu32_bytes(v).len() <= cap,
        p / 8 + varu32_bytes(v).len() <= s.len(),
        s.subrange((p / 8) as int, (p / 8 + varu32_bytes(v).len()) as int) == varu32_bytes(v),
    ensures
        varu32_parse(s, p, cap, k) == Ok::<(nat, nat), BitError>(
            (v as nat, p + 8 * varu32_bytes(v).len()),
        ),
    decreases 5 - k,
{
    vstd::arithmetic::power2::lemma2_to64();
    lemma_varu32_len(v);
    let enc = varu32_bytes(v);
    assert(s[(p / 8) as int] == enc[0]);
    if v >= 128 {
        let h = v / 128;
        lemma_varu32_len(h);
        if k == 4 {
            assert(false);
        }
        vstd::arithmetic::power2::lemma_pow2_adds(7, (7 * (3 - k) + 4) as nat);
        assert((7 * (4 - k) + 4) as nat == 7 + (7 * (3 - k) + 4) as nat);
        assert(h < pow2((7 * (3 - k) + 4) as nat)) by (nonlinear_arith)
            requires
                v < 128 * pow2((7 * (3 - k) + 4) as nat),
                h == v / 128,
        ;
        let q = p + 8;
        assert(q / 8 == p / 8 + 1);
        assert(enc.drop_first() =~= varu32_bytes(h));
        assert(s.subrange((q / 8) as int, (q / 8 + varu32_bytes(h).len()) as int) =~= enc.drop_first());
        lemma_varu32_parse_roundtrip(s, q, cap, k + 1, h);
    }
}

pub proof fn lemma_zigzag_roundtrip(v: i32)
    ensures
        unzigzag(zigzag(v)) == v,
{
}

} // verus!
