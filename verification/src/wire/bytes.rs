//! Byte-level helpers for the wire format: little-endian integers and
//! LEB128 varints in plain byte buffers.
use crate::bitstream::bits::{
    le_bytes, le_value, lemma_le_bytes_len, lemma_le_value_bound, lemma_varu32_len, varu32_bytes,
};
use crate::bitstream::varu32_len;
use vstd::prelude::*;

verus! {

/// `s` with the bytes from `off` on replaced by `t` (`s` keeps its length).
pub open spec fn splice(s: Seq<u8>, off: int, t: Seq<u8>) -> Seq<u8> {
    s.take(off) + t + s.skip(off + t.len())
}

/// The parts of a splice: what precedes and what follows `t` are kept.
pub proof fn lemma_splice_parts(s: Seq<u8>, off: int, t: Seq<u8>)
    requires
        0 <= off,
        off + t.len() <= s.len(),
    ensures
        splice(s, off, t).len() == s.len(),
        splice(s, off, t).take(off) == s.take(off),
        splice(s, off, t).subrange(off, off + t.len()) == t,
        splice(s, off, t).skip(off + t.len()) == s.skip(off + t.len()),
        off == 0 ==> splice(s, off, t).take(t.len() as int) == t,
{
    let r = splice(s, off, t);
    assert(r.take(off) =~= s.take(off));
    assert(r.subrange(off, off + t.len()) =~= t);
    assert(r.skip(off + t.len()) =~= s.skip(off + t.len()));
    if off == 0 {
        assert(r.take(t.len() as int) =~= t);
    }
}

/// Outcome of scanning a varint in a byte buffer.
pub enum LebScan {
    /// The varint's value and the index just past its last byte.
    Value { value: nat, end: nat },
    /// The buffer ended before the byte at index `at`.
    Truncated { at: nat },
    /// A fifth byte still had its continuation bit set.
    TooLong,
}

/// Scans the varint whose byte number `k` sits at index `i + k` of `s`:
/// the value carried by bytes `k..`, seven bits per byte, low group first.
pub open spec fn leb_scan(s: Seq<u8>, i: nat, k: nat) -> LebScan
    decreases 5 - k,
{
    if k >= 5 {
        LebScan::TooLong
    } else if i + k >= s.len() {
        LebScan::Truncated { at: i + k }
    } else {
        let b = s[(i + k) as int];
        if b < 128 {
            LebScan::Value { value: b as nat, end: i + k + 1 }
        } else if k == 4 {
            LebScan::TooLong
        } else {
            match leb_scan(s, i, k + 1) {
                LebScan::Value { value, end } => LebScan::Value {
                    value: ((b - 128) + 128 * value) as nat,
                    end,
                },
                other => other,
            }
        }
    }
}

/// Exec outcome of a varint scan.
pub enum LebFail {
    Truncated(usize),
    TooLong,
}

pub proof fn lemma_leb_scan_bound(s: Seq<u8>, i: nat, k: nat)
    requires
        k <= 4,
    ensures
        leb_scan(s, i, k) matches LebScan::Value { value, end } ==> value < pow2_7k((5 - k) as nat) && i
            + k < end <= i + 5 && end <= s.len(),
        i + k <= s.len() ==> (leb_scan(s, i, k) matches LebScan::Truncated { at } ==> at == s.len()),
    decreases 5 - k,
{
    lemma_pow2_7k_pos((5 - k) as nat);
    if k < 4 && i + k < s.len() && s[(i + k) as int] >= 128 {
        lemma_leb_scan_bound(s, i, k + 1);
        let p = pow2_7k((4 - k) as nat);
        assert(pow2_7k((5 - k) as nat) == 128 * p);
        if let LebScan::Value { value, end } = leb_scan(s, i, k + 1) {
            let b = s[(i + k) as int];
            assert((b - 128) + 128 * value < 128 * p) by (nonlinear_arith)
                requires
                    value < p,
                    128 <= b < 256,
            ;
        }
    }
}

pub proof fn lemma_pow2_7k_pos(n: nat)
    ensures
        pow2_7k(n) >= 1,
        n >= 1 ==> pow2_7k(n) >= 128,
    decreases n,
{
    if n > 0 {
        lemma_pow2_7k_pos((n - 1) as nat);
    }
}

/// `128^n`.
pub open spec fn pow2_7k(n: nat) -> nat
    decreases n,
{
    if n == 0 {
        1
    } else {
        128 * pow2_7k((n - 1) as nat)
    }
}

/// Scans the varint starting at `buf[i]`, mirroring [`leb_scan`].
pub fn read_leb(buf: &[u8], i: usize, k: usize) -> (r: Result<(u64, usize), LebFail>)
    requires
        k <= 4,
        i + k <= buf@.len(),
    ensures
        match leb_scan(buf@, i as nat, k as nat) {
            LebScan::Value { value, end } => r == Ok::<(u64, usize), LebFail>(
                (value as u64, end as usize),
            ),
            LebScan::Truncated { at } => r == Err::<(u64, usize), LebFail>(
                LebFail::Truncated(at as usize),
            ),
            LebScan::TooLong => r == Err::<(u64, usize), LebFail>(LebFail::TooLong),
        },
    decreases 5 - k,
{
    proof {
        lemma_leb_scan_bound(buf@, i as nat, k as nat);
        reveal_with_fuel(pow2_7k, 6);
    }
    if k >= buf.len() - i {
        return Err(LebFail::Truncated(i + k));
    }
    let b = buf[i + k];
    if b < 128 {
        return Ok((b as u64, i + k + 1));
    }
    if k == 4 {
        return Err(LebFail::TooLong);
    }
    match read_leb(buf, i, k + 1) {
        Ok((v, end)) => {
            proof {
                lemma_leb_scan_bound(buf@, i as nat, (k + 1) as nat);
            }
            Ok(((b - 128) as u64 + 128 * v, end))
        },
        Err(e) => Err(e),
    }
}

/// The varint bytes of `v`, followed by anything, scan back to `v`.
pub proof fn lemma_leb_scan_roundtrip(s: Seq<u8>, i: nat, k: nat, v: u32)
    requires
        k <= 4,
        v < pow2_7k((4 - k) as nat) * 16,
        i + k + varu32_bytes(v).len() <= s.len(),
        s.subrange((i + k) as int, (i + k + varu32_bytes(v).len()) as int) == varu32_bytes(v),
    ensures
        leb_scan(s, i, k) == (LebScan::Value { value: v as nat, end: i + k + varu32_bytes(v).len() }),
    decreases 5 - k,
{
    lemma_varu32_len(v);
    let enc = varu32_bytes(v);
    assert(s[(i + k) as int] == enc[0]);
    if v >= 128 {
        let h = v / 128;
        lemma_varu32_len(h);
        if k == 4 {
            assert(false);
        }
        assert(pow2_7k((4 - k) as nat) == 128 * pow2_7k((3 - k) as nat));
        assert(h < pow2_7k((3 - k) as nat) * 16) by (nonlinear_arith)
            requires
                v < 128 * pow2_7k((3 - k) as nat) * 16,
                h == v / 128,
        ;
        assert(enc.drop_first() =~= varu32_bytes(h));
        assert(s.subrange((i + k + 1) as int, (i + k + 1 + varu32_bytes(h).len()) as int)
            =~= enc.drop_first());
        lemma_leb_scan_roundtrip(s, i, k + 1, h);
    }
}

pub proof fn lemma_pow2_7k_4()
    ensures
        pow2_7k(4) * 16 == 0x1_0000_0000,
{
    reveal_with_fuel(pow2_7k, 5);
}

/// Reads `n` little-endian bytes at `buf[off..]`.
pub fn get_le(buf: &[u8], off: usize, n: usize) -> (v: u64)
    requires
        1 <= n <= 8,
        off + n <= buf@.len(),
    ensures
        v == le_value(buf@.subrange(off as int, off + n)),
{
    let ghost s = buf@.subrange(off as int, off + n);
    let mut value: u64 = 0;
    let mut k: usize = n;
    let blen = buf.len();
    while k > 0
        invariant
            k <= n <= 8,
            blen == buf@.len(),
            off + n <= buf@.len(),
            s == buf@.subrange(off as int, off + n),
            value == le_value(s.skip(k as int)),
        decreases k,
    {
        let b = buf[off + k - 1];
        proof {
            let t = s.skip(k - 1);
            assert(t.drop_first() =~= s.skip(k as int));
            assert(t[0] == b);
            lemma_le_value_bound(s.skip(k as int));
            vstd::arithmetic::power::lemma_pow_increases(256, (n - k) as nat, 7);
            assert(vstd::arithmetic::power::pow(256, 7) == 0x100000000000000) by {
                reveal_with_fuel(vstd::arithmetic::power::pow, 8);
            }
        }
        value = value * 256 + b as u64;
        k = k - 1;
    }
    assert(s.skip(0) =~= s);
    value
}

/// Writes the `n` little-endian bytes of `v` at `out[off..]`.
pub fn put_le(out: &mut [u8], off: usize, v: u64, n: usize)
    requires
        n <= 8,
        off + n <= old(out)@.len(),
    ensures
        final(out)@ == splice(old(out)@, off as int, le_bytes(v as nat, n as nat)),
{
    let ghost whole = le_bytes(v as nat, n as nat);
    proof {
        lemma_le_bytes_len(v as nat, n as nat);
    }
    let mut rest = v;
    let mut k: usize = 0;
    let olen = out.len();
    while k < n
        invariant
            k <= n <= 8,
            off + n <= out@.len(),
            out@.len() == old(out)@.len(),
            olen == out@.len(),
            whole == le_bytes(v as nat, n as nat),
            whole.len() == n,
            whole.skip(k as int) == le_bytes(rest as nat, (n - k) as nat),
            out@ == old(out)@.take(off as int) + whole.take(k as int) + old(out)@.skip(off + k),
        decreases n - k,
    {
        let byte = (rest % 256) as u8;
        proof {
            lemma_le_bytes_len(rest as nat, (n - k) as nat);
            assert(whole.skip(k as int)[0] == whole[k as int]);
            assert(whole.skip(k + 1) =~= le_bytes(rest as nat, (n - k) as nat).drop_first());
        }
        out[off + k] = byte;
        proof {
            assert(out@ =~= old(out)@.take(off as int) + whole.take(k + 1) + old(out)@.skip(
                off + k + 1,
            ));
        }
        rest = rest / 256;
        k = k + 1;
    }
    assert(whole.take(n as int) =~= whole);
}

/// Writes the varint bytes of `v` at `out[off..]` and returns their count.
pub fn put_varu32(out: &mut [u8], off: usize, v: u32) -> (n: usize)
    requires
        off + varu32_bytes(v).len() <= old(out)@.len(),
    ensures
        n == varu32_bytes(v).len(),
        final(out)@ == splice(old(out)@, off as int, varu32_bytes(v)),
{
    let n = varu32_len(v);
    let ghost enc = varu32_bytes(v);
    let mut cur = v;
    let mut k: usize = 0;
    let olen = out.len();
    assert(enc.skip(0) =~= enc);
    while k < n
        invariant
            n == enc.len(),
            1 <= n <= 5,
            k <= n,
            enc == varu32_bytes(v),
            k < n ==> enc.skip(k as int) == varu32_bytes(cur),
            off + n <= out@.len(),
            out@.len() == old(out)@.len(),
            olen == out@.len(),
            out@ == old(out)@.take(off as int) + enc.take(k as int) + old(out)@.skip(off + k),
        decreases n - k,
    {
        proof {
            lemma_varu32_len(cur);
            assert(enc.skip(k as int)[0] == enc[k as int]);
        }
        let mut byte = (cur % 128) as u8;
        cur = cur / 128;
        if cur != 0 {
            byte = byte + 128;
        }
        out[off + k] = byte;
        proof {
            assert(out@ =~= old(out)@.take(off as int) + enc.take(k + 1) + old(out)@.skip(
                off + k + 1,
            ));
            assert(enc.skip(k + 1) =~= enc.skip(k as int).drop_first());
            if k + 1 < n {
                assert(varu32_bytes(cur).len() > 0);
            }
        }
        k = k + 1;
    }
    assert(enc.take(n as int) =~= enc);
    n
}

/// Copies `src` into `out[off..]`.
pub fn put_bytes(out: &mut [u8], off: usize, src: &[u8])
    requires
        off + src@.len() <= old(out)@.len(),
    ensures
        final(out)@ == splice(old(out)@, off as int, src@),
{
    let mut k: usize = 0;
    let olen = out.len();
    while k < src.len()
        invariant
            k <= src@.len(),
            off + src@.len() <= out@.len(),
            out@.len() == old(out)@.len(),
            olen == out@.len(),
            out@ == old(out)@.take(off as int) + src@.take(k as int) + old(out)@.skip(off + k),
        decreases src@.len() - k,
    {
        out[off + k] = src[k];
        proof {
            assert(src@.take(k + 1) =~= src@.take(k as int).push(src@[k as int]));
            assert(out@ =~= old(out)@.take(off as int) + src@.take(k + 1) + old(out)@.skip(
                off + k + 1,
            ));
        }
        k = k + 1;
    }
    assert(src@.take(src@.len() as int) =~= src@);
}

} // verus!
