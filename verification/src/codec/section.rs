//! Framing an encoded section body into an output buffer: tag byte, varint
//! body length, body bytes.
use super::error::{CodecError, CodecResult, LimitKind};
use super::limits::CodecLimits;
use crate::bitstream::bits::{bits_of, varu32_bytes, lemma_varu32_len};
use crate::bitstream::varu32_len;
use crate::wire::bytes::{put_varu32, splice};
use crate::wire::{tag_raw, SectionTag};
use vstd::prelude::*;

verus! {

/// Room reserved in front of a section body for the tag and the longest
/// varint length.
pub const SECTION_PREFIX: usize = 6;

/// Bytes a framed section takes for a body of `n` bytes.
pub open spec fn section_total(n: nat) -> nat {
    1 + varu32_bytes(n as u32).len() + n
}

/// Outcome of framing: given the room `avail` after the section start and
/// what encoding the body gave (with capacity for `avail - 6` bytes), the
/// section's total size, or the error.
pub open spec fn framed(body: Result<Seq<bool>, CodecError>, avail: nat, limits: CodecLimits) -> Result<
    nat,
    CodecError,
> {
    if avail < SECTION_PREFIX {
        Err(CodecError::OutputTooSmall { needed: SECTION_PREFIX, available: avail as usize })
    } else {
        match body {
            Err(e) => Err(e),
            Ok(w) => {
                let n = w.len() / 8;
                if n > limits.max_section_bytes {
                    Err(
                        CodecError::LimitsExceeded {
                            kind: LimitKind::SectionBytes,
                            limit: limits.max_section_bytes,
                            actual: n as usize,
                        },
                    )
                } else if n > u32::MAX {
                    Err(CodecError::OutputTooSmall { needed: n as usize, available: avail as usize })
                } else if avail < section_total(n) {
                    Err(
                        CodecError::OutputTooSmall {
                            needed: section_total(n) as usize,
                            available: avail as usize,
                        },
                    )
                } else {
                    Ok(section_total(n))
                }
            },
        }
    }
}

/// `out` holds at `off` a section with tag `tag` whose body spells the bits `w`.
pub open spec fn section_at(out: Seq<u8>, off: int, tag: SectionTag, w: Seq<bool>) -> bool {
    let n = w.len() / 8;
    let vl = varu32_bytes(n as u32);
    &&& out[off] == tag_raw(tag)
    &&& out.subrange(off + 1, off + 1 + vl.len()) == vl
    &&& bits_of(out.subrange(off + 1 + vl.len(), off + 1 + vl.len() + n)) == w
}

/// A section stays in place when only bytes before `k <= off` change.
pub proof fn lemma_section_at_keep(a: Seq<u8>, b: Seq<u8>, k: int, off: int, tag: SectionTag, w: Seq<bool>)
    requires
        0 <= k <= off,
        a.len() == b.len(),
        a.skip(k) == b.skip(k),
        section_at(a, off, tag, w),
        off + section_total(w.len() / 8) <= a.len(),
    ensures
        section_at(b, off, tag, w),
{
    let n = w.len() / 8;
    let vl = varu32_bytes(n as u32);
    assert(a[off] == a.skip(k)[off - k]);
    assert(b[off] == b.skip(k)[off - k]);
    let sa = a.subrange(off + 1, off + 1 + vl.len());
    let sb = b.subrange(off + 1, off + 1 + vl.len());
    assert(sa =~= sb) by {
        assert forall|j: int| 0 <= j < vl.len() implies #[trigger] sa[j] == sb[j] by {
            assert(a[off + 1 + j] == a.skip(k)[off + 1 + j - k]);
            assert(b[off + 1 + j] == b.skip(k)[off + 1 + j - k]);
        }
    }
    let s = off + 1 + vl.len();
    let ta = a.subrange(s, s + n);
    let tb = b.subrange(s, s + n);
    assert(ta =~= tb) by {
        assert forall|j: int| 0 <= j < n implies #[trigger] ta[j] == tb[j] by {
            assert(a[s + j] == a.skip(k)[s + j - k]);
            assert(b[s + j] == b.skip(k)[s + j - k]);
        }
    }
}

/// Writes a framed section at `out[off..]` from a body of `body_len` bytes.
pub fn frame_section(
    tag: SectionTag,
    body: &Vec<u8>,
    body_len: usize,
    out: &mut [u8],
    off: usize,
    limits: &CodecLimits,
    Ghost(w): Ghost<Seq<bool>>,
) -> (r: CodecResult<usize>)
    requires
        off + SECTION_PREFIX <= old(out)@.len(),
        w.len() % 8 == 0,
        body_len == w.len() / 8,
        body_len <= body@.len(),
        body@.len() + SECTION_PREFIX == old(out)@.len() - off,
        bits_of(body@.take(body_len as int)) == w,
    ensures
        final(out)@.len() == old(out)@.len(),
        final(out)@.take(off as int) == old(out)@.take(off as int),
        match framed(Ok(w), (old(out)@.len() - off) as nat, *limits) {
            Ok(t) => r == Ok::<usize, CodecError>(t as usize) && section_at(final(out)@, off as int, tag, w),
            Err(e) => r == Err::<usize, CodecError>(e),
        },
{
    if body_len > limits.max_section_bytes {
        return Err(
            CodecError::LimitsExceeded {
                kind: LimitKind::SectionBytes,
                limit: limits.max_section_bytes,
                actual: body_len,
            },
        );
    }
    let avail = out.len() - off;
    if body_len > 0xFFFF_FFFFusize {
        return Err(CodecError::OutputTooSmall { needed: body_len, available: avail });
    }
    let len_u32 = body_len as u32;
    let len_bytes = varu32_len(len_u32);
    proof {
        lemma_varu32_len(len_u32);
    }
    let total = 1 + len_bytes + body_len;
    if avail < total {
        return Err(CodecError::OutputTooSmall { needed: total, available: avail });
    }
    let ghost o = out@;
    out[off] = tag.raw();
    let ghost o1 = out@;
    put_varu32(out, off + 1, len_u32);
    let start = off + 1 + len_bytes;
    proof {
        assert(out@.take(off as int) =~= o.take(off as int));
        assert(out@.subrange(off + 1, start as int) =~= varu32_bytes(len_u32));
        assert(out@.subrange(start as int, start as int) =~= body@.take(0));
    }
    let mut k: usize = 0;
    while k < body_len
        invariant
            k <= body_len <= body@.len(),
            out@.len() <= usize::MAX,
            start + body_len <= out@.len(),
            out@.len() == o.len(),
            start == off + 1 + len_bytes,
            len_bytes == varu32_bytes(len_u32).len(),
            out@.take(off as int) == o.take(off as int),
            out@[off as int] == tag_raw(tag),
            out@.subrange(off + 1, start as int) == varu32_bytes(len_u32),
            out@.subrange(start as int, start + k) == body@.take(k as int),
        decreases body_len - k,
    {
        let ghost prev = out@;
        out[start + k] = body[k];
        proof {
            assert(out@.take(off as int) =~= prev.take(off as int));
            assert(out@.subrange(off + 1, start as int) =~= prev.subrange(off + 1, start as int));
            assert(out@.subrange(start as int, start + k + 1) =~= body@.take(k + 1));
        }
        k = k + 1;
    }
    proof {
        assert(body@.take(body_len as int) =~= out@.subrange(start as int, start + body_len));
    }
    Ok(total)
}

} // verus!
