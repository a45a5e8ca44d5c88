//! Deterministic schema hash: 64-bit FNV-1a over a canonical byte form of the
//! schema (identifiers, codecs with their parameters, change policies).
//!
//! The byte form is defined here (`schema_bytes`); two peers agree on a
//! schema's hash exactly when both hash this form. Packets whose header
//! carries a hash computed any other way are refused as a schema mismatch.
use super::defs::{ComponentDef, Schema};
use super::field::{ChangePolicy, FieldCodec, FieldDef};
use crate::bitstream::bits::le_bytes;
use vstd::prelude::*;

verus! {

/// FNV-1a offset basis.
pub const FNV_OFFSET: u64 = 0xcbf2_9ce4_8422_2325;

/// FNV-1a prime.
pub const FNV_PRIME: u64 = 0x0000_0100_0000_01b3;

/// One FNV-1a step.
pub open spec fn fnv_step(h: u64, b: u8) -> u64 {
    (h ^ (b as u64)).wrapping_mul(FNV_PRIME)
}

/// FNV-1a of `s`, starting from state `h`.
pub open spec fn fnv_from(h: u64, s: Seq<u8>) -> u64
    decreases s.len(),
{
    if s.len() == 0 {
        h
    } else {
        fnv_from(fnv_step(h, s[0]), s.drop_first())
    }
}

/// Hashing a concatenation is hashing the parts one after the other.
pub proof fn lemma_fnv_append(h: u64, a: Seq<u8>, b: Seq<u8>)
    ensures
        fnv_from(h, a + b) == fnv_from(fnv_from(h, a), b),
    decreases a.len(),
{
    if a.len() == 0 {
        assert(a + b =~= b);
    } else {
        assert((a + b).drop_first() =~= a.drop_first() + b);
        lemma_fnv_append(fnv_step(h, a[0]), a.drop_first(), b);
    }
}

/// Canonical bytes of a codec: a tag byte, then its parameters.
pub open spec fn codec_bytes(c: FieldCodec) -> Seq<u8> {
    match c {
        FieldCodec::Bool => seq![0u8],
        FieldCodec::UInt { bits } => seq![1u8, bits],
        FieldCodec::SInt { bits } => seq![2u8, bits],
        FieldCodec::VarUInt => seq![3u8],
        FieldCodec::VarSInt => seq![4u8],
        FieldCodec::FixedPoint(fp) => seq![5u8] + le_bytes((fp.min_q as u64) as nat, 8) + le_bytes(
            (fp.max_q as u64) as nat,
            8,
        ) + le_bytes(fp.scale as nat, 4),
    }
}

/// Canonical bytes of a change policy.
pub open spec fn change_bytes(c: ChangePolicy) -> Seq<u8> {
    match c {
        ChangePolicy::Always => seq![0u8],
        ChangePolicy::Threshold { threshold_q } => seq![1u8] + le_bytes(threshold_q as nat, 4),
    }
}

/// Canonical bytes of a field.
pub open spec fn field_bytes(f: FieldDef) -> Seq<u8> {
    le_bytes(f.id@ as nat, 2) + codec_bytes(f.codec) + change_bytes(f.change)
}

/// Canonical bytes of a list of fields.
pub open spec fn fields_bytes(fs: Seq<FieldDef>) -> Seq<u8>
    decreases fs.len(),
{
    if fs.len() == 0 {
        Seq::empty()
    } else {
        fields_bytes(fs.drop_last()) + field_bytes(fs.last())
    }
}

/// Canonical bytes of a component: identifier, field count, fields.
pub open spec fn component_bytes(c: ComponentDef) -> Seq<u8> {
    le_bytes(c.id@ as nat, 2) + le_bytes(c.fields@.len(), 4) + fields_bytes(c.fields@)
}

/// Canonical bytes of a list of components.
pub open spec fn components_bytes(cs: Seq<ComponentDef>) -> Seq<u8>
    decreases cs.len(),
{
    if cs.len() == 0 {
        Seq::empty()
    } else {
        components_bytes(cs.drop_last()) + component_bytes(cs.last())
    }
}

/// Canonical bytes of a schema: component count, then the components.
pub open spec fn schema_bytes(cs: Seq<ComponentDef>) -> Seq<u8> {
    le_bytes(cs.len(), 4) + components_bytes(cs)
}

fn feed_byte(h: u64, b: u8) -> (r: u64)
    ensures
        r == fnv_from(h, seq![b]),
{
    proof {
        reveal_with_fuel(fnv_from, 2);
        assert(seq![b].drop_first() =~= Seq::<u8>::empty());
    }
    (h ^ (b as u64)).wrapping_mul(FNV_PRIME)
}

fn feed_le(h: u64, v: u64, n: usize) -> (r: u64)
    requires
        n <= 8,
    ensures
        r == fnv_from(h, le_bytes(v as nat, n as nat)),
{
    let ghost whole = le_bytes(v as nat, n as nat);
    let mut acc = h;
    let mut rest = v;
    let mut k: usize = 0;
    proof {
        crate::bitstream::bits::lemma_le_bytes_len(v as nat, n as nat);
        assert(whole.take(0) =~= Seq::<u8>::empty());
        assert(whole.skip(0) =~= whole);
    }
    while k < n
        invariant
            k <= n <= 8,
            whole == le_bytes(v as nat, n as nat),
            whole.len() == n,
            whole.skip(k as int) == le_bytes(rest as nat, (n - k) as nat),
            acc == fnv_from(h, whole.take(k as int)),
        decreases n - k,
    {
        let byte = (rest % 256) as u8;
        proof {
            crate::bitstream::bits::lemma_le_bytes_len(rest as nat, (n - k) as nat);
            assert(whole.skip(k as int)[0] == whole[k as int]);
            assert(whole.take(k + 1) =~= whole.take(k as int) + seq![byte]);
            lemma_fnv_append(h, whole.take(k as int), seq![byte]);
            assert(whole.skip(k + 1) =~= whole.skip(k as int).drop_first());
        }
        acc = feed_byte(acc, byte);
        rest = rest / 256;
        k = k + 1;
    }
    assert(whole.take(n as int) =~= whole);
    acc
}

fn hash_codec(h: u64, c: FieldCodec) -> (r: u64)
    ensures
        r == fnv_from(h, codec_bytes(c)),
{
    match c {
        FieldCodec::Bool => feed_byte(h, 0),
        FieldCodec::UInt { bits } => {
            let h1 = feed_byte(h, 1);
            proof {
                lemma_fnv_append(h, seq![1u8], seq![bits]);
                assert(seq![1u8] + seq![bits] =~= seq![1u8, bits]);
            }
            feed_byte(h1, bits)
        },
        FieldCodec::SInt { bits } => {
            let h1 = feed_byte(h, 2);
            proof {
                lemma_fnv_append(h, seq![2u8], seq![bits]);
                assert(seq![2u8] + seq![bits] =~= seq![2u8, bits]);
            }
            feed_byte(h1, bits)
        },
        FieldCodec::VarUInt => feed_byte(h, 3),
        FieldCodec::VarSInt => feed_byte(h, 4),
        FieldCodec::FixedPoint(fp) => {
            let h1 = feed_byte(h, 5);
            let h2 = feed_le(h1, fp.min_q as u64, 8);
            let h3 = feed_le(h2, fp.max_q as u64, 8);
            let h4 = feed_le(h3, fp.scale as u64, 4);
            proof {
                let a = seq![5u8];
                let b = le_bytes((fp.min_q as u64) as nat, 8);
                let c2 = le_bytes((fp.max_q as u64) as nat, 8);
                let d = le_bytes(fp.scale as nat, 4);
                lemma_fnv_append(h, a, b);
                lemma_fnv_append(h, a + b, c2);
                lemma_fnv_append(h, a + b + c2, d);
            }
            h4
        },
    }
}

fn hash_change(h: u64, c: ChangePolicy) -> (r: u64)
    ensures
        r == fnv_from(h, change_bytes(c)),
{
    match c {
        ChangePolicy::Always => feed_byte(h, 0),
        ChangePolicy::Threshold { threshold_q } => {
            let h1 = feed_byte(h, 1);
            proof {
                lemma_fnv_append(h, seq![1u8], le_bytes(threshold_q as nat, 4));
            }
            feed_le(h1, threshold_q as u64, 4)
        },
    }
}

fn hash_field(h: u64, f: &FieldDef) -> (r: u64)
    ensures
        r == fnv_from(h, field_bytes(*f)),
{
    let h1 = feed_le(h, f.id.get() as u64, 2);
    let h2 = hash_codec(h1, f.codec);
    let h3 = hash_change(h2, f.change);
    proof {
        let a = le_bytes(f.id@ as nat, 2);
        lemma_fnv_append(h, a, codec_bytes(f.codec));
        lemma_fnv_append(h, a + codec_bytes(f.codec), change_bytes(f.change));
    }
    h3
}

fn hash_component(h: u64, c: &ComponentDef) -> (r: u64)
    ensures
        r == fnv_from(h, component_bytes(*c)),
{
    let h1 = feed_le(h, c.id.get() as u64, 2);
    let h2 = feed_le(h1, c.fields.len() as u64, 4);
    let ghost head = le_bytes(c.id@ as nat, 2) + le_bytes(c.fields@.len(), 4);
    proof {
        lemma_fnv_append(h, le_bytes(c.id@ as nat, 2), le_bytes(c.fields@.len(), 4));
    }
    let mut acc = h2;
    let mut j: usize = 0;
    let n = c.fields.len();
    assert(c.fields@.take(0) =~= Seq::<FieldDef>::empty());
    while j < n
        invariant
            n == c.fields@.len(),
            j <= n,
            acc == fnv_from(h, head + fields_bytes(c.fields@.take(j as int))),
        decreases n - j,
    {
        let ghost before = c.fields@.take(j as int);
        acc = hash_field(acc, &c.fields[j]);
        proof {
            let after = c.fields@.take(j + 1);
            assert(after.drop_last() =~= before);
            assert(after.last() == c.fields@[j as int]);
            lemma_fnv_append(h, head + fields_bytes(before), field_bytes(c.fields@[j as int]));
            assert(head + fields_bytes(after) =~= head + fields_bytes(before) + field_bytes(
                c.fields@[j as int],
            ));
        }
        j = j + 1;
    }
    assert(c.fields@.take(n as int) =~= c.fields@);
    acc
}

/// Computes the deterministic hash of a schema.
pub fn schema_hash(schema: &Schema) -> (r: u64)
    ensures
        r == fnv_from(FNV_OFFSET, schema_bytes(schema.components@)),
{
    let cs = &schema.components;
    let n = cs.len();
    let ghost head = le_bytes(cs@.len(), 4);
    let mut acc = feed_le(FNV_OFFSET, n as u64, 4);
    let mut i: usize = 0;
    assert(cs@.take(0) =~= Seq::<ComponentDef>::empty());
    assert(head + components_bytes(cs@.take(0)) =~= head);
    while i < n
        invariant
            n == cs@.len(),
            i <= n,
            acc == fnv_from(FNV_OFFSET, head + components_bytes(cs@.take(i as int))),
        decreases n - i,
    {
        let ghost before = cs@.take(i as int);
        acc = hash_component(acc, &cs[i]);
        proof {
            let after = cs@.take(i + 1);
            assert(after.drop_last() =~= before);
            assert(after.last() == cs@[i as int]);
            lemma_fnv_append(FNV_OFFSET, head + components_bytes(before), component_bytes(cs@[i as int]));
            assert(head + components_bytes(after) =~= head + components_bytes(before)
                + component_bytes(cs@[i as int]));
        }
        i = i + 1;
    }
    assert(cs@.take(n as int) =~= cs@);
    acc
}

} // verus!
