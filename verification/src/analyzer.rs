//! Feature analysis: the fingerprint record, the fault-isolated view of the
//! outside analysis routine, and the byte framing under which a fingerprint
//! is persisted.
//!
//! The analysis routine itself is an outside collaborator and untrusted
//! with respect to crashing on pathological input; the pipeline invokes it
//! behind a fault boundary that turns an abrupt fault into an ordinary
//! recoverable outcome. This module fixes what the pipeline does with each
//! possible result of that call.

use vstd::prelude::*;

verus! {

/// Acoustic fingerprint of one audio file: a vector of fixed-point feature
/// values, the structured output of the feature analyzer.
pub struct Fingerprint {
    pub features: Vec<i32>,
}

/// What the fault-isolated analysis call does on one file's samples:
/// returns a fingerprint, rejects the input with a library-reported error,
/// or faults abruptly — in which case the fault boundary converts the fault
/// into a recoverable outcome instead of terminating the run.
pub enum AnalyzerBehavior {
    Yields { fingerprint: Fingerprint },
    Rejects,
    Faults,
}

/// The nonnegative value whose low 32 bits spell a feature value in
/// two's complement.
pub open spec fn feature_unsigned(feature: int) -> int {
    if feature < 0 {
        feature + 0x1_0000_0000
    } else {
        feature
    }
}

/// Big-endian bytes of a 32-bit value.
pub open spec fn be32(value: int) -> Seq<u8> {
    seq![
        (value / 0x100_0000 % 256) as u8,
        (value / 0x1_0000 % 256) as u8,
        (value / 0x100 % 256) as u8,
        (value % 256) as u8,
    ]
}

/// Big-endian bytes of a 64-bit value.
pub open spec fn be64(value: int) -> Seq<u8> {
    seq![
        (value / 0x100_0000_0000_0000 % 256) as u8,
        (value / 0x1_0000_0000_0000 % 256) as u8,
        (value / 0x100_0000_0000 % 256) as u8,
        (value / 0x1_0000_0000 % 256) as u8,
        (value / 0x100_0000 % 256) as u8,
        (value / 0x1_0000 % 256) as u8,
        (value / 0x100 % 256) as u8,
        (value % 256) as u8,
    ]
}

/// Serialized form of the feature values alone, each as four big-endian
/// two's-complement bytes.
pub open spec fn features_bytes(features: Seq<i32>) -> Seq<u8>
    decreases features.len(),
{
    if features.len() == 0 {
        Seq::empty()
    } else {
        be32(feature_unsigned(features.first() as int)) + features_bytes(features.drop_first())
    }
}

/// Serialized form of a fingerprint: the feature count as eight big-endian
/// bytes, then each feature value in order.
pub open spec fn fingerprint_bytes(features: Seq<i32>) -> Seq<u8> {
    be64(features.len() as int) + features_bytes(features)
}

/// Appending one feature appends its four bytes.
proof fn lemma_features_bytes_push(features: Seq<i32>, feature: i32)
    ensures
        features_bytes(features.push(feature)) == features_bytes(features) + be32(
            feature_unsigned(feature as int),
        ),
    decreases features.len(),
{
    let pushed = features.push(feature);
    if features.len() == 0 {
        assert(pushed.first() == feature);
        assert(pushed.drop_first() =~= Seq::<i32>::empty());
        assert(features_bytes(pushed.drop_first()) == Seq::<u8>::empty());
        assert(features_bytes(features) == Seq::<u8>::empty());
        assert(features_bytes(pushed) =~= features_bytes(features) + be32(
            feature_unsigned(feature as int),
        ));
    } else {
        assert(pushed.drop_first() =~= features.drop_first().push(feature));
        lemma_features_bytes_push(features.drop_first(), feature);
        assert(features_bytes(pushed) =~= features_bytes(features) + be32(
            feature_unsigned(feature as int),
        ));
    }
}

/// Pushes the eight big-endian bytes of a 64-bit value.
fn push_be64(out: &mut Vec<u8>, value: u64)
    ensures
        final(out)@ == old(out)@ + be64(value as int),
{
    let ghost before = out@;
    out.push((value / 0x100_0000_0000_0000 % 256) as u8);
    out.push((value / 0x1_0000_0000_0000 % 256) as u8);
    out.push((value / 0x100_0000_0000 % 256) as u8);
    out.push((value / 0x1_0000_0000 % 256) as u8);
    out.push((value / 0x100_0000 % 256) as u8);
    out.push((value / 0x1_0000 % 256) as u8);
    out.push((value / 0x100 % 256) as u8);
    out.push((value % 256) as u8);
    proof {
        assert(out@ =~= before + be64(value as int));
    }
}

/// Pushes the four big-endian bytes of a 32-bit value.
fn push_be32(out: &mut Vec<u8>, value: u32)
    ensures
        final(out)@ == old(out)@ + be32(value as int),
{
    let ghost before = out@;
    out.push((value / 0x100_0000 % 256) as u8);
    out.push((value / 0x1_0000 % 256) as u8);
    out.push((value / 0x100 % 256) as u8);
    out.push((value % 256) as u8);
    proof {
        assert(out@ =~= before + be32(value as int));
    }
}

/// Serializes a fingerprint for storage in the cache. The framing is the
/// pipeline's own; the cache treats the bytes as opaque.
#[verifier::loop_isolation(false)]
pub fn fingerprint_to_bytes(fingerprint: &Fingerprint) -> (bytes: Vec<u8>)
    ensures
        bytes@ == fingerprint_bytes(fingerprint.features@),
{
    let count = fingerprint.features.len();
    let mut bytes: Vec<u8> = Vec::new();
    push_be64(&mut bytes, count as u64);
    proof {
        assert(bytes@ =~= be64(count as int));
        assert(fingerprint.features@.subrange(0, 0) =~= Seq::<i32>::empty());
        assert(bytes@ + features_bytes(fingerprint.features@.subrange(0, 0)) =~= bytes@);
    }
    let mut i: usize = 0;
    while i < count
        invariant
            0 <= i <= count,
            bytes@ == be64(count as int) + features_bytes(
                fingerprint.features@.subrange(0, i as int),
            ),
        decreases count - i,
    {
        let feature = fingerprint.features[i];
        let unsigned: u32 = if feature < 0 {
            ((feature as i64) + 0x1_0000_0000) as u32
        } else {
            feature as u32
        };
        proof {
            assert(unsigned as int == feature_unsigned(feature as int));
            assert(fingerprint.features@.subrange(0, i as int + 1) =~= fingerprint.features@.subrange(
                0,
                i as int,
            ).push(feature));
            lemma_features_bytes_push(fingerprint.features@.subrange(0, i as int), feature);
        }
        push_be32(&mut bytes, unsigned);
        i = i + 1;
    }
    proof {
        assert(fingerprint.features@.subrange(0, count as int) =~= fingerprint.features@);
    }
    bytes
}

} // verus!
