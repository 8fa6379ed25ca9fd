//! Streaming audio decoder: container probing, packet-by-packet decoding,
//! mid-stream reset handling, and end-of-stream detection.
//!
//! A stream opens with a four-byte container signature (two container
//! revisions are recognized; detection never relies on the file name).
//! After the signature comes a packet stream. A sample packet (tag 1)
//! carries a one-byte sample count followed by that many big-endian signed
//! 16-bit samples. A reset packet (tag 2) tells the decoder that stream
//! parameters changed and it must reinitialize; decoding continues and the
//! reset is invisible in the output. Running out of bytes exactly at a
//! packet boundary is the end-of-stream condition and terminates decoding
//! successfully — possibly with zero samples, which is a legitimate result
//! distinct from a decode error. A stream cut off inside a packet, or a
//! packet tag no supported codec emits, is a terminal decode error for
//! that one file.

use vstd::prelude::*;

verus! {

/// Packet tag of a sample packet.
pub const TAG_SAMPLES: u8 = 1;

/// Packet tag of a mid-stream reset signal.
pub const TAG_RESET: u8 = 2;

/// Why a stream could not be decoded.
#[derive(Clone, Copy, Debug, PartialEq, Eq, Structural)]
pub enum DecodeError {
    /// The stream is too short to carry a container signature, or its
    /// signature matches no supported container.
    UnknownFormat,
    /// The stream ends in the middle of a packet.
    Truncated,
    /// A packet carries a tag no supported codec emits.
    BadPacket,
}

/// The human-readable cause carried by each decode error.
pub open spec fn describe_error(e: DecodeError) -> Seq<char> {
    match e {
        DecodeError::UnknownFormat => "no decodable track in a recognized container"@,
        DecodeError::Truncated => "stream ends inside a packet"@,
        DecodeError::BadPacket => "malformed packet"@,
    }
}

impl DecodeError {
    /// The human-readable cause of this error.
    pub fn describe(&self) -> (message: String)
        ensures
            message@ == describe_error(*self),
    {
        match self {
            DecodeError::UnknownFormat => "no decodable track in a recognized container".to_owned(),
            DecodeError::Truncated => "stream ends inside a packet".to_owned(),
            DecodeError::BadPacket => "malformed packet".to_owned(),
        }
    }
}

/// Signature of the first supported container revision.
pub open spec fn magic_v1() -> Seq<u8> {
    seq![0x62u8, 0x73u8, 0x61u8, 0x31u8]
}

/// Signature of the second supported container revision.
pub open spec fn magic_v2() -> Seq<u8> {
    seq![0x62u8, 0x73u8, 0x61u8, 0x32u8]
}

/// Whether probing identifies a supported container: the stream carries at
/// least a full signature and the signature is a recognized one.
pub open spec fn probe_ok(stream: Seq<u8>) -> bool {
    stream.len() >= 4 && (stream.subrange(0, 4) == magic_v1() || stream.subrange(0, 4)
        == magic_v2())
}

/// Signed 16-bit value of a big-endian byte pair.
pub open spec fn sample_val(hi: u8, lo: u8) -> int {
    let unsigned = (hi as int) * 256 + (lo as int);
    if unsigned >= 32768 {
        unsigned - 65536
    } else {
        unsigned
    }
}

/// The samples carried by one sample packet's payload of big-endian pairs.
pub open spec fn payload_samples(payload: Seq<u8>) -> Seq<i32> {
    Seq::new((payload.len() / 2) as nat, |i: int| sample_val(payload[2 * i], payload[2 * i + 1]) as i32)
}

/// Meaning of a packet stream: the flat sample sequence it decodes to, or
/// the decode error it runs into. An empty remainder is end of stream and
/// decodes successfully; a reset packet is skipped transparently.
pub open spec fn decode_packets(stream: Seq<u8>) -> Result<Seq<i32>, DecodeError>
    decreases stream.len(),
{
    if stream.len() == 0 {
        Ok(Seq::empty())
    } else if stream[0] == TAG_RESET {
        decode_packets(stream.drop_first())
    } else if stream[0] == TAG_SAMPLES {
        if stream.len() < 2 {
            Err(DecodeError::Truncated)
        } else {
            let count = stream[1] as int;
            if stream.len() < 2 + 2 * count {
                Err(DecodeError::Truncated)
            } else {
                match decode_packets(stream.skip(2 + 2 * count)) {
                    Ok(rest) => Ok(payload_samples(stream.subrange(2, 2 + 2 * count)) + rest),
                    Err(e) => Err(e),
                }
            }
        }
    } else {
        Err(DecodeError::BadPacket)
    }
}

/// Meaning of a whole stream: a recognized container signature followed by
/// the packet stream.
pub open spec fn decode_model(stream: Seq<u8>) -> Result<Seq<i32>, DecodeError> {
    if probe_ok(stream) {
        decode_packets(stream.skip(4))
    } else {
        Err(DecodeError::UnknownFormat)
    }
}

/// Prepends already-decoded samples to the meaning of the remaining stream.
pub open spec fn with_prefix(prefix: Seq<i32>, rest: Result<Seq<i32>, DecodeError>) -> Result<
    Seq<i32>,
    DecodeError,
> {
    match rest {
        Ok(samples) => Ok(prefix + samples),
        Err(e) => Err(e),
    }
}

/// Decodes one file's bytes to its flat sample sequence, or reports the
/// decode error. A successful result may hold zero samples.
#[verifier::loop_isolation(false)]
pub fn decode(bytes: &Vec<u8>) -> (decoded: Result<Vec<i32>, DecodeError>)
    ensures
        match decoded {
            Ok(samples) => decode_model(bytes@) == Ok::<Seq<i32>, DecodeError>(samples@),
            Err(e) => decode_model(bytes@) == Err::<Seq<i32>, DecodeError>(e),
        },
{
    if bytes.len() < 4 {
        return Err(DecodeError::UnknownFormat);
    }
    let recognized = bytes[0] == 0x62 && bytes[1] == 0x73 && bytes[2] == 0x61 && (bytes[3] == 0x31
        || bytes[3] == 0x32);
    proof {
        assert(bytes@.subrange(0, 4) =~= seq![bytes@[0], bytes@[1], bytes@[2], bytes@[3]]);
        if recognized {
            if bytes@[3] == 0x31 {
                assert(bytes@.subrange(0, 4) =~= magic_v1());
            } else {
                assert(bytes@.subrange(0, 4) =~= magic_v2());
            }
        } else {
            assert(bytes@.subrange(0, 4) != magic_v1() && bytes@.subrange(0, 4) != magic_v2()) by {
                if bytes@.subrange(0, 4) == magic_v1() || bytes@.subrange(0, 4) == magic_v2() {
                    assert(bytes@[0] == 0x62 && bytes@[1] == 0x73 && bytes@[2] == 0x61);
                    assert(bytes@[3] == 0x31 || bytes@[3] == 0x32);
                }
            }
        }
    }
    if !recognized {
        return Err(DecodeError::UnknownFormat);
    }
    let mut samples: Vec<i32> = Vec::new();
    let mut pos: usize = 4;
    proof {
        lemma_with_prefix_empty(decode_packets(bytes@.skip(4)));
    }
    while pos < bytes.len()
        invariant
            4 <= pos <= bytes@.len(),
            with_prefix(samples@, decode_packets(bytes@.skip(pos as int))) == decode_model(bytes@),
        decreases bytes@.len() - pos,
    {
        let ghost stream = bytes@.skip(pos as int);
        let tag = bytes[pos];
        proof {
            assert(stream[0] == tag);
        }
        if tag == TAG_RESET {
            proof {
                assert(stream.drop_first() =~= bytes@.skip(pos as int + 1));
            }
            pos = pos + 1;
        } else if tag == TAG_SAMPLES {
            if pos + 1 == bytes.len() {
                proof {
                    assert(stream.len() < 2);
                }
                return Err(DecodeError::Truncated);
            }
            let count = bytes[pos + 1] as usize;
            proof {
                assert(stream[1] == bytes@[pos + 1]);
            }
            if bytes.len() - (pos + 2) < 2 * count {
                proof {
                    assert(stream.len() < 2 + 2 * (count as int));
                }
                return Err(DecodeError::Truncated);
            }
            let ghost payload = bytes@.subrange(pos as int + 2, pos as int + 2 + 2 * (count as int));
            proof {
                assert(payload =~= stream.subrange(2, 2 + 2 * (count as int)));
            }
            let ghost samples_before = samples@;
            let mut j: usize = 0;
            while j < count
                invariant
                    0 <= j <= count,
                    samples@ == samples_before + payload_samples(
                        payload.subrange(0, 2 * (j as int)),
                    ),
                decreases count - j,
            {
                let hi = bytes[pos + 2 + 2 * j];
                let lo = bytes[pos + 2 + 2 * j + 1];
                let unsigned: u32 = (hi as u32) * 256 + (lo as u32);
                let value: i32 = if unsigned >= 32768 {
                    (unsigned as i32) - 65536
                } else {
                    unsigned as i32
                };
                proof {
                    assert(payload[2 * (j as int)] == hi && payload[2 * (j as int) + 1] == lo);
                    assert(value as int == sample_val(hi, lo));
                    lemma_payload_samples_step(payload, j as int);
                }
                samples.push(value);
                j = j + 1;
            }
            proof {
                assert(payload.subrange(0, 2 * (count as int)) =~= payload);
                assert(stream.skip(2 + 2 * (count as int)) =~= bytes@.skip(
                    pos as int + 2 + 2 * (count as int),
                ));
                lemma_with_prefix_extends(samples_before, payload, bytes@.skip(
                    pos as int + 2 + 2 * (count as int),
                ));
            }
            pos = pos + 2 + 2 * count;
        } else {
            return Err(DecodeError::BadPacket);
        }
    }
    proof {
        assert(bytes@.skip(pos as int) =~= Seq::<u8>::empty());
        assert(samples@ + Seq::<i32>::empty() =~= samples@);
    }
    Ok(samples)
}

/// Nothing decoded yet leaves the remaining stream's meaning unchanged.
proof fn lemma_with_prefix_empty(rest: Result<Seq<i32>, DecodeError>)
    ensures
        with_prefix(Seq::<i32>::empty(), rest) == rest,
{
    match rest {
        Ok(samples) => {
            assert(Seq::<i32>::empty() + samples =~= samples);
        },
        Err(_) => {},
    }
}

/// One more big-endian pair extends a payload's sample sequence by its value.
proof fn lemma_payload_samples_step(payload: Seq<u8>, j: int)
    requires
        0 <= j,
        2 * j + 2 <= payload.len(),
    ensures
        payload_samples(payload.subrange(0, 2 * j + 2)) == payload_samples(
            payload.subrange(0, 2 * j),
        ).push(sample_val(payload[2 * j], payload[2 * j + 1]) as i32),
{
    assert(payload_samples(payload.subrange(0, 2 * j + 2)) =~= payload_samples(
        payload.subrange(0, 2 * j),
    ).push(sample_val(payload[2 * j], payload[2 * j + 1]) as i32));
}

/// Consuming one whole sample packet moves its samples into the prefix.
proof fn lemma_with_prefix_extends(prefix: Seq<i32>, payload: Seq<u8>, rest: Seq<u8>)
    ensures
        with_prefix(prefix + payload_samples(payload), decode_packets(rest)) == with_prefix(
            prefix,
            match decode_packets(rest) {
                Ok(tail) => Ok::<Seq<i32>, DecodeError>(payload_samples(payload) + tail),
                Err(e) => Err::<Seq<i32>, DecodeError>(e),
            },
        ),
{
    match decode_packets(rest) {
        Ok(tail) => {
            assert((prefix + payload_samples(payload)) + tail =~= prefix + (payload_samples(payload)
                + tail));
        },
        Err(_) => {},
    }
}

/// A reset signal at the head of a packet stream is transparent: the stream
/// decodes exactly as its remainder does, so a mid-stream reset still
/// yields the complete sample sequence.
pub proof fn lemma_reset_transparent(rest: Seq<u8>)
    ensures
        decode_packets(seq![TAG_RESET] + rest) == decode_packets(rest),
{
    let stream = seq![TAG_RESET] + rest;
    assert(stream[0] == TAG_RESET);
    assert(stream.drop_first() =~= rest);
}

/// A stream too short to carry a container signature — a zero-byte file in
/// particular — is a decode error, never a crash.
pub proof fn lemma_short_stream_rejected(stream: Seq<u8>)
    requires
        stream.len() < 4,
    ensures
        decode_model(stream) == Err::<Seq<i32>, DecodeError>(DecodeError::UnknownFormat),
{
}

/// A stream cut off in the middle of its first sample packet is a decode
/// error, never a crash.
pub proof fn lemma_truncated_stream_rejected(stream: Seq<u8>)
    requires
        probe_ok(stream),
        stream.len() >= 5,
        stream[4] == TAG_SAMPLES,
        stream.len() == 5 || stream.len() < 6 + 2 * (stream[5] as int),
    ensures
        decode_model(stream) == Err::<Seq<i32>, DecodeError>(DecodeError::Truncated),
{
    let packets = stream.skip(4);
    assert(packets[0] == TAG_SAMPLES);
    if stream.len() > 5 {
        assert(packets[1] == stream[5]);
    }
}

} // verus!
