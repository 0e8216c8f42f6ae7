//! Hiding a framed byte message in the least-significant bits of 16-bit PCM
//! samples, and recovering it.
//!
//! Frame layout (multi-byte fields little-endian):
//! - magic:   4 bytes, ASCII "NS01"
//! - version: 1 byte, 1
//! - flags:   1 byte, 0 (reserved)
//! - length:  4 bytes, payload length in bytes
//! - payload: `length` bytes
//!
//! Bit `b` (0 = least significant) of frame byte `k` is carried by bit 0 of
//! sample `8 * k + b`.
use vstd::bytes::{
    lemma_auto_spec_u32_to_from_le_bytes, spec_u32_from_le_bytes, spec_u32_to_le_bytes,
    u32_from_le_bytes, u32_to_le_bytes,
};
use vstd::prelude::*;
use vstd::slice::slice_subrange;

verus! {

const MAGIC: [u8; 4] = [0x4e, 0x53, 0x30, 0x31];

const VERSION: u8 = 1;

/// Magic, version, flags and length.
const HEADER_LEN: usize = 10;

#[derive(Debug, Clone, PartialEq, Eq, Structural)]
pub enum StegoError {
    NotEnoughSamples,
    BadMagic,
    UnsupportedVersion(u8),
    LengthOutOfRange,
}

// ---------------------------------------------------------------------------
// Model
// ---------------------------------------------------------------------------

/// The magic bytes "NS01".
pub open spec fn magic() -> Seq<u8> {
    seq![0x4eu8, 0x53u8, 0x30u8, 0x31u8]
}

/// The frame that carries `message`.
pub open spec fn frame_of(message: Seq<u8>) -> Seq<u8> {
    magic() + seq![1u8, 0u8] + spec_u32_to_le_bytes(message.len() as u32) + message
}

/// Whether `num_bytes` bytes fit into `num_samples` samples, one bit per sample.
pub open spec fn fits(num_bytes: int, num_samples: int) -> bool {
    num_bytes * 8 <= num_samples
}

/// Bit `i` of the bit stream of `bytes`, least-significant bit of each byte first.
pub open spec fn bit_of(bytes: Seq<u8>, i: int) -> u8 {
    (bytes[i / 8] >> ((i % 8) as u8)) & 1u8
}

/// The least-significant bit of a sample.
pub open spec fn sample_bit(s: i16) -> u8 {
    (s & 1i16) as u8
}

/// The sample with its least-significant bit replaced by `bit`.
pub open spec fn with_lsb(s: i16, bit: u8) -> i16 {
    (s & !1i16) | (bit as i16)
}

/// The samples with the bit stream of `bytes` written into the least-significant
/// bits of the first `8 * bytes.len()` of them.
pub open spec fn embedded(samples: Seq<i16>, bytes: Seq<u8>) -> Seq<i16> {
    Seq::new(
        samples.len(),
        |i: int|
            if i < bytes.len() * 8 {
                with_lsb(samples[i], bit_of(bytes, i))
            } else {
                samples[i]
            },
    )
}

/// The samples with byte `k` of the bit stream overwritten by `value`.
pub open spec fn with_byte_at(samples: Seq<i16>, k: int, value: u8) -> Seq<i16> {
    Seq::new(
        samples.len(),
        |i: int|
            if 8 * k <= i < 8 * k + 8 {
                with_lsb(samples[i], (value >> ((i - 8 * k) as u8)) & 1u8)
            } else {
                samples[i]
            },
    )
}

/// The low `j` bits of byte `k`, read from the least-significant bits of samples
/// `8 * k .. 8 * k + j`.
pub open spec fn packed_prefix(samples: Seq<i16>, k: int, j: nat) -> u8
    decreases j,
{
    if j == 0 {
        0u8
    } else {
        packed_prefix(samples, k, (j - 1) as nat) | (sample_bit(samples[8 * k + j - 1]) << ((j
            - 1) as u8))
    }
}

/// Byte `k` read from the least-significant bits of the samples.
pub open spec fn decoded_byte(samples: Seq<i16>, k: int) -> u8 {
    packed_prefix(samples, k, 8)
}

/// The first `n` bytes read from the least-significant bits of the samples.
pub open spec fn decoded(samples: Seq<i16>, n: nat) -> Seq<u8> {
    Seq::new(n, |k: int| decoded_byte(samples, k))
}

/// What embedding `message` into `samples` gives.
pub open spec fn embed_outcome(samples: Seq<i16>, message: Seq<u8>) -> Result<
    Seq<i16>,
    StegoError,
> {
    if fits(10 + message.len() as int, samples.len() as int) {
        Ok(embedded(samples, frame_of(message)))
    } else {
        Err(StegoError::NotEnoughSamples)
    }
}

/// The payload length that a decoded header declares.
pub open spec fn declared_len(header: Seq<u8>) -> u32 {
    spec_u32_from_le_bytes(header.subrange(6, 10))
}

/// What extracting a message from `samples` gives.
pub open spec fn extract_outcome(samples: Seq<i16>) -> Result<Seq<u8>, StegoError> {
    let header = decoded(samples, 10);
    let len = declared_len(header) as int;
    if !fits(10, samples.len() as int) {
        Err(StegoError::NotEnoughSamples)
    } else if header.subrange(0, 4) != magic() {
        Err(StegoError::BadMagic)
    } else if header[4] != 1 {
        Err(StegoError::UnsupportedVersion(header[4]))
    } else if 10 + len > usize::MAX {
        Err(StegoError::LengthOutOfRange)
    } else if !fits(10 + len, samples.len() as int) {
        Err(StegoError::NotEnoughSamples)
    } else {
        Ok(decoded(samples, (10 + len) as nat).subrange(10, 10 + len))
    }
}

// ---------------------------------------------------------------------------
// Lemmas
// ---------------------------------------------------------------------------

proof fn lemma_with_lsb(s: i16, bit: u8)
    requires
        bit < 2,
    ensures
        sample_bit(with_lsb(s, bit)) == bit,
        with_lsb(s, bit) >> 1 == s >> 1,
{
    assert(((s & !1i16) | (bit as i16)) & 1i16 == bit as i16) by (bit_vector)
        requires
            bit < 2,
    ;
    assert(((s & !1i16) | (bit as i16)) >> 1 == s >> 1) by (bit_vector)
        requires
            bit < 2,
    ;
}

proof fn lemma_sample_bit_range(s: i16)
    ensures
        sample_bit(s) < 2,
{
    assert(((s & 1i16) as u8) < 2) by (bit_vector);
}

proof fn lemma_bit_range(x: u8, b: u8)
    ensures
        (x >> b) & 1u8 < 2,
{
    assert((x >> b) & 1u8 < 2) by (bit_vector);
}

/// Unfolds a decoded byte into the least-significant bits of its eight samples.
proof fn lemma_decoded_byte_bits(samples: Seq<i16>, k: int)
    ensures
        decoded_byte(samples, k) == sample_bit(samples[8 * k]) | (sample_bit(samples[8 * k + 1])
            << 1u8) | (sample_bit(samples[8 * k + 2]) << 2u8) | (sample_bit(samples[8 * k + 3])
            << 3u8) | (sample_bit(samples[8 * k + 4]) << 4u8) | (sample_bit(samples[8 * k + 5])
            << 5u8) | (sample_bit(samples[8 * k + 6]) << 6u8) | (sample_bit(samples[8 * k + 7])
            << 7u8),
{
    let b0 = sample_bit(samples[8 * k]);
    assert(packed_prefix(samples, k, 1) == b0) by {
        reveal_with_fuel(packed_prefix, 2);
        assert(0u8 | (b0 << 0u8) == b0) by (bit_vector);
    }
    assert(packed_prefix(samples, k, 2) == packed_prefix(samples, k, 1) | (sample_bit(
        samples[8 * k + 1],
    ) << 1u8));
    assert(packed_prefix(samples, k, 3) == packed_prefix(samples, k, 2) | (sample_bit(
        samples[8 * k + 2],
    ) << 2u8));
    assert(packed_prefix(samples, k, 4) == packed_prefix(samples, k, 3) | (sample_bit(
        samples[8 * k + 3],
    ) << 3u8));
    assert(packed_prefix(samples, k, 5) == packed_prefix(samples, k, 4) | (sample_bit(
        samples[8 * k + 4],
    ) << 4u8));
    assert(packed_prefix(samples, k, 6) == packed_prefix(samples, k, 5) | (sample_bit(
        samples[8 * k + 5],
    ) << 5u8));
    assert(packed_prefix(samples, k, 7) == packed_prefix(samples, k, 6) | (sample_bit(
        samples[8 * k + 6],
    ) << 6u8));
    assert(packed_prefix(samples, k, 8) == packed_prefix(samples, k, 7) | (sample_bit(
        samples[8 * k + 7],
    ) << 7u8));
}

/// A byte whose eight bits stand in the least-significant bits of samples
/// `8 * k .. 8 * k + 8` is decoded as that byte.
proof fn lemma_decode_byte(samples: Seq<i16>, k: int, x: u8)
    requires
        forall|i: int|
            8 * k <= i < 8 * k + 8 ==> sample_bit(#[trigger] samples[i]) == (x >> ((i - 8 * k) as u8))
                & 1u8,
    ensures
        decoded_byte(samples, k) == x,
{
    lemma_decoded_byte_bits(samples, k);
    let b0 = sample_bit(samples[8 * k]);
    let b1 = sample_bit(samples[8 * k + 1]);
    let b2 = sample_bit(samples[8 * k + 2]);
    let b3 = sample_bit(samples[8 * k + 3]);
    let b4 = sample_bit(samples[8 * k + 4]);
    let b5 = sample_bit(samples[8 * k + 5]);
    let b6 = sample_bit(samples[8 * k + 6]);
    let b7 = sample_bit(samples[8 * k + 7]);
    assert(b0 | (b1 << 1u8) | (b2 << 2u8) | (b3 << 3u8) | (b4 << 4u8) | (b5 << 5u8) | (b6 << 6u8)
        | (b7 << 7u8) == x) by (bit_vector)
        requires
            b0 == (x >> 0u8) & 1u8,
            b1 == (x >> 1u8) & 1u8,
            b2 == (x >> 2u8) & 1u8,
            b3 == (x >> 3u8) & 1u8,
            b4 == (x >> 4u8) & 1u8,
            b5 == (x >> 5u8) & 1u8,
            b6 == (x >> 6u8) & 1u8,
            b7 == (x >> 7u8) & 1u8,
    ;
}

/// Reading back the bytes written into the samples gives those bytes.
proof fn lemma_decode_embedded(samples: Seq<i16>, bytes: Seq<u8>, n: nat)
    requires
        n <= bytes.len(),
        fits(bytes.len() as int, samples.len() as int),
    ensures
        decoded(embedded(samples, bytes), n) == bytes.subrange(0, n as int),
{
    let e = embedded(samples, bytes);
    assert forall|k: int| 0 <= k < n implies decoded_byte(e, k) == bytes[k] by {
        assert forall|i: int| 8 * k <= i < 8 * k + 8 implies sample_bit(#[trigger] e[i]) == (
        bytes[k] >> ((i - 8 * k) as u8)) & 1u8 by {
            assert(i / 8 == k && i % 8 == i - 8 * k);
            lemma_bit_range(bytes[k], (i - 8 * k) as u8);
            lemma_with_lsb(samples[i], bit_of(bytes, i));
        }
        lemma_decode_byte(e, k, bytes[k]);
    }
    assert(decoded(e, n) =~= bytes.subrange(0, n as int));
}

// ---------------------------------------------------------------------------
// Guarantees
// ---------------------------------------------------------------------------

/// Writing bytes into the samples keeps their number, and keeps every bit of
/// every sample but the least-significant one, sign included.
pub proof fn lemma_high_bits_kept(samples: Seq<i16>, bytes: Seq<u8>)
    ensures
        embedded(samples, bytes).len() == samples.len(),
        forall|i: int|
            0 <= i < samples.len() ==> #[trigger] embedded(samples, bytes)[i] >> 1 == samples[i]
                >> 1,
{
    assert forall|i: int| 0 <= i < samples.len() implies #[trigger] embedded(samples, bytes)[i]
        >> 1 == samples[i] >> 1 by {
        if i < bytes.len() * 8 {
            lemma_bit_range(bytes[i / 8], (i % 8) as u8);
            lemma_with_lsb(samples[i], bit_of(bytes, i));
        }
    }
}

/// Extracting from samples into which a message was embedded gives the message
/// back, whenever the samples can hold its frame.
#[verifier::rlimit(60)]
pub proof fn lemma_round_trip(samples: Seq<i16>, message: Seq<u8>)
    requires
        message.len() <= u32::MAX,
        samples.len() <= usize::MAX,
        fits(10 + message.len() as int, samples.len() as int),
    ensures
        embed_outcome(samples, message) is Ok,
        extract_outcome(embed_outcome(samples, message)->Ok_0) == Ok::<Seq<u8>, StegoError>(
            message,
        ),
{
    let frame = frame_of(message);
    let len = message.len() as u32;
    lemma_auto_spec_u32_to_from_le_bytes();
    assert(frame.len() == 10 + message.len());
    let e = embedded(samples, frame);
    lemma_decode_embedded(samples, frame, 10);
    lemma_decode_embedded(samples, frame, frame.len());
    let header = decoded(e, 10);
    assert(header.subrange(0, 4) =~= magic());
    assert(header[4] == 1);
    assert(header.subrange(6, 10) =~= spec_u32_to_le_bytes(len));
    assert(declared_len(header) == len);
    assert(decoded(e, frame.len()).subrange(10, 10 + message.len() as int) =~= message);
}

/// Embedding fails, and fails for want of samples, exactly when the frame needs
/// more bits than there are samples; a frame that needs exactly as many bits as
/// there are samples is embedded.
pub proof fn lemma_capacity_boundary(samples: Seq<i16>, message: Seq<u8>)
    ensures
        embed_outcome(samples, message) is Err <==> (10 + message.len()) * 8 > samples.len(),
        embed_outcome(samples, message) is Err ==> embed_outcome(samples, message)
            == Err::<Seq<i16>, StegoError>(StegoError::NotEnoughSamples),
        (10 + message.len()) * 8 == samples.len() ==> embed_outcome(samples, message) is Ok,
{
}

/// Flipping the least-significant bit of any one of the samples that carry the
/// magic makes extraction fail with `BadMagic`.
pub proof fn lemma_magic_corruption(samples: Seq<i16>, message: Seq<u8>, j: int)
    requires
        message.len() <= u32::MAX,
        samples.len() <= usize::MAX,
        fits(10 + message.len() as int, samples.len() as int),
        0 <= j < 32,
    ensures
        ({
            let e = embed_outcome(samples, message)->Ok_0;
            extract_outcome(e.update(j, e[j] ^ 1i16)) == Err::<Seq<u8>, StegoError>(
                StegoError::BadMagic,
            )
        }),
{
    let frame = frame_of(message);
    let e = embedded(samples, frame);
    let f = e.update(j, e[j] ^ 1i16);
    let k = j / 8;
    lemma_auto_spec_u32_to_from_le_bytes();
    lemma_decode_embedded(samples, frame, 10);
    assert(decoded(e, 10)[k] == frame[k]);
    lemma_decoded_byte_bits(e, k);
    lemma_decoded_byte_bits(f, k);
    let a0 = sample_bit(e[8 * k]);
    let a1 = sample_bit(e[8 * k + 1]);
    let a2 = sample_bit(e[8 * k + 2]);
    let a3 = sample_bit(e[8 * k + 3]);
    let a4 = sample_bit(e[8 * k + 4]);
    let a5 = sample_bit(e[8 * k + 5]);
    let a6 = sample_bit(e[8 * k + 6]);
    let a7 = sample_bit(e[8 * k + 7]);
    let c0 = sample_bit(f[8 * k]);
    let c1 = sample_bit(f[8 * k + 1]);
    let c2 = sample_bit(f[8 * k + 2]);
    let c3 = sample_bit(f[8 * k + 3]);
    let c4 = sample_bit(f[8 * k + 4]);
    let c5 = sample_bit(f[8 * k + 5]);
    let c6 = sample_bit(f[8 * k + 6]);
    let c7 = sample_bit(f[8 * k + 7]);
    let s = e[j];
    assert(sample_bit(s ^ 1i16) != sample_bit(s)) by (bit_vector);
    assert forall|b: int| 0 <= b < 8 && 8 * k + b != j implies sample_bit(#[trigger] f[8 * k + b])
        == sample_bit(e[8 * k + b]) by {}
    lemma_sample_bit_range(e[8 * k]);
    lemma_sample_bit_range(e[8 * k + 1]);
    lemma_sample_bit_range(e[8 * k + 2]);
    lemma_sample_bit_range(e[8 * k + 3]);
    lemma_sample_bit_range(e[8 * k + 4]);
    lemma_sample_bit_range(e[8 * k + 5]);
    lemma_sample_bit_range(e[8 * k + 6]);
    lemma_sample_bit_range(e[8 * k + 7]);
    lemma_sample_bit_range(f[8 * k]);
    lemma_sample_bit_range(f[8 * k + 1]);
    lemma_sample_bit_range(f[8 * k + 2]);
    lemma_sample_bit_range(f[8 * k + 3]);
    lemma_sample_bit_range(f[8 * k + 4]);
    lemma_sample_bit_range(f[8 * k + 5]);
    lemma_sample_bit_range(f[8 * k + 6]);
    lemma_sample_bit_range(f[8 * k + 7]);
    assert(a0 != c0 || a1 != c1 || a2 != c2 || a3 != c3 || a4 != c4 || a5 != c5 || a6 != c6 || a7
        != c7);
    assert(a0 | (a1 << 1u8) | (a2 << 2u8) | (a3 << 3u8) | (a4 << 4u8) | (a5 << 5u8) | (a6 << 6u8)
        | (a7 << 7u8) != c0 | (c1 << 1u8) | (c2 << 2u8) | (c3 << 3u8) | (c4 << 4u8) | (c5 << 5u8)
        | (c6 << 6u8) | (c7 << 7u8)) by (bit_vector)
        requires
            a0 < 2 && a1 < 2 && a2 < 2 && a3 < 2 && a4 < 2 && a5 < 2 && a6 < 2 && a7 < 2,
            c0 < 2 && c1 < 2 && c2 < 2 && c3 < 2 && c4 < 2 && c5 < 2 && c6 < 2 && c7 < 2,
            a0 != c0 || a1 != c1 || a2 != c2 || a3 != c3 || a4 != c4 || a5 != c5 || a6 != c6 || a7
                != c7,
    ;
    let header = decoded(f, 10);
    assert(header[k] != magic()[k]);
    assert(header.subrange(0, 4)[k] == header[k]);
}

/// Forcing the version byte of an embedded frame to any value other than 1
/// makes extraction fail with `UnsupportedVersion` carrying that value.
pub proof fn lemma_version_gate(samples: Seq<i16>, message: Seq<u8>, v: u8)
    requires
        message.len() <= u32::MAX,
        samples.len() <= usize::MAX,
        fits(10 + message.len() as int, samples.len() as int),
        v != 1,
    ensures
        extract_outcome(with_byte_at(embed_outcome(samples, message)->Ok_0, 4, v)) == Err::<
            Seq<u8>,
            StegoError,
        >(StegoError::UnsupportedVersion(v)),
{
    let frame = frame_of(message);
    let e = embedded(samples, frame);
    let forced = frame.update(4, v);
    let f = with_byte_at(e, 4, v);
    lemma_auto_spec_u32_to_from_le_bytes();
    assert forall|i: int| 0 <= i < f.len() implies f[i] == #[trigger] embedded(samples, forced)[i] by {
        if i < frame.len() * 8 {
            assert(i / 8 == 4 <==> 32 <= i < 40);
            if 32 <= i < 40 {
                assert(i % 8 == i - 32);
                lemma_bit_range(v, (i - 32) as u8);
                lemma_bit_range(frame[i / 8], (i % 8) as u8);
                assert(with_lsb(with_lsb(samples[i], bit_of(frame, i)), (v >> ((i - 32) as u8)) & 1u8)
                    == with_lsb(samples[i], bit_of(forced, i))) by {
                    let s = samples[i];
                    let a = bit_of(frame, i);
                    let c = bit_of(forced, i);
                    assert(with_lsb(with_lsb(s, a), c) == with_lsb(s, c)) by (bit_vector)
                        requires
                            a < 2,
                            c < 2,
                    ;
                }
            }
        }
    }
    assert(f =~= embedded(samples, forced));
    lemma_decode_embedded(samples, forced, 10);
    assert(decoded(f, 10)[4] == v);
    assert(decoded(f, 10).subrange(0, 4) =~= magic());
}

// ---------------------------------------------------------------------------
// Frame codec
// ---------------------------------------------------------------------------

/// The frame that carries `message`.
fn build_frame(message: &[u8]) -> (r: Vec<u8>)
    requires
        message@.len() <= u32::MAX,
    ensures
        r@ == frame_of(message@),
        r@.len() == 10 + message@.len(),
{
    proof {
        lemma_auto_spec_u32_to_from_le_bytes();
    }
    let mut out: Vec<u8> = Vec::new();
    out.extend_from_slice(MAGIC.as_slice());
    out.push(VERSION);
    out.push(0u8);
    let len_bytes = u32_to_le_bytes(message.len() as u32);
    out.extend_from_slice(len_bytes.as_slice());
    out.extend_from_slice(message);
    assert(out@ =~= frame_of(message@));
    out
}

fn validate_magic(m: &[u8]) -> (r: Result<(), StegoError>)
    requires
        m@.len() == 4,
    ensures
        r is Ok <==> m@ == magic(),
        r is Err ==> r == Err::<(), StegoError>(StegoError::BadMagic),
{
    let mut i: usize = 0;
    while i < 4
        invariant
            i <= 4,
            m@.len() == 4,
            m@.subrange(0, i as int) == magic().subrange(0, i as int),
        decreases 4 - i,
    {
        if m[i] != MAGIC[i] {
            assert(m@[i as int] != magic()[i as int]);
            return Err(StegoError::BadMagic);
        }
        assert(m@.subrange(0, i + 1) =~= magic().subrange(0, i + 1));
        i += 1;
    }
    assert(m@ =~= m@.subrange(0, 4));
    assert(magic() =~= magic().subrange(0, 4));
    Ok(())
}

fn validate_version(v: u8) -> (r: Result<(), StegoError>)
    ensures
        r is Ok <==> v == 1,
        r is Err ==> r == Err::<(), StegoError>(StegoError::UnsupportedVersion(v)),
{
    if v == VERSION {
        Ok(())
    } else {
        Err(StegoError::UnsupportedVersion(v))
    }
}

// ---------------------------------------------------------------------------
// Bit channel
// ---------------------------------------------------------------------------

/// How many bytes `num_samples` samples can carry.
fn byte_capacity(num_samples: usize) -> (r: usize)
    ensures
        forall|n: int| #[trigger] fits(n, num_samples as int) <==> n <= r,
{
    let r = num_samples / 8;
    assert forall|n: int| #[trigger] fits(n, num_samples as int) <==> n <= r by {
        assert(n * 8 <= num_samples <==> n <= num_samples / 8) by (nonlinear_arith);
    }
    r
}

/// Whether `num_bytes` bytes fit into `num_samples` samples.
fn has_capacity(num_bytes: usize, num_samples: usize) -> (r: bool)
    ensures
        r == fits(num_bytes as int, num_samples as int),
{
    num_bytes <= byte_capacity(num_samples)
}

/// Bit `i` of the bit stream of `frame`.
fn frame_bit(frame: &[u8], i: usize) -> (r: u8)
    requires
        i < frame@.len() * 8,
    ensures
        r == bit_of(frame@, i as int),
        r < 2,
{
    let r = (frame[i / 8] >> ((i % 8) as u8)) & 1;
    proof {
        lemma_bit_range(frame@[i as int / 8], (i % 8) as u8);
    }
    r
}

/// The sample with its least-significant bit replaced by `bit`.
fn set_lsb(s: i16, bit: u8) -> (r: i16)
    requires
        bit < 2,
    ensures
        r == with_lsb(s, bit),
{
    let cleared = s & !1;
    cleared | (bit as i16)
}

/// Reads `num_bytes` bytes from the least-significant bits of the samples.
fn read_bytes_from_lsb(samples: &[i16], num_bytes: usize) -> (r: Result<Vec<u8>, StegoError>)
    ensures
        r is Ok <==> fits(num_bytes as int, samples@.len() as int),
        r is Ok ==> r->Ok_0@ == decoded(samples@, num_bytes as nat),
        r is Err ==> r == Err::<Vec<u8>, StegoError>(StegoError::NotEnoughSamples),
{
    if !has_capacity(num_bytes, samples.len()) {
        return Err(StegoError::NotEnoughSamples);
    }
    let num_samples = samples.len();
    let mut out: Vec<u8> = Vec::new();
    let mut k: usize = 0;
    while k < num_bytes
        invariant
            k <= num_bytes,
            num_samples == samples@.len(),
            num_bytes * 8 <= samples@.len(),
            out@ == decoded(samples@, k as nat),
        decreases num_bytes - k,
    {
        let base = 8 * k;
        let mut byte: u8 = 0;
        let mut b: u8 = 0;
        while b < 8
            invariant
                b <= 8,
                base == 8 * k,
                base + 8 <= samples@.len(),
                byte == packed_prefix(samples@, k as int, b as nat),
            decreases 8 - b,
        {
            let bit = (samples[base + b as usize] & 1) as u8;
            byte = byte | (bit << b);
            b += 1;
        }
        out.push(byte);
        assert(out@ =~= decoded(samples@, (k + 1) as nat));
        k += 1;
    }
    Ok(out)
}

// ---------------------------------------------------------------------------
// Embed and extract
// ---------------------------------------------------------------------------

/// Embeds the frame of `message` into the least-significant bits of the samples.
///
/// Fails with `NotEnoughSamples`, before any sample is changed, when the frame
/// needs more bits than there are samples.
pub fn embed_lsb(samples: Vec<i16>, message: &[u8]) -> (r: Result<Vec<i16>, StegoError>)
    requires
        message@.len() <= u32::MAX,
    ensures
        r is Ok <==> fits(10 + message@.len() as int, samples@.len() as int),
        r is Ok ==> embed_outcome(samples@, message@) == Ok::<Seq<i16>, StegoError>(r->Ok_0@),
        r is Err ==> r == Err::<Vec<i16>, StegoError>(StegoError::NotEnoughSamples),
{
    let mut samples = samples;
    let capacity = byte_capacity(samples.len());
    if capacity < HEADER_LEN || message.len() > capacity - HEADER_LEN {
        return Err(StegoError::NotEnoughSamples);
    }
    assert(fits(10 + message@.len() as int, samples@.len() as int));
    let frame = build_frame(message);
    let total_bits = frame.len() * 8;
    let ghost original = samples@;
    for i in 0..total_bits
        invariant
            total_bits == frame@.len() * 8,
            total_bits <= original.len(),
            samples@.len() == original.len(),
            forall|j: int|
                0 <= j < i ==> samples@[j] == with_lsb(original[j], bit_of(frame@, j)),
            forall|j: int| i <= j < original.len() ==> samples@[j] == original[j],
    {
        let bit = frame_bit(frame.as_slice(), i);
        let s = samples[i];
        samples.set(i, set_lsb(s, bit));
    }
    assert(samples@ =~= embedded(original, frame_of(message@)));
    Ok(samples)
}

/// Extracts and validates the framed message carried by the least-significant
/// bits of the samples.
///
/// The header is read and checked first; the whole frame is then read with the
/// length the header declares, and its header checked again against the first.
pub fn extract_lsb(samples: &[i16]) -> (r: Result<Vec<u8>, StegoError>)
    ensures
        r is Ok ==> extract_outcome(samples@) == Ok::<Seq<u8>, StegoError>(r->Ok_0@),
        r is Err ==> extract_outcome(samples@) == Err::<Seq<u8>, StegoError>(r->Err_0),
{
    if !has_capacity(HEADER_LEN, samples.len()) {
        return Err(StegoError::NotEnoughSamples);
    }
    let header = read_bytes_from_lsb(samples, HEADER_LEN)?;
    validate_magic(slice_subrange(header.as_slice(), 0, 4))?;
    validate_version(header[4])?;
    // header[5] holds the reserved flags
    let len = u32_from_le_bytes(slice_subrange(header.as_slice(), 6, 10)) as usize;

    let total_bytes = match HEADER_LEN.checked_add(len) {
        Some(n) => n,
        None => return Err(StegoError::LengthOutOfRange),
    };
    if !has_capacity(total_bytes, samples.len()) {
        return Err(StegoError::NotEnoughSamples);
    }
    let mut frame = read_bytes_from_lsb(samples, total_bytes)?;
    assert(frame@.subrange(0, 4) =~= header@.subrange(0, 4));
    assert(frame@.subrange(6, 10) =~= header@.subrange(6, 10));
    validate_magic(slice_subrange(frame.as_slice(), 0, 4))?;
    validate_version(frame[4])?;
    let frame_len = u32_from_le_bytes(slice_subrange(frame.as_slice(), 6, 10)) as usize;
    if frame_len != len {
        // the header and the frame disagree: the samples were corrupted
        return Err(StegoError::LengthOutOfRange);
    }
    let payload = frame.split_off(HEADER_LEN);
    Ok(payload)
}

} // verus!
