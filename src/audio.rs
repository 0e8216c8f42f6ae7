//! Cover audio for the station: the layout of beeps and silences for a
//! sequence of characters, and the bytes of a mono 16-bit PCM WAV file.
use vstd::bytes::{spec_u16_to_le_bytes, spec_u32_to_le_bytes, u16_to_le_bytes, u32_to_le_bytes};
use vstd::prelude::*;

verus! {

/// Length of a digit's tone, in milliseconds.
const TONE_MS: u64 = 120;

/// Length of the silence after each character, in milliseconds.
const GAP_MS: u64 = 60;

const RIFF_TAG: [u8; 4] = [0x52, 0x49, 0x46, 0x46];

const WAVE_TAG: [u8; 4] = [0x57, 0x41, 0x56, 0x45];

const FMT_TAG: [u8; 4] = [0x66, 0x6d, 0x74, 0x20];

const DATA_TAG: [u8; 4] = [0x64, 0x61, 0x74, 0x61];

/// Number of samples in a digit's tone at `sample_rate` samples per second.
pub open spec fn tone_len(sample_rate: u32) -> nat {
    (sample_rate * 120 / 1000) as nat
}

/// Number of silent samples after each character at `sample_rate` samples per second.
pub open spec fn gap_len(sample_rate: u32) -> nat {
    (sample_rate * 60 / 1000) as nat
}

/// `n` zero samples.
pub open spec fn silence(n: nat) -> Seq<i16> {
    Seq::new(n, |i: int| 0i16)
}

pub open spec fn is_digit(c: char) -> bool {
    '0' <= c <= '9'
}

/// The samples for one character: a digit's tone then a gap, or a gap alone.
pub open spec fn char_beeps(c: char, tones: Seq<Seq<i16>>, gap: nat) -> Seq<i16> {
    if is_digit(c) {
        tones[c as int - 48] + silence(gap)
    } else {
        silence(gap)
    }
}

/// The samples for a sequence of characters, one after another.
pub open spec fn beeps(chars: Seq<char>, tones: Seq<Seq<i16>>, gap: nat) -> Seq<i16>
    decreases chars.len(),
{
    if chars.len() == 0 {
        Seq::empty()
    } else {
        beeps(chars.drop_last(), tones, gap) + char_beeps(chars.last(), tones, gap)
    }
}

/// Number of samples in a digit's tone at `sample_rate` samples per second.
pub fn tone_samples(sample_rate: u32) -> (r: usize)
    ensures
        r == tone_len(sample_rate),
{
    (sample_rate as u64 * TONE_MS / 1000) as usize
}

/// Number of silent samples after each character at `sample_rate` samples per second.
pub fn gap_samples(sample_rate: u32) -> (r: usize)
    ensures
        r == gap_len(sample_rate),
{
    (sample_rate as u64 * GAP_MS / 1000) as usize
}

/// Renders a sequence as beeps: each decimal digit `d` gives `tones[d]` followed
/// by a gap of silence, every other character a gap of silence alone.
pub fn render_beeps(sequence: &str, sample_rate: u32, tones: &[Vec<i16>]) -> (r: Vec<i16>)
    requires
        tones@.len() == 10,
    ensures
        r@ == beeps(sequence@, tones.deep_view(), gap_len(sample_rate)),
{
    let gap = gap_samples(sample_rate);
    let ghost tone_views = tones.deep_view();
    let mut out: Vec<i16> = Vec::new();
    for ch in it: sequence.chars()
        invariant
            tones@.len() == 10,
            tone_views == tones.deep_view(),
            gap == gap_len(sample_rate),
            it.seq() == sequence@,
            out@ == beeps(sequence@.take(it.index() as int), tone_views, gap as nat),
    {
        let ghost idx = it.index() as int;
        let ghost before = out@;
        assert(ch == sequence@[idx]);
        if '0' <= ch && ch <= '9' {
            let d = (ch as u32 - '0' as u32) as usize;
            out.extend_from_slice(tones[d].as_slice());
            assert(out@ =~= before + tone_views[d as int]);
        }
        let ghost sounded = out@;
        let mut k: usize = 0;
        while k < gap
            invariant
                k <= gap,
                out@ == sounded + silence(k as nat),
            decreases gap - k,
        {
            out.push(0i16);
            k += 1;
            assert(out@ =~= sounded + silence(k as nat));
        }
        assert(out@ =~= before + char_beeps(ch, tone_views, gap as nat));
        assert(sequence@.take(idx + 1).drop_last() =~= sequence@.take(idx));
    }
    assert(sequence@.take(sequence@.len() as int) =~= sequence@);
    out
}

/// The 44-byte header of a mono 16-bit PCM WAV file holding `num_samples`
/// samples at `sample_rate` samples per second.
pub open spec fn wav_header(sample_rate: u32, num_samples: nat) -> Seq<u8> {
    let data_bytes = (2 * num_samples) as u32;
    seq![0x52u8, 0x49u8, 0x46u8, 0x46u8] + spec_u32_to_le_bytes((36 + data_bytes) as u32) + seq![
        0x57u8,
        0x41u8,
        0x56u8,
        0x45u8,
    ] + seq![0x66u8, 0x6du8, 0x74u8, 0x20u8] + spec_u32_to_le_bytes(16) + spec_u16_to_le_bytes(1)
        + spec_u16_to_le_bytes(1) + spec_u32_to_le_bytes(sample_rate) + spec_u32_to_le_bytes(
        (sample_rate * 2) as u32,
    ) + spec_u16_to_le_bytes(2) + spec_u16_to_le_bytes(16) + seq![0x64u8, 0x61u8, 0x74u8, 0x61u8]
        + spec_u32_to_le_bytes(data_bytes)
}

/// A sample as two little-endian bytes.
pub open spec fn sample_le_bytes(s: i16) -> Seq<u8> {
    seq![((s as u16) & 0xffu16) as u8, ((s as u16) >> 8u16) as u8]
}

/// The samples as little-endian bytes, one after another.
pub open spec fn pcm_bytes(samples: Seq<i16>) -> Seq<u8>
    decreases samples.len(),
{
    if samples.len() == 0 {
        Seq::empty()
    } else {
        pcm_bytes(samples.drop_last()) + sample_le_bytes(samples.last())
    }
}

/// The bytes of a mono 16-bit PCM WAV file holding the samples.
pub open spec fn wav_file(sample_rate: u32, samples: Seq<i16>) -> Seq<u8> {
    wav_header(sample_rate, samples.len()) + pcm_bytes(samples)
}

/// Serialises mono 16-bit samples as a canonical PCM WAV file.
pub fn wav_mono_i16_bytes(sample_rate: u32, samples: &[i16]) -> (r: Vec<u8>)
    requires
        36 + 2 * samples@.len() <= u32::MAX,
        2 * sample_rate <= u32::MAX,
    ensures
        r@ == wav_file(sample_rate, samples@),
{
    let num_channels: u16 = 1;
    let bits_per_sample: u16 = 16;
    // one channel of two-byte samples
    let block_align: u16 = 2;
    let byte_rate: u32 = sample_rate * block_align as u32;
    let data_bytes = (samples.len() * 2) as u32;
    let riff_chunk_size = 36 + data_bytes;

    let mut out: Vec<u8> = Vec::new();
    out.extend_from_slice(RIFF_TAG.as_slice());
    out.extend_from_slice(u32_to_le_bytes(riff_chunk_size).as_slice());
    out.extend_from_slice(WAVE_TAG.as_slice());
    out.extend_from_slice(FMT_TAG.as_slice());
    out.extend_from_slice(u32_to_le_bytes(16).as_slice());
    out.extend_from_slice(u16_to_le_bytes(1).as_slice());
    out.extend_from_slice(u16_to_le_bytes(num_channels).as_slice());
    out.extend_from_slice(u32_to_le_bytes(sample_rate).as_slice());
    out.extend_from_slice(u32_to_le_bytes(byte_rate).as_slice());
    out.extend_from_slice(u16_to_le_bytes(block_align).as_slice());
    out.extend_from_slice(u16_to_le_bytes(bits_per_sample).as_slice());
    out.extend_from_slice(DATA_TAG.as_slice());
    out.extend_from_slice(u32_to_le_bytes(data_bytes).as_slice());
    assert(out@ =~= wav_header(sample_rate, samples@.len()));

    let ghost header = out@;
    let num_samples = samples.len();
    let mut i: usize = 0;
    while i < num_samples
        invariant
            i <= num_samples,
            num_samples == samples@.len(),
            out@ == header + pcm_bytes(samples@.take(i as int)),
        decreases num_samples - i,
    {
        let u = #[verifier::truncate] (samples[i] as u16);
        out.push(#[verifier::truncate] ((u & 0xff) as u8));
        out.push(#[verifier::truncate] ((u >> 8) as u8));
        assert(samples@.take(i + 1).drop_last() =~= samples@.take(i as int));
        assert(out@ =~= header + pcm_bytes(samples@.take(i + 1)));
        i += 1;
    }
    assert(samples@.take(num_samples as int) =~= samples@);
    out
}

} // verus!
