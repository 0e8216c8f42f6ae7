use numbers_station::stego::{embed_lsb, extract_lsb, StegoError};

/// Writes `bytes` into the least-significant bits of `samples`, bit 0 of each byte first.
fn write_bits(samples: &mut [i16], bytes: &[u8]) {
    for (k, byte) in bytes.iter().enumerate() {
        for b in 0..8 {
            let i = 8 * k + b;
            samples[i] = (samples[i] & !1) | ((byte >> b) & 1) as i16;
        }
    }
}

/// Reads `n` bytes from the least-significant bits of `samples`.
fn read_bits(samples: &[i16], n: usize) -> Vec<u8> {
    let mut out = vec![0u8; n];
    for i in 0..n * 8 {
        out[i / 8] |= ((samples[i] & 1) as u8) << (i % 8);
    }
    out
}

fn varied_samples(n: usize) -> Vec<i16> {
    (0..n).map(|i| ((i as i64 * 7919 - 30_000) % 32_000) as i16).collect()
}

#[test]
fn silent_buffer_carries_hi() {
    let encoded = embed_lsb(vec![0i16; 100_000], b"HI").expect("embed should succeed");
    assert_eq!(encoded.len(), 100_000);
    assert_eq!(extract_lsb(&encoded), Ok(b"HI".to_vec()));
}

#[test]
fn small_buffer_cannot_carry_hi() {
    assert_eq!(embed_lsb(vec![0i16; 50], b"HI"), Err(StegoError::NotEnoughSamples));
}

#[test]
fn frame_layout_is_exact() {
    let encoded = embed_lsb(vec![0i16; 200], b"HI").expect("embed should succeed");
    assert_eq!(
        read_bits(&encoded, 12),
        vec![b'N', b'S', b'0', b'1', 1, 0, 2, 0, 0, 0, b'H', b'I']
    );
    // bit 0 of 'N' (0x4e) is 0, bit 1 is 1
    assert_eq!(encoded[0], 0);
    assert_eq!(encoded[1], 1);
    // samples past the frame are untouched
    assert!(encoded[96..].iter().all(|&s| s == 0));
}

#[test]
fn capacity_boundary_is_exact() {
    let message = b"boundary";
    let needed = (10 + message.len()) * 8;
    let encoded = embed_lsb(vec![0i16; needed], message).expect("exact fit should succeed");
    assert_eq!(extract_lsb(&encoded), Ok(message.to_vec()));
    assert_eq!(embed_lsb(vec![0i16; needed - 1], message), Err(StegoError::NotEnoughSamples));
}

#[test]
fn embedding_keeps_the_high_bits() {
    let original = varied_samples(1_000);
    let encoded = embed_lsb(original.clone(), b"keep the signal").expect("embed should succeed");
    assert_eq!(encoded.len(), original.len());
    for (a, b) in original.iter().zip(encoded.iter()) {
        assert_eq!(a >> 1, b >> 1);
    }
    assert_eq!(&encoded[200..], &original[200..]);
    assert_eq!(extract_lsb(&encoded), Ok(b"keep the signal".to_vec()));
}

#[test]
fn empty_message_round_trips() {
    let encoded = embed_lsb(varied_samples(80), b"").expect("embed should succeed");
    assert_eq!(extract_lsb(&encoded), Ok(Vec::new()));
}

#[test]
fn negative_samples_round_trip() {
    let samples = vec![i16::MIN, -1, -2, i16::MAX].repeat(40);
    let encoded = embed_lsb(samples, b"neg").expect("embed should succeed");
    assert_eq!(extract_lsb(&encoded), Ok(b"neg".to_vec()));
}

#[test]
fn every_magic_bit_flip_is_detected() {
    let encoded = embed_lsb(varied_samples(400), b"payload").expect("embed should succeed");
    for j in 0..32 {
        let mut corrupted = encoded.clone();
        corrupted[j] ^= 1;
        assert_eq!(extract_lsb(&corrupted), Err(StegoError::BadMagic));
    }
}

#[test]
fn version_byte_is_gated() {
    let encoded = embed_lsb(varied_samples(400), b"payload").expect("embed should succeed");
    for v in [0u8, 2, 0x80, 0xff] {
        let mut forced = encoded.clone();
        write_bits(&mut forced[32..40], &[v]);
        assert_eq!(extract_lsb(&forced), Err(StegoError::UnsupportedVersion(v)));
    }
}

#[test]
fn flags_are_not_interpreted() {
    let mut samples = vec![0i16; 200];
    write_bits(&mut samples, &[b'N', b'S', b'0', b'1', 1, 0xa5, 3, 0, 0, 0, 7, 8, 9]);
    assert_eq!(extract_lsb(&samples), Ok(vec![7, 8, 9]));
}

#[test]
fn extract_needs_a_whole_header() {
    let encoded = embed_lsb(vec![0i16; 200], b"x").expect("embed should succeed");
    assert_eq!(extract_lsb(&encoded[..79]), Err(StegoError::NotEnoughSamples));
    assert_eq!(extract_lsb(&[]), Err(StegoError::NotEnoughSamples));
}

#[test]
fn extract_needs_the_declared_payload() {
    let encoded = embed_lsb(vec![0i16; 200], b"four").expect("embed should succeed");
    assert_eq!(extract_lsb(&encoded[..111]), Err(StegoError::NotEnoughSamples));
    assert_eq!(extract_lsb(&encoded[..112]), Ok(b"four".to_vec()));

    let mut samples = vec![0i16; 200];
    write_bits(&mut samples, &[b'N', b'S', b'0', b'1', 1, 0, 0xff, 0xff, 0xff, 0xff]);
    assert_eq!(extract_lsb(&samples), Err(StegoError::NotEnoughSamples));
}

#[test]
fn silent_buffer_is_not_a_frame() {
    assert_eq!(extract_lsb(&vec![0i16; 1_000]), Err(StegoError::BadMagic));
}
