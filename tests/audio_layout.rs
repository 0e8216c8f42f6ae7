use numbers_station::audio::{gap_samples, render_beeps, tone_samples, wav_mono_i16_bytes};

fn marker_tones() -> Vec<Vec<i16>> {
    (0..10).map(|d| vec![100 + d as i16; 3]).collect()
}

#[test]
fn durations_at_common_rates() {
    assert_eq!(tone_samples(44_100), 5_292);
    assert_eq!(gap_samples(44_100), 2_646);
    assert_eq!(tone_samples(8_000), 960);
    assert_eq!(gap_samples(8_000), 480);
    assert_eq!(tone_samples(u32::MAX), 515_396_075);
}

#[test]
fn digits_beep_and_others_are_silent() {
    // at 50 samples per second the gap is 3 samples
    let out = render_beeps("1 x9", 50, &marker_tones());
    let mut expected = vec![101, 101, 101, 0, 0, 0];
    expected.extend([0, 0, 0]);
    expected.extend([0, 0, 0]);
    expected.extend([109, 109, 109, 0, 0, 0]);
    assert_eq!(out, expected);
}

#[test]
fn empty_sequence_renders_nothing() {
    assert!(render_beeps("", 44_100, &marker_tones()).is_empty());
}

#[test]
fn non_ascii_characters_are_one_gap_each() {
    let out = render_beeps("é٣", 50, &marker_tones());
    assert_eq!(out, vec![0i16; 6]);
}

#[test]
fn station_sequence_length() {
    // 30 digits and 34 spaces at 44.1 kHz
    let out = render_beeps(
        "0 3 6 4 5  0 2 2 6 8  2 0 0 8 9  6 6 3 7 3  0 9 6 7 9  9 4 2 1 5",
        44_100,
        &marker_tones(),
    );
    assert_eq!(out.len(), 30 * (3 + 2_646) + 34 * 2_646);
}

#[test]
fn wav_header_and_samples() {
    let bytes = wav_mono_i16_bytes(8_000, &[1, -2, 0x1234]);
    let mut expected: Vec<u8> = Vec::new();
    expected.extend(b"RIFF");
    expected.extend(42u32.to_le_bytes());
    expected.extend(b"WAVE");
    expected.extend(b"fmt ");
    expected.extend(16u32.to_le_bytes());
    expected.extend(1u16.to_le_bytes());
    expected.extend(1u16.to_le_bytes());
    expected.extend(8_000u32.to_le_bytes());
    expected.extend(16_000u32.to_le_bytes());
    expected.extend(2u16.to_le_bytes());
    expected.extend(16u16.to_le_bytes());
    expected.extend(b"data");
    expected.extend(6u32.to_le_bytes());
    expected.extend([0x01, 0x00, 0xfe, 0xff, 0x34, 0x12]);
    assert_eq!(bytes, expected);
}

#[test]
fn wav_of_no_samples_is_a_bare_header() {
    let bytes = wav_mono_i16_bytes(44_100, &[]);
    assert_eq!(bytes.len(), 44);
    assert_eq!(&bytes[4..8], &36u32.to_le_bytes());
    assert_eq!(&bytes[28..32], &88_200u32.to_le_bytes());
    assert_eq!(&bytes[40..44], &0u32.to_le_bytes());
}
