use whisper_ct2::pcm::{decode_pcm_f32, is_finite};

fn bytes_of(samples: &[f32]) -> Vec<u8> {
    samples.iter().flat_map(|v| v.to_le_bytes()).collect()
}

#[test]
fn decode_pcm_f32_round_trips_samples() {
    let mut bytes = Vec::new();
    for v in [0.0_f32, 1.0, -1.0, 0.5, -0.25] {
        bytes.extend_from_slice(&v.to_le_bytes());
    }
    let decoded: Vec<f32> = decode_pcm_f32(&bytes)
        .unwrap()
        .into_iter()
        .map(f32::from_bits)
        .collect();
    assert_eq!(decoded, vec![0.0, 1.0, -1.0, 0.5, -0.25]);
}

#[test]
fn decode_pcm_f32_rejects_misaligned_length() {
    let err = decode_pcm_f32(&[1, 2, 3]).unwrap_err();
    assert_eq!(err.reason(), "invalid_request");
    assert_eq!(err.detail("byte_length"), Some("3"));
}

#[test]
fn every_finite_sample_keeps_its_bits() {
    let samples = [f32::MIN, f32::MAX, f32::MIN_POSITIVE, -0.0, 1.0e-45, 3.25];
    let decoded = decode_pcm_f32(&bytes_of(&samples)).unwrap();
    let expected: Vec<u32> = samples.iter().map(|v| v.to_bits()).collect();
    assert_eq!(decoded, expected);
    assert!(decode_pcm_f32(&[]).unwrap().is_empty());
}

#[test]
fn samples_that_are_no_numbers_are_rejected() {
    for bad in [f32::NAN, f32::INFINITY, f32::NEG_INFINITY] {
        let err = decode_pcm_f32(&bytes_of(&[0.5, bad, 0.5])).unwrap_err();
        assert_eq!(err.reason(), "invalid_request");
        assert!(err.message().contains("NaN or infinity"));
    }
}

#[test]
fn finiteness_is_that_of_the_number() {
    for value in [0.0_f32, -1.0, f32::MAX, f32::MIN_POSITIVE, f32::NAN, f32::INFINITY] {
        assert_eq!(is_finite(value.to_bits()), value.is_finite());
    }
    assert!(!is_finite(0xffc0_0001));
}
