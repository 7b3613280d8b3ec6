use whisper_ct2::errors::kind_from_chain;
use whisper_ct2::preprocessor::{
    check_feature_buffer, reflect_pad_chunk, window_count, Preprocessor, PreprocessorConfig,
};
use whisper_ct2::time::{frame_time, units_per_second};

fn base_config() -> PreprocessorConfig {
    PreprocessorConfig {
        feature_size: 2,
        hop_length: 4,
        n_fft: 8,
        n_samples: 64,
        nb_max_frames: 16,
        sampling_rate: 16,
        mel_filter_rows: None,
    }
}

fn load(config: &PreprocessorConfig) -> Result<Preprocessor, String> {
    Preprocessor::from_config(config, "dir/preprocessor_config.json").map_err(|e| e.message())
}

fn tiny_preprocessor() -> Preprocessor {
    load(&base_config()).expect("consistent config loads")
}

#[test]
fn seconds_per_encoder_frame_matches_whisper_default() {
    let dt = frame_time(160) as f64 / units_per_second(16_000) as f64;
    assert!((dt - 0.02).abs() < 1e-9, "got {dt}");
}

#[test]
fn reflect_pad_chunk_mirrors_edges_without_repeating_them() {
    let chunk = [1.0, 2.0, 3.0, 4.0, 5.0, 6.0];
    let padded = reflect_pad_chunk(&chunk, 8, 4, 0.0);
    assert_eq!(&padded[..4], &[5.0, 4.0, 3.0, 2.0]);
    assert_eq!(&padded[4..10], &chunk);
    assert_eq!(&padded[10..12], &[0.0, 0.0]);
    assert_eq!(&padded[12..], &[0.0, 6.0, 5.0, 4.0]);
}

#[test]
fn reflect_pad_chunk_reflects_into_zeros_for_tiny_chunks() {
    let padded = reflect_pad_chunk(&[0.5], 8, 4, 0.0);
    assert_eq!(&padded[..5], &[0.0, 0.0, 0.0, 0.0, 0.5]);

    let padded = reflect_pad_chunk(&[1.0, 2.0, 3.0], 8, 4, 0.0);
    assert_eq!(&padded[..4], &[0.0, 0.0, 3.0, 2.0]);
}

#[test]
fn load_rejects_zero_numeric_fields_naming_the_field() {
    let cases: [(&str, fn(&mut PreprocessorConfig)); 6] = [
        ("feature_size", |c| c.feature_size = 0),
        ("hop_length", |c| c.hop_length = 0),
        ("n_fft", |c| c.n_fft = 0),
        ("n_samples", |c| c.n_samples = 0),
        ("nb_max_frames", |c| c.nb_max_frames = 0),
        ("sampling_rate", |c| c.sampling_rate = 0),
    ];
    for (field, clear) in cases {
        let mut config = base_config();
        clear(&mut config);
        let msg = load(&config).expect_err("zero field must fail at load");
        assert!(msg.contains(field), "error must name {field}, got: {msg}");
        assert_eq!(msg, format!("{field} must be positive in dir/preprocessor_config.json"));
    }
}

#[test]
fn load_rejects_mel_filters_shape_mismatch() {
    let config = PreprocessorConfig { mel_filter_rows: Some(vec![4, 4]), ..base_config() };
    let msg = load(&config).expect_err("shape mismatch must fail at load");
    assert!(msg.contains("mel_filters"), "got: {msg}");
    assert!(
        msg.contains("[2, 4]") && msg.contains("[2, 5]"),
        "got: {msg}"
    );
}

#[test]
fn load_rejects_ragged_mel_filters_rows() {
    let config = PreprocessorConfig { mel_filter_rows: Some(vec![5, 4]), ..base_config() };
    let msg = load(&config).expect_err("ragged rows must fail at load");
    assert!(msg.contains("mel_filters"));
    assert!(msg.contains("row 1"), "got: {msg}");
}

#[test]
fn load_accepts_a_consistent_config() {
    let config = PreprocessorConfig { mel_filter_rows: Some(vec![5; 2]), ..base_config() };
    let preprocessor = load(&config).expect("consistent config loads");
    assert_eq!(preprocessor.feature_size, 2);
    assert_eq!(preprocessor.n_fft / 2 + 1, 5);
    assert_eq!(preprocessor.n_samples, 64);
}

#[test]
fn load_rejects_frames_that_do_not_fill_the_window() {
    let config = PreprocessorConfig { nb_max_frames: 15, ..base_config() };
    let msg = load(&config).expect_err("frames must fit");
    assert!(msg.contains("nb_max_frames 15 is not n_samples / hop_length = 16"), "got: {msg}");
}

#[test]
fn load_rejects_windows_and_filterbanks_over_the_buffer_cap() {
    let config = PreprocessorConfig {
        n_samples: 600_000_000,
        nb_max_frames: 150_000_000,
        ..base_config()
    };
    assert!(load(&config).expect_err("window too long").contains("n_samples"));

    let config = PreprocessorConfig { feature_size: 60_000_000, ..base_config() };
    assert!(load(&config).expect_err("filterbank too large").contains("mel filterbank"));
}

#[test]
fn audio_is_cut_into_windows_and_frames() {
    let preprocessor = tiny_preprocessor();
    assert_eq!(window_count(0, 64), 0);
    assert_eq!(window_count(64, 64), 1);
    assert_eq!(window_count(65, 64), 2);
    let samples: Vec<i32> = (1..=70).collect();
    let padded = preprocessor.padded_window(&samples, 1, 0);
    assert_eq!(padded.len(), 72);
    assert_eq!(&padded[..10], &[69, 68, 67, 66, 65, 66, 67, 68, 69, 70]);
    assert_eq!(preprocessor.frame_start(3), 12);
    assert_eq!(preprocessor.frame(&padded, 0), vec![69, 68, 67, 66, 65, 66, 67, 68]);
    assert_eq!(preprocessor.frame(&padded, 15).len(), 8);
}

#[test]
fn feature_buffers_are_counted_against_the_cap() {
    assert_eq!(check_feature_buffer(3, 80, 3000).unwrap(), 720_000);
    assert_eq!(check_feature_buffer(5, 0, 3000).unwrap(), 0);
    assert_eq!(check_feature_buffer(1, 1 << 29, 1).unwrap(), 1 << 29);

    let err = check_feature_buffer(1, (1 << 29) + 1, 1).unwrap_err();
    assert_eq!(kind_from_chain(&err), Some("invalid_request"));
    assert_eq!(
        err.message(),
        "batch feature buffer 2147483652 bytes exceeds 2147483648 byte cap; split the input \
         into smaller transcribe_batch calls"
    );
    let err = check_feature_buffer(u128::MAX, 80, 3000).unwrap_err();
    assert_eq!(kind_from_chain(&err), Some("invalid_request"));
    assert!(err.message().starts_with("batch feature buffer size overflows usize (total_chunks=3402"));
    assert!(err.message().ends_with("n_mels=80, chunk_length=3000)"));
}
