use whisper_ct2::batch::{
    compute_chunk_offsets, encoder_frames_for_chunk, plan_batch, reject_empty, window_samples,
    window_start_time, Place,
};
use whisper_ct2::errors::kind_from_chain;
use whisper_ct2::preprocessor::Preprocessor;

fn tiny_preprocessor() -> Preprocessor {
    Preprocessor {
        feature_size: 80,
        hop_length: 160,
        n_fft: 400,
        n_samples: 480_000,
        nb_max_frames: 3_000,
        sampling_rate: 16_000,
    }
}

#[test]
fn compute_chunk_offsets_is_a_prefix_sum() {
    assert_eq!(compute_chunk_offsets(&[]), vec![0]);
    assert_eq!(compute_chunk_offsets(&[3]), vec![0, 3]);
    let offsets = compute_chunk_offsets(&[2, 5, 1]);
    assert_eq!(offsets, vec![0, 2, 7, 8]);

    let ranges: Vec<_> = (0..3).map(|i| offsets[i]..offsets[i + 1]).collect();
    assert_eq!(ranges[0].clone().collect::<Vec<_>>(), vec![0, 1]);
    assert_eq!(ranges[1].clone().collect::<Vec<_>>(), vec![2, 3, 4, 5, 6]);
    assert_eq!(ranges[2].clone().collect::<Vec<_>>(), vec![7]);
}

#[test]
fn encoder_frames_for_chunk_clamps_to_nb_max_frames() {
    let preprocessor = tiny_preprocessor();
    assert_eq!(encoder_frames_for_chunk(480_000, 0, &preprocessor), 3000);
    assert_eq!(encoder_frames_for_chunk(8_000, 0, &preprocessor), 50);
    assert_eq!(encoder_frames_for_chunk(560_000, 1, &preprocessor), 500);
    assert_eq!(encoder_frames_for_chunk(480_000, 5, &preprocessor), 1);
}

#[test]
fn audios_are_cut_into_windows() {
    let batch = plan_batch(vec![480_001, 1, 0, 480_000], &tiny_preprocessor()).unwrap();
    assert_eq!(batch.offsets, vec![0, 2, 3, 3, 4]);
    let place = |audio, window| Place { audio, window };
    assert_eq!(batch.places, vec![place(0, 0), place(0, 1), place(1, 0), place(3, 0)]);
    assert_eq!(batch.lengths, vec![480_001, 1, 0, 480_000]);
    for (g, p) in batch.places.iter().enumerate() {
        assert_eq!(batch.offsets[p.audio] + p.window, g);
    }
}

#[test]
fn a_batch_over_the_buffer_cap_is_refused_on_its_lengths() {
    let preprocessor = tiny_preprocessor();
    // One chunk takes 960 kB; 2236 of them are the most that fit 2 GiB.
    assert!(plan_batch(vec![2236 * 480_000], &preprocessor).is_ok());
    let err = plan_batch(vec![2237 * 480_000], &preprocessor).unwrap_err();
    assert_eq!(kind_from_chain(&err), Some("invalid_request"));
    assert_eq!(
        err.message(),
        "batch feature buffer 2147520000 bytes exceeds 2147483648 byte cap; \
         split the input into smaller transcribe_batch calls"
    );
}

#[test]
fn a_batch_whose_size_overflows_is_refused() {
    let preprocessor = Preprocessor { n_samples: 160, nb_max_frames: 1, ..tiny_preprocessor() };
    let err = plan_batch(vec![usize::MAX; 3], &preprocessor).unwrap_err();
    assert_eq!(kind_from_chain(&err), Some("invalid_request"));
    let message = err.message();
    assert!(message.starts_with("batch feature buffer size overflows usize (total_chunks="));
    assert!(message.ends_with(", n_mels=80, chunk_length=1)"));
}

#[test]
fn an_empty_batch_has_no_chunks() {
    let batch = plan_batch(Vec::new(), &tiny_preprocessor()).unwrap();
    assert_eq!(batch.offsets, vec![0]);
    assert!(batch.places.is_empty());
}

#[test]
fn an_audio_without_samples_is_refused() {
    assert!(reject_empty(&[1, 2]).is_ok());
    assert!(reject_empty(&[]).is_ok());
    let err = reject_empty(&[1, 0]).unwrap_err();
    assert_eq!(err.message(), "building mel chunks: samples buffer is empty");
    assert_eq!(kind_from_chain(&err), None);
}

#[test]
fn windows_cover_an_audio() {
    assert_eq!(window_samples(10, 4, 0), 4);
    assert_eq!(window_samples(10, 4, 2), 2);
    assert_eq!(window_samples(10, 4, 3), 0);
    assert_eq!(window_samples(10, usize::MAX, usize::MAX), 0);
    assert_eq!(window_start_time(480_000, 2), 96_000_000);
}
