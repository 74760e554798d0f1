use waveform::{
    denoise_sample, generate_waveform_with_denoise, simple_denoise, WaveformError,
};

#[test]
fn gate_zeroes_quiet_samples() {
    assert_eq!(denoise_sample(10, 15), 0);
    assert_eq!(denoise_sample(-10, 15), 0);
    assert_eq!(denoise_sample(0, 15), 0);
}

#[test]
fn gate_keeps_loud_samples() {
    assert_eq!(denoise_sample(90, 15), 90);
    assert_eq!(denoise_sample(-95, 15), -95);
    assert_eq!(denoise_sample(i64::MIN, i64::MAX), i64::MIN);
}

#[test]
fn gate_keeps_samples_at_the_threshold() {
    assert_eq!(denoise_sample(15, 15), 15);
    assert_eq!(denoise_sample(-15, 15), -15);
}

#[test]
fn negative_threshold_disables_gate() {
    let samples: Vec<i64> = vec![0, 1, -1, 7];
    assert_eq!(simple_denoise(&samples, -3), samples);
    assert_eq!(simple_denoise(&samples, 0), samples);
}

#[test]
fn denoise_preserves_order_and_length() {
    let samples: Vec<i64> = vec![10, 5, 90, -95, 20];
    let denoised = simple_denoise(&samples, 15);
    assert_eq!(denoised, vec![0, 0, 90, -95, 20]);
}

#[test]
fn mixed_signal_summary() {
    let samples: Vec<i64> = vec![10, 5, 90, -95, 20];
    let mut out: Vec<u64> = vec![7, 7];
    let result = generate_waveform_with_denoise(&samples, 2, 15, &mut out);
    assert_eq!(result, Ok(()));
    assert_eq!(out, vec![0, 95]);
}

#[test]
fn more_points_than_samples_gives_all_zeros() {
    let samples: Vec<i64> = vec![1, -2, 3];
    let mut out: Vec<u64> = vec![9, 9, 9, 9, 9];
    let result = generate_waveform_with_denoise(&samples, 5, 0, &mut out);
    assert_eq!(result, Ok(()));
    assert_eq!(out, vec![0, 0, 0, 0, 0]);
}

#[test]
fn zero_point_count_is_refused() {
    let samples: Vec<i64> = vec![3];
    let mut out: Vec<u64> = vec![1];
    let result = generate_waveform_with_denoise(&samples, 0, 1, &mut out);
    assert_eq!(result, Err(WaveformError::InvalidPointCount));
    assert_eq!(out, vec![1]);
}

#[test]
fn output_length_mismatch_is_refused() {
    let samples: Vec<i64> = vec![3, 4];
    let mut out: Vec<u64> = vec![1, 1, 1];
    let result = generate_waveform_with_denoise(&samples, 2, 1, &mut out);
    assert_eq!(result, Err(WaveformError::LengthMismatch));
    assert_eq!(out, vec![1, 1, 1]);
}

#[test]
fn remainder_samples_fall_outside_buckets() {
    let samples: Vec<i64> = vec![1, 2, 100];
    let mut out: Vec<u64> = vec![0, 0];
    let result = generate_waveform_with_denoise(&samples, 2, 0, &mut out);
    assert_eq!(result, Ok(()));
    assert_eq!(out, vec![1, 2]);
}

#[test]
fn even_split_covers_whole_buffer() {
    let samples: Vec<i64> = vec![1, -2, 3, -4];
    let mut out: Vec<u64> = vec![0, 0];
    let result = generate_waveform_with_denoise(&samples, 2, 0, &mut out);
    assert_eq!(result, Ok(()));
    assert_eq!(out, vec![2, 4]);
}

#[test]
fn gate_runs_before_peak_reduction() {
    let samples: Vec<i64> = vec![7, -7];
    let mut out: Vec<u64> = vec![5];
    let result = generate_waveform_with_denoise(&samples, 1, 8, &mut out);
    assert_eq!(result, Ok(()));
    assert_eq!(out, vec![0]);
}

#[test]
fn extreme_negative_sample_has_its_full_magnitude() {
    let samples: Vec<i64> = vec![i64::MIN];
    let mut out: Vec<u64> = vec![0];
    let result = generate_waveform_with_denoise(&samples, 1, 0, &mut out);
    assert_eq!(result, Ok(()));
    assert_eq!(out, vec![9223372036854775808]);
}

#[test]
fn empty_buffer_gives_all_zeros() {
    let samples: Vec<i64> = Vec::new();
    let mut out: Vec<u64> = vec![4, 4];
    let result = generate_waveform_with_denoise(&samples, 2, 10, &mut out);
    assert_eq!(result, Ok(()));
    assert_eq!(out, vec![0, 0]);
}
