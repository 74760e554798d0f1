//! Compact waveform summaries of integer-amplitude sample buffers.
//!
//! The kernel suppresses low-amplitude noise with an elementwise gate and
//! then reduces the buffer to a fixed number of display points by taking
//! the peak absolute amplitude inside each contiguous time bucket.
//! Amplitudes are plain signed integers (for example fixed-point audio
//! samples); peaks are reported as unsigned magnitudes.

use vstd::pervasive::VecAdditionalExecFns;
use vstd::prelude::*;

verus! {

/// Absolute value of an amplitude.
pub open spec fn abs_amp(x: int) -> int {
    if x < 0 {
        -x
    } else {
        x
    }
}

/// The larger of two amplitudes.
pub open spec fn max_amp(a: int, b: int) -> int {
    if a < b {
        b
    } else {
        a
    }
}

/// The noise gate: a sample whose magnitude lies below the threshold is
/// silenced to zero; every other sample passes through unchanged.
pub open spec fn gate_sample(x: int, threshold: int) -> int {
    if abs_amp(x) < threshold {
        0
    } else {
        x
    }
}

/// The whole buffer after the noise gate, element by element.
pub open spec fn gated_seq(samples: Seq<i64>, threshold: int) -> Seq<int> {
    samples.map_values(|x: i64| gate_sample(x as int, threshold))
}

/// Silences one sample when its magnitude lies below the threshold.
pub fn denoise_sample(x: i64, threshold: i64) -> (r: i64)
    ensures
        r as int == gate_sample(x as int, threshold as int),
{
    if threshold > 0 && -threshold < x && x < threshold {
        0
    } else {
        x
    }
}

/// Applies the noise gate to a whole buffer, preserving order and length.
pub fn simple_denoise(samples: &Vec<i64>, threshold: i64) -> (denoised: Vec<i64>)
    ensures
        denoised@.len() == samples@.len(),
        forall|i: int|
            0 <= i < samples@.len() ==> denoised@[i] as int == gate_sample(
                samples@[i] as int,
                threshold as int,
            ),
{
    let mut denoised: Vec<i64> = Vec::new();
    let mut idx: usize = 0;
    while idx < samples.len()
        invariant
            idx <= samples@.len(),
            denoised@.len() == idx,
            forall|i: int|
                0 <= i < idx ==> denoised@[i] as int == gate_sample(
                    samples@[i] as int,
                    threshold as int,
                ),
        decreases samples@.len() - idx,
    {
        denoised.push(denoise_sample(samples[idx], threshold));
        idx = idx + 1;
    }
    denoised
}

/// How many samples one bucket spans: the buffer length divided by the
/// number of display points, rounded down.
pub open spec fn chunk_len(n: int, p: int) -> int
    recommends
        p > 0,
{
    n / p
}

/// First sample index of bucket `i`.
pub open spec fn bucket_start(n: int, p: int, i: int) -> int {
    i * chunk_len(n, p)
}

/// One past the last sample index of bucket `i`, clamped to the buffer.
pub open spec fn bucket_end(n: int, p: int, i: int) -> int {
    if (i + 1) * chunk_len(n, p) < n {
        (i + 1) * chunk_len(n, p)
    } else {
        n
    }
}

/// The largest absolute amplitude among `s[from..to]`, or 0 when the
/// range is empty.
pub open spec fn peak_abs(s: Seq<int>, from: int, to: int) -> int
    recommends
        0 <= from,
        to <= s.len(),
    decreases to - from,
{
    if to <= from {
        0
    } else {
        max_amp(peak_abs(s, from, to - 1), abs_amp(s[to - 1]))
    }
}

/// The summary value of bucket `i`: the peak absolute amplitude of the
/// gated buffer inside the bucket's index range.
pub open spec fn bucket_peak(samples: Seq<i64>, threshold: int, p: int, i: int) -> int {
    peak_abs(
        gated_seq(samples, threshold),
        bucket_start(samples.len() as int, p, i),
        bucket_end(samples.len() as int, p, i),
    )
}

/// The magnitude of a sample, wide enough to hold every `i64` value.
fn abs_amplitude(x: i64) -> (r: u64)
    ensures
        r as int == abs_amp(x as int),
{
    if x >= 0 {
        x as u64
    } else if x == i64::MIN {
        9223372036854775808u64
    } else {
        (-x) as u64
    }
}

/// Bucket index ranges stay inside the buffer: for every bucket `i` of
/// `p`, the start is non-negative and the unclamped end is at most `n`.
proof fn lemma_bucket_in_buffer(n: int, p: int, i: int)
    requires
        0 <= n,
        0 < p,
        0 <= i < p,
    ensures
        0 <= i * chunk_len(n, p),
        i * chunk_len(n, p) <= (i + 1) * chunk_len(n, p),
        (i + 1) * chunk_len(n, p) <= n,
        bucket_start(n, p, i) == i * chunk_len(n, p),
        bucket_end(n, p, i) == (i + 1) * chunk_len(n, p),
{
    let cs = chunk_len(n, p);
    vstd::arithmetic::div_mod::lemma_div_pos_is_pos(n, p);
    vstd::arithmetic::mul::lemma_mul_nonnegative(i, cs);
    vstd::arithmetic::mul::lemma_mul_inequality(i, i + 1, cs);
    vstd::arithmetic::mul::lemma_mul_inequality(i + 1, p, cs);
    vstd::arithmetic::mul::lemma_mul_is_commutative(p, cs);
    vstd::arithmetic::div_mod::lemma_remainder_lower(n, p);
}

/// Why a waveform request is refused.
#[derive(Clone, Copy, Debug, PartialEq, Eq, Structural)]
pub enum WaveformError {
    /// The requested number of display points is zero.
    InvalidPointCount,
    /// The output buffer's length differs from the requested point count.
    LengthMismatch,
}

/// Fills the caller-owned output buffer with a waveform summary: the
/// sample buffer is noise-gated at `denoise_threshold`, split into
/// `target_points` contiguous buckets of `len / target_points` samples,
/// and each output slot receives the peak absolute amplitude of its
/// bucket (0 for an empty bucket).
///
/// Fails without touching the output buffer when `target_points` is zero
/// or the output buffer's length is not exactly `target_points`.
pub fn generate_waveform_with_denoise(
    samples: &Vec<i64>,
    target_points: usize,
    denoise_threshold: i64,
    out_waveform: &mut Vec<u64>,
) -> (result: Result<(), WaveformError>)
    ensures
        result is Ok <==> (target_points > 0 && old(out_waveform)@.len() == target_points),
        result == Err::<(), WaveformError>(WaveformError::InvalidPointCount) <==> target_points
            == 0,
        result == Err::<(), WaveformError>(WaveformError::LengthMismatch) <==> (target_points > 0
            && old(out_waveform)@.len() != target_points),
        result is Err ==> final(out_waveform)@ == old(out_waveform)@,
        result is Ok ==> final(out_waveform)@.len() == target_points,
        result is Ok ==> forall|i: int|
            0 <= i < target_points ==> final(out_waveform)@[i] as int == bucket_peak(
                samples@,
                denoise_threshold as int,
                target_points as int,
                i,
            ),
{
    if target_points == 0 {
        return Err(WaveformError::InvalidPointCount);
    }
    if out_waveform.len() != target_points {
        return Err(WaveformError::LengthMismatch);
    }
    let denoised = simple_denoise(samples, denoise_threshold);
    let n: usize = denoised.len();
    let chunk_size: usize = n / target_points;
    let ghost gated = gated_seq(samples@, denoise_threshold as int);
    let mut i: usize = 0;
    while i < target_points
        invariant
            0 < target_points,
            i <= target_points,
            n == samples@.len(),
            n == denoised@.len(),
            chunk_size == chunk_len(n as int, target_points as int),
            gated == gated_seq(samples@, denoise_threshold as int),
            gated.len() == n,
            forall|j: int| 0 <= j < n ==> gated[j] == denoised@[j] as int,
            out_waveform@.len() == target_points,
            forall|k: int|
                0 <= k < i ==> out_waveform@[k] as int == bucket_peak(
                    samples@,
                    denoise_threshold as int,
                    target_points as int,
                    k,
                ),
        decreases target_points - i,
    {
        proof {
            lemma_bucket_in_buffer(n as int, target_points as int, i as int);
        }
        let start: usize = i * chunk_size;
        let unclamped: usize = (i + 1) * chunk_size;
        let end: usize = if unclamped < n {
            unclamped
        } else {
            n
        };
        let mut peak: u64 = 0;
        let mut j: usize = start;
        while j < end
            invariant
                start <= j <= end,
                end <= n,
                n == denoised@.len(),
                gated.len() == n,
                forall|k: int| 0 <= k < n ==> gated[k] == denoised@[k] as int,
                peak as int == peak_abs(gated, start as int, j as int),
            decreases end - j,
        {
            let a: u64 = abs_amplitude(denoised[j]);
            if a > peak {
                peak = a;
            }
            j = j + 1;
        }
        out_waveform.set(i, peak);
        i = i + 1;
    }
    Ok(())
}

/// Gating law: a sample whose magnitude lies below the threshold is
/// silenced to zero, and every other sample passes through unchanged.
/// For a nonzero sample the two cases are exclusive: its gate output is
/// zero exactly when its magnitude lies below the threshold.  (A zero
/// sample is zero either way, so the equivalence is stated only for
/// nonzero samples.)
pub proof fn lemma_gate_zeroing(x: int, threshold: int)
    ensures
        abs_amp(x) < threshold ==> gate_sample(x, threshold) == 0,
        abs_amp(x) >= threshold ==> gate_sample(x, threshold) == x,
        x != 0 ==> (gate_sample(x, threshold) == 0 <==> abs_amp(x) < threshold),
{
}

/// Non-negativity law: a bucket's summary value is never negative, since
/// it is either a maximum of absolute amplitudes or the neutral value 0.
pub proof fn lemma_peak_abs_nonneg(s: Seq<int>, from: int, to: int)
    ensures
        peak_abs(s, from, to) >= 0,
    decreases to - from,
{
    if to > from {
        lemma_peak_abs_nonneg(s, from, to - 1);
    }
}

/// The peak is a true maximum: it bounds the absolute amplitude of every
/// sample in the range, it is attained by some sample whenever the range
/// is non-empty, and it is the neutral value 0 for an empty range.
pub proof fn lemma_peak_abs_is_max(s: Seq<int>, from: int, to: int)
    requires
        0 <= from,
        to <= s.len(),
    ensures
        forall|k: int| from <= k < to ==> abs_amp(s[k]) <= peak_abs(s, from, to),
        from < to ==> exists|k: int| from <= k < to && peak_abs(s, from, to) == abs_amp(s[k]),
        to <= from ==> peak_abs(s, from, to) == 0,
    decreases to - from,
{
    if from < to {
        lemma_peak_abs_is_max(s, from, to - 1);
        let sub = peak_abs(s, from, to - 1);
        if sub < abs_amp(s[to - 1]) {
            assert(peak_abs(s, from, to) == abs_amp(s[to - 1]));
        } else {
            lemma_peak_abs_nonneg(s, from, to - 1);
            if from < to - 1 {
                let w = choose|k: int| from <= k < to - 1 && sub == abs_amp(s[k]);
                assert(from <= w < to && peak_abs(s, from, to) == abs_amp(s[w]));
            } else {
                assert(peak_abs(s, from, to) == abs_amp(s[to - 1]));
            }
        }
    }
}

/// Partition law: for a positive point count the bucket ranges begin at
/// index 0, are non-decreasing, adjacent (each range ends where the next
/// begins, so they neither overlap nor leave gaps between each other),
/// and stay inside the buffer.  Together they span exactly the first
/// `p * (n / p)` samples, so any division remainder at the tail of the
/// buffer falls outside every bucket.
pub proof fn lemma_buckets_partition(n: int, p: int)
    requires
        0 <= n,
        0 < p,
    ensures
        bucket_start(n, p, 0) == 0,
        forall|i: int| 0 <= i < p ==> bucket_start(n, p, i) <= bucket_end(n, p, i),
        forall|i: int| 0 <= i < p - 1 ==> bucket_end(n, p, i) == bucket_start(n, p, i + 1),
        forall|i: int| 0 <= i < p ==> bucket_end(n, p, i) <= n,
        bucket_end(n, p, p - 1) == p * chunk_len(n, p),
        n - p * chunk_len(n, p) == n % p,
{
    assert forall|i: int| 0 <= i < p implies bucket_start(n, p, i) <= bucket_end(n, p, i)
        && bucket_end(n, p, i) <= n by {
        lemma_bucket_in_buffer(n, p, i);
    }
    assert forall|i: int| 0 <= i < p - 1 implies bucket_end(n, p, i) == bucket_start(
        n,
        p,
        i + 1,
    ) by {
        lemma_bucket_in_buffer(n, p, i);
    }
    lemma_bucket_in_buffer(n, p, p - 1);
    vstd::arithmetic::div_mod::lemma_fundamental_div_mod(n, p);
}

/// Holds when sample index `k` lies inside at least one of the `p`
/// bucket ranges of a buffer of length `n`.
pub open spec fn covered_by_some_bucket(n: int, p: int, k: int) -> bool {
    exists|i: int| 0 <= i < p && #[trigger] bucket_start(n, p, i) <= k < bucket_end(n, p, i)
}

/// Coverage law: when the point count divides the buffer length evenly,
/// the bucket ranges tile the whole buffer — every sample index lies in
/// some bucket, and the last bucket ends exactly at the buffer's end.
/// (With a division remainder the trailing `n % p` samples lie outside
/// every bucket, so the law is stated for the even case.)
pub proof fn lemma_buckets_cover(n: int, p: int)
    requires
        0 <= n,
        0 < p,
        n % p == 0,
    ensures
        bucket_end(n, p, p - 1) == n,
        forall|k: int| 0 <= k < n ==> #[trigger] covered_by_some_bucket(n, p, k),
{
    lemma_buckets_partition(n, p);
    let cs = chunk_len(n, p);
    assert forall|k: int| 0 <= k < n implies #[trigger] covered_by_some_bucket(n, p, k) by {
        vstd::arithmetic::div_mod::lemma_div_pos_is_pos(n, p);
        vstd::arithmetic::div_mod::lemma_fundamental_div_mod(n, p);
        if cs == 0 {
            vstd::arithmetic::mul::lemma_mul_basics(p);
        }
        let i = k / cs;
        vstd::arithmetic::div_mod::lemma_fundamental_div_mod(k, cs);
        vstd::arithmetic::div_mod::lemma_mod_bound(k, cs);
        vstd::arithmetic::div_mod::lemma_div_pos_is_pos(k, cs);
        vstd::arithmetic::mul::lemma_mul_is_commutative(p, cs);
        vstd::arithmetic::mul::lemma_mul_is_commutative(i, cs);
        vstd::arithmetic::mul::lemma_mul_is_commutative(i + 1, cs);
        vstd::arithmetic::mul::lemma_mul_is_distributive_add(cs, i, 1);
        vstd::arithmetic::mul::lemma_mul_basics(cs);
        if i >= p {
            vstd::arithmetic::mul::lemma_mul_inequality(p, i, cs);
        }
        lemma_bucket_in_buffer(n, p, i);
        assert(0 <= i < p && bucket_start(n, p, i) <= k < bucket_end(n, p, i));
    }
}

} // verus!
