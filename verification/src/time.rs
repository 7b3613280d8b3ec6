//! Exact audio time.
//!
//! A time is a whole number of units, one hundredth of a sample period
//! each. Every instant the crate computes with is a whole number of them:
//! sample positions, encoder frames (two hops), the 20 ms steps of
//! timestamp tokens, and the half and tenth seconds of the word rules.

use vstd::prelude::*;

verus! {

/// An instant that no audio and no timestamp token comes near. Times up to
/// it can be added up without overflow.
pub const FAR: u128 = 0x1_0000_0000_0000_0000_0000_0000_0000;

/// How many units a second has.
pub open spec fn second_of(sampling_rate: nat) -> nat {
    100 * sampling_rate
}

/// How many units a second has.
pub fn units_per_second(sampling_rate: usize) -> (r: u128)
    ensures
        r == second_of(sampling_rate as nat),
{
    100 * (sampling_rate as u128)
}

/// The time that `n` samples take.
pub open spec fn samples_of(n: nat) -> nat {
    100 * n
}

/// The time that `n` samples take.
pub fn sample_time(n: usize) -> (r: u128)
    ensures
        r == samples_of(n as nat),
{
    100 * (n as u128)
}

/// The time of one encoder frame. The encoder halves the frame rate of the
/// features, so a frame covers two hops.
pub open spec fn frame_of(hop_length: nat) -> nat {
    200 * hop_length
}

/// The time of one encoder frame.
pub fn frame_time(hop_length: usize) -> (r: u128)
    ensures
        r == frame_of(hop_length as nat),
{
    200 * (hop_length as u128)
}

/// The time of `n` steps of 20 ms each.
pub open spec fn timestamp_of(n: nat, sampling_rate: nat) -> nat {
    n * (2 * sampling_rate)
}

/// The time of `n` steps of 20 ms each.
pub fn timestamp_time(n: u32, sampling_rate: usize) -> (r: u128)
    ensures
        r == timestamp_of(n as nat, sampling_rate as nat),
{
    let step: u128 = 2 * (sampling_rate as u128);
    assert(0 <= n * step <= 0xffff_ffff * 0x1_ffff_ffff_ffff_fffe) by (nonlinear_arith)
        requires
            0 <= n <= 0xffff_ffff,
            0 <= step <= 0x1_ffff_ffff_ffff_fffe,
    ;
    (n as u128) * step
}

/// A second is fifty timestamp steps.
pub proof fn law_second_is_fifty_steps(sampling_rate: nat)
    ensures
        timestamp_of(50, sampling_rate) == second_of(sampling_rate),
{
}

/// A second of samples lasts a second, and a frame as long as two hops of
/// samples.
pub proof fn law_samples_and_frames_agree(sampling_rate: nat, hop_length: nat)
    ensures
        samples_of(sampling_rate) == second_of(sampling_rate),
        frame_of(hop_length) == samples_of(hop_length + hop_length),
{
}

/// Times add up: so many samples or steps and so many more take the time of
/// all of them together. A sample takes time.
pub proof fn law_times_add_up(a: nat, b: nat, sampling_rate: nat)
    ensures
        samples_of(a + b) == samples_of(a) + samples_of(b),
        timestamp_of(a + b, sampling_rate) == timestamp_of(a, sampling_rate) + timestamp_of(
            b,
            sampling_rate,
        ),
        samples_of(1) > 0,
{
    let step = 2 * sampling_rate;
    assert((a + b) * step == a * step + b * step) by (nonlinear_arith);
}

} // verus!
