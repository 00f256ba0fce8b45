//! Calibration of the time-stamp counter against a fixed interval of the
//! legacy PIT's channel 2. The port I/O and the TSC reads stay at the edge;
//! the frequency follows from the two timestamps.

use vstd::prelude::*;

verus! {

/// PIT input clock and the channel-2 count of the calibration interval (~10 ms).
pub const PIT_HZ: u64 = 1_193_182;
pub const PIT_COUNT: u64 = 11_932;

/// TSC frequency from the ticks counted across the calibration interval, or
/// 0 when the result is outside the plausible 50 MHz .. 20 GHz range.
pub open spec fn tsc_hz_spec(t0: u64, t1: u64) -> u64 {
    let delta = ((t1 - t0) % 0x1_0000_0000_0000_0000) as int;
    let prod = if delta * PIT_HZ > u64::MAX { u64::MAX as int } else { delta * PIT_HZ };
    let hz = prod / PIT_COUNT as int;
    if 50_000_000 <= hz <= 20_000_000_000 {
        hz as u64
    } else {
        0
    }
}

/// The TSC frequency from timestamps `t0` and `t1` read across the interval.
pub fn tsc_hz_from_ticks(t0: u64, t1: u64) -> (hz: u64)
    ensures
        hz == tsc_hz_spec(t0, t1),
{
    let delta = t1.wrapping_sub(t0);
    let prod = match delta.checked_mul(PIT_HZ) {
        Some(p) => p,
        None => u64::MAX,
    };
    let hz = prod / PIT_COUNT;
    if 50_000_000 <= hz && hz <= 20_000_000_000 {
        hz
    } else {
        0
    }
}

} // verus!
