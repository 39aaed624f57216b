//! Timer arithmetic. Reading the `time` counter is the platform's job;
//! these functions turn a tick count into wall-clock units and compute the
//! next tick to program into the firmware timer.
use vstd::prelude::*;

use crate::config::{CLOCK_FREQ, MICRO_PER_SEC, MSEC_PER_SEC, TICKS_PER_SEC};

verus! {

/// Wall-clock time split into seconds and microseconds, as the
/// `gettimeofday` call returns it.
#[derive(Clone, Copy, Debug, PartialEq, Eq, Structural)]
pub struct TimeVal {
    /// Whole seconds since power-up.
    pub sec: u64,
    /// Microseconds within the current second.
    pub usec: u64,
}

impl TimeVal {
    /// The zero instant.
    pub fn new() -> (r: TimeVal)
        ensures
            r.sec == 0 && r.usec == 0,
    {
        TimeVal { sec: 0, usec: 0 }
    }

    /// The instant a reading of `ticks` denotes.
    pub fn from_ticks(ticks: u64) -> (r: TimeVal)
        ensures
            r.sec == ticks / (CLOCK_FREQ / MICRO_PER_SEC) / 1_000_000,
            r.usec == ticks / (CLOCK_FREQ / MICRO_PER_SEC) % 1_000_000,
            r.usec < 1_000_000,
    {
        let us = ticks / (CLOCK_FREQ / MICRO_PER_SEC);
        TimeVal { sec: us / 1_000_000, usec: us % 1_000_000 }
    }
}

/// Milliseconds since power-up for a reading of `ticks`.
pub fn get_time_ms(ticks: u64) -> (r: u64)
    ensures
        r == ticks / (CLOCK_FREQ / MSEC_PER_SEC),
{
    ticks / (CLOCK_FREQ / MSEC_PER_SEC)
}

/// Microseconds since power-up for a reading of `ticks`.
pub fn get_time_us(ticks: u64) -> (r: u64)
    ensures
        r == ticks / (CLOCK_FREQ / MICRO_PER_SEC),
{
    ticks / (CLOCK_FREQ / MICRO_PER_SEC)
}

/// The deadline to program into the firmware timer so that the next tick
/// arrives one scheduling quantum after the reading `now`.
pub fn set_next_trigger(now: u64) -> (deadline: u64)
    requires
        now + CLOCK_FREQ / TICKS_PER_SEC <= u64::MAX,
    ensures
        deadline == now + CLOCK_FREQ / TICKS_PER_SEC,
{
    now + CLOCK_FREQ / TICKS_PER_SEC
}

} // verus!
