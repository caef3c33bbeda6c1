//! Timing figures that applications attach to their periodic output.
use vstd::prelude::*;

verus! {

/// The time from `since` to `now`, or 0 where `now` is earlier.
pub open spec fn elapsed(since: u64, now: u64) -> u64 {
    if now >= since {
        (now - since) as u64
    } else {
        0
    }
}

/// Relies on std::time::SystemTime::now: the current time, in microseconds
/// since the Unix epoch (0 for a clock set before it). Nothing is promised of
/// the value.
#[verifier::external_body]
fn system_micros() -> u64 {
    match std::time::SystemTime::now().duration_since(std::time::UNIX_EPOCH) {
        Ok(d) => d.as_micros() as u64,
        Err(_) => 0,
    }
}

/// The time now, in microseconds, on the clock that the bus and the timing
/// figures read.
pub fn now() -> u64 {
    system_micros()
}

/// `elapsed` in executable form.
pub fn elapsed_between(since: u64, now: u64) -> (r: u64)
    ensures
        r == elapsed(since, now),
{
    if now >= since {
        now - since
    } else {
        0
    }
}

/// Rate and duration of a periodic activity. All times are in microseconds,
/// on a clock that the caller reads.
#[derive(Debug, Clone, Copy, PartialEq, Eq, Structural)]
pub struct PerfData {
    /// Start of the last cycle, for the rate.
    pub last_rate_time: u64,
    /// Start of the cycle in progress.
    pub start_time: u64,
    /// When the activity began.
    pub beginning: u64,
    /// Time since the activity began, at the start of the last cycle.
    pub time_tag: u64,
    /// Time between the starts of the last two cycles.
    pub last_rate: u64,
    /// How long the last cycle took.
    pub last_duration: u64,
}

/// The figures after a cycle starts at `now`.
pub open spec fn entered(p: PerfData, now: u64) -> PerfData {
    PerfData {
        start_time: now,
        last_rate: elapsed(p.last_rate_time, now),
        last_rate_time: now,
        time_tag: elapsed(p.beginning, now),
        ..p
    }
}

/// The figures after a cycle ends at `now`.
pub open spec fn exited(p: PerfData, now: u64) -> PerfData {
    PerfData { last_duration: elapsed(p.start_time, now), ..p }
}

impl PerfData {
    /// Figures for an activity that begins at `now`.
    pub fn new(now: u64) -> (r: PerfData)
        ensures
            r.last_rate_time == now,
            r.start_time == now,
            r.beginning == now,
            r.time_tag == 0,
            r.last_rate == 0,
            r.last_duration == 0,
    {
        PerfData {
            last_rate_time: now,
            start_time: now,
            beginning: now,
            time_tag: 0,
            last_rate: 0,
            last_duration: 0,
        }
    }

    /// Marks the start of a cycle at `now`.
    pub fn enter(&mut self, now: u64)
        ensures
            *final(self) == entered(*old(self), now),
    {
        self.start_time = now;
        self.last_rate = elapsed_between(self.last_rate_time, now);
        self.last_rate_time = now;
        self.time_tag = elapsed_between(self.beginning, now);
    }

    /// Marks the end of a cycle at `now`.
    pub fn exit(&mut self, now: u64)
        ensures
            *final(self) == exited(*old(self), now),
    {
        self.last_duration = elapsed_between(self.start_time, now);
    }
}

impl Default for PerfData {
    /// Figures for an activity that begins now.
    fn default() -> (r: PerfData)
        ensures
            r.start_time == r.last_rate_time,
            r.beginning == r.last_rate_time,
            r.time_tag == 0,
            r.last_rate == 0,
            r.last_duration == 0,
    {
        PerfData::new(now())
    }
}

} // verus!
