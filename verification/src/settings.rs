//! The settings of the client and of the service, with their defaults.

use vstd::prelude::*;

verus! {

/// Worker threads of a runtime when none are asked for.
pub const DEFAULT_NUM_WORKERS: usize = 4;

/// Attempts of a request or of a WebSocket connection when none are asked for.
pub const DEFAULT_MAX_RETRIES: usize = 3;

/// The pause between two attempts, in milliseconds, when none is asked for.
pub const DEFAULT_RETRY_INTERVAL_MS: u64 = 1000;

/// A pause, as whole seconds and the nanoseconds beyond them.
#[derive(Debug, Clone, Copy, PartialEq, Eq)]
pub struct Interval {
    pub secs: u64,
    pub nanos: u32,
}

impl Interval {
    /// The pause as a number of nanoseconds.
    pub open spec fn total_nanos(self) -> int {
        self.secs * 1_000_000_000 + self.nanos
    }

    /// The pause of `ms` milliseconds.
    pub fn from_millis(ms: u64) -> (r: Self)
        ensures
            r.nanos < 1_000_000_000,
            r.total_nanos() == ms * 1_000_000,
    {
        let secs = ms / 1000;
        let rest = ms % 1000;
        assert(rest * 1_000_000 < 1_000_000_000) by (nonlinear_arith)
            requires
                rest < 1000,
        ;
        let nanos = (rest * 1_000_000) as u32;
        assert(secs * 1_000_000_000 + rest * 1_000_000 == ms * 1_000_000) by (nonlinear_arith)
            requires
                secs == ms / 1000,
                rest == ms % 1000,
        ;
        Interval { secs, nanos }
    }
}

/// How a client runs: its worker threads, the attempts of each request and
/// connection, and the pause between attempts.
#[derive(Debug, Clone, Copy, PartialEq, Eq)]
pub struct ClientSettings {
    pub num_workers: usize,
    pub max_retries: usize,
    pub retry_interval: Interval,
}

impl ClientSettings {
    /// The defaults: four workers, three attempts, one second between them.
    pub fn new() -> (r: Self)
        ensures
            r.num_workers == DEFAULT_NUM_WORKERS,
            r.max_retries == DEFAULT_MAX_RETRIES,
            r.retry_interval.total_nanos() == DEFAULT_RETRY_INTERVAL_MS * 1_000_000,
            r.retry_interval.nanos < 1_000_000_000,
    {
        ClientSettings {
            num_workers: DEFAULT_NUM_WORKERS,
            max_retries: DEFAULT_MAX_RETRIES,
            retry_interval: Interval::from_millis(DEFAULT_RETRY_INTERVAL_MS),
        }
    }

    /// Sets the number of worker threads.
    pub fn workers(self, num: usize) -> (r: Self)
        ensures
            r == (ClientSettings { num_workers: num, ..self }),
    {
        ClientSettings { num_workers: num, ..self }
    }

    /// Sets the number of attempts.
    pub fn max_retries(self, num: usize) -> (r: Self)
        ensures
            r == (ClientSettings { max_retries: num, ..self }),
    {
        ClientSettings { max_retries: num, ..self }
    }

    /// Sets the pause between attempts, in milliseconds.
    pub fn retry_interval_ms(self, ms: u64) -> (r: Self)
        ensures
            r.num_workers == self.num_workers,
            r.max_retries == self.max_retries,
            r.retry_interval.total_nanos() == ms * 1_000_000,
            r.retry_interval.nanos < 1_000_000_000,
    {
        ClientSettings { retry_interval: Interval::from_millis(ms), ..self }
    }

    /// Sets the pause between attempts.
    pub fn retry_interval(self, interval: Interval) -> (r: Self)
        ensures
            r == (ClientSettings { retry_interval: interval, ..self }),
    {
        ClientSettings { retry_interval: interval, ..self }
    }
}

/// How a service runs: its worker threads.
#[derive(Debug, Clone, Copy, PartialEq, Eq)]
pub struct ServiceSettings {
    pub num_workers: usize,
}

impl ServiceSettings {
    /// The default: four workers.
    pub fn new() -> (r: Self)
        ensures
            r.num_workers == DEFAULT_NUM_WORKERS,
    {
        ServiceSettings { num_workers: DEFAULT_NUM_WORKERS }
    }

    /// Sets the number of worker threads.
    pub fn workers(self, num: usize) -> (r: Self)
        ensures
            r.num_workers == num,
    {
        ServiceSettings { num_workers: num }
    }
}

} // verus!
