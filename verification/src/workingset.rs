//! The minimum of a quantity over a window of time.

use vstd::prelude::*;

verus! {

/// Tracks the least value seen since the current window began. Times are
/// seconds on a monotonic clock, supplied by the caller.
#[derive(Clone, Copy, Debug)]
pub struct WorkingSet {
    min: usize,
    start: u64,
}

/// The seconds from `start` to `now`; zero if `now` lies before `start`.
pub open spec fn elapsed(start: u64, now: u64) -> int {
    if now >= start {
        now - start
    } else {
        0
    }
}

/// The smaller of two values.
pub open spec fn min_of(a: usize, b: usize) -> usize {
    if b < a {
        b
    } else {
        a
    }
}

impl WorkingSet {
    /// The least value seen in the current window.
    pub closed spec fn spec_min(&self) -> usize {
        self.min
    }

    /// When the current window began.
    pub closed spec fn spec_start(&self) -> u64 {
        self.start
    }

    /// A window that begins at `now` with `value` as its minimum.
    pub fn new(value: usize, now: u64) -> (ws: WorkingSet)
        ensures
            ws.spec_min() == value,
            ws.spec_start() == now,
    {
        WorkingSet { min: value, start: now }
    }

    #[verifier::when_used_as_spec(spec_min)]
    pub fn min(&self) -> (m: usize)
        ensures
            m == self.spec_min(),
    {
        self.min
    }

    #[verifier::when_used_as_spec(spec_start)]
    pub fn start(&self) -> (s: u64)
        ensures
            s == self.spec_start(),
    {
        self.start
    }

    /// Begins a new window at `now` with `value` as its minimum.
    pub fn set(&mut self, value: usize, now: u64)
        ensures
            final(self).spec_min() == value,
            final(self).spec_start() == now,
    {
        self.min = value;
        self.start = now;
    }

    /// Records that `value` was seen.
    pub fn update_min(&mut self, value: usize)
        ensures
            final(self).spec_min() == min_of(old(self).spec_min(), value),
            final(self).spec_start() == old(self).spec_start(),
    {
        if value < self.min {
            self.min = value;
        }
    }

    /// If at least `window_seconds` have passed since the window began,
    /// returns the minimum seen in it and begins a new window at `now`;
    /// otherwise returns `None` and changes nothing.
    pub fn refresh(&mut self, window_seconds: u64, now: u64) -> (r: Option<usize>)
        ensures
            r == if elapsed(old(self).spec_start(), now) >= window_seconds {
                Some(old(self).spec_min())
            } else {
                None
            },
            final(self).spec_min() == old(self).spec_min(),
            final(self).spec_start() == if r.is_some() {
                now
            } else {
                old(self).spec_start()
            },
    {
        let passed: u64 = if now >= self.start {
            now - self.start
        } else {
            0
        };
        if passed >= window_seconds {
            self.start = now;
            Some(self.min)
        } else {
            None
        }
    }
}

} // verus!
