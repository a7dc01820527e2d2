use vstd::prelude::*;

use crate::clock::{ClockBackend, Duration, Instant};

verus! {

/// The integer square root: the largest `r` with `r * r <= x`, found by bisection.
fn isqrt(x: u64) -> (r: u64)
    ensures
        r * r <= x < (r + 1) * (r + 1),
{
    let mut lo: u64 = 0;
    let mut hi: u64 = 0x1_0000_0000;
    assert(x < hi * hi) by (nonlinear_arith)
        requires
            hi == 0x1_0000_0000,
            x <= u64::MAX,
    ;
    while hi - lo > 1
        invariant
            lo < hi <= 0x1_0000_0000,
            lo * lo <= x,
            x < hi * hi,
        decreases hi - lo,
    {
        let mid = lo + (hi - lo) / 2;
        assert(mid * mid <= 0xffff_ffff * 0xffff_ffff) by (nonlinear_arith)
            requires
                mid < 0x1_0000_0000,
        ;
        if mid * mid <= x {
            lo = mid;
        } else {
            hi = mid;
        }
    }
    assert(hi == lo + 1);
    lo
}

/// Latency statistics, gathered like a watchdog: each `feed` records the time since the previous
/// one.
pub struct StatsDog<C: ClockBackend> {
    sum_duration: Duration<C>,
    counter: u32,
    max_duration: Duration<C>,
    min_duration: Duration<C>,
    sum_sq_duration: u64,
    last_time: Instant<C>,
}

impl<C: ClockBackend> StatsDog<C> {
    /// The sum of the squares and the square of the sum obey the Cauchy-Schwarz bound.
    #[verifier::type_invariant]
    spec fn inv(&self) -> bool {
        self.counter * self.sum_sq_duration >= self.sum_duration@ * self.sum_duration@
    }

    /// How many durations were recorded.
    pub closed spec fn n(&self) -> int {
        self.counter as int
    }

    /// The sum of the recorded durations.
    pub closed spec fn sum(&self) -> int {
        self.sum_duration@
    }

    /// The sum of the squares of the recorded durations.
    pub closed spec fn sum_sq(&self) -> int {
        self.sum_sq_duration as int
    }

    /// The longest recorded duration, 0 if none.
    pub closed spec fn max(&self) -> int {
        self.max_duration@
    }

    /// The running minimum; it starts at 0.
    pub closed spec fn min(&self) -> int {
        self.min_duration@
    }

    /// When the last duration ended.
    pub closed spec fn last(&self) -> int {
        self.last_time@
    }

    /// No durations yet; the timer starts now.
    pub fn new() -> (r: Self)
        ensures
            r.n() == 0,
            r.sum() == 0,
            r.sum_sq() == 0,
            r.max() == 0,
            r.min() == 0,
    {
        Self {
            last_time: Instant::now(),
            sum_duration: Duration::default(),
            counter: 0,
            max_duration: Duration::default(),
            min_duration: Duration::default(),
            sum_sq_duration: 0,
        }
    }

    /// Whether a duration of `d` ticks ending at `now` can be recorded.
    pub open spec fn can_record(&self, now: int) -> bool {
        let d = now - self.last();
        &&& d >= 0
        &&& self.sum() + d <= u32::MAX
        &&& self.n() < u32::MAX
        &&& self.sum_sq() + d * d <= u64::MAX
    }

    /// Records the time from the last feed to `now` and restarts the timer at `now`.
    pub fn feed_at(&mut self, now: Instant<C>) -> (r: Duration<C>)
        requires
            old(self).can_record(now@),
        ensures
            r@ == now@ - old(self).last(),
            final(self).n() == old(self).n() + 1,
            final(self).sum() == old(self).sum() + r@,
            final(self).sum_sq() == old(self).sum_sq() + r@ * r@,
            final(self).max() == if r@ > old(self).max() { r@ } else { old(self).max() },
            final(self).min() == if r@ < old(self).min() { r@ } else { old(self).min() },
            final(self).last() == now@,
    {
        proof {
            use_type_invariant(&*self);
        }
        let duration = match now - self.last_time {
            Some(d) => d,
            None => {
                proof {
                    assert(false);
                }
                Duration::default()
            },
        };
        let d = duration.as_ticks();
        let n = self.counter;
        let s = self.sum_duration.as_ticks();
        let s2 = self.sum_sq_duration;
        proof {
            let (ni, si, s2i, di) = (n as int, s as int, s2 as int, d as int);
            assert((ni + 1) * (s2i + di * di) >= (si + di) * (si + di)) by (nonlinear_arith)
                requires
                    ni * s2i >= si * si,
                    ni >= 0,
                    di >= 0,
                    si >= 0,
                    s2i >= 0,
            {
                assert((si - ni * di) * (si - ni * di) >= 0);
                if ni == 0 {
                    assert(si * si <= 0);
                    assert(si == 0);
                } else {
                    assert(si * si + ni * ni * di * di >= 2 * ni * si * di);
                    assert(ni * s2i + ni * ni * di * di >= 2 * ni * si * di);
                    assert(s2i + ni * di * di >= 2 * si * di) by {
                        assert(ni * (s2i + ni * di * di) >= ni * (2 * si * di));
                    }
                }
            }
        }
        let sq = (d as u64) * (d as u64);
        let max_d = if d > self.max_duration.as_ticks() {
            duration
        } else {
            self.max_duration
        };
        let min_d = if d < self.min_duration.as_ticks() {
            duration
        } else {
            self.min_duration
        };
        *self = Self {
            sum_duration: self.sum_duration + duration,
            counter: self.counter + 1,
            max_duration: max_d,
            min_duration: min_d,
            sum_sq_duration: self.sum_sq_duration + sq,
            last_time: now,
        };
        duration
    }

    /// Records the time since the last feed, read from the clock, and then restarts the timer at
    /// a second reading of the clock. Returns `None`, and records nothing, when the clock reads a
    /// time before the last feed or the statistics would overflow.
    pub fn feed(&mut self) -> (r: Option<Duration<C>>)
        ensures
            r is None ==> *final(self) == *old(self),
            r matches Some(d) ==> final(self).n() == old(self).n() + 1 && final(self).sum() == old(
                self,
            ).sum() + d@ && final(self).sum_sq() == old(self).sum_sq() + d@ * d@,
            r matches Some(d) ==> final(self).max() == if d@ > old(
                self,
            ).max() {
                d@
            } else {
                old(self).max()
            } && final(self).min() == if d@ < old(self).min() {
                d@
            } else {
                old(self).min()
            },
            old(self).n() == u32::MAX ==> r is None,
    {
        let now = Instant::now();
        let last = self.last_time.as_ticks();
        let t = now.as_ticks();
        if t < last {
            return None;
        }
        let d = t - last;
        if self.sum_duration.as_ticks() > u32::MAX - d || self.counter == u32::MAX {
            return None;
        }
        assert((d as u64) * (d as u64) <= u32::MAX * u32::MAX) by (nonlinear_arith)
            requires
                d <= u32::MAX,
        ;
        let sq = (d as u64) * (d as u64);
        if self.sum_sq_duration > u64::MAX - sq {
            return None;
        }
        let d = self.feed_at(now);
        self.restart_timer();
        Some(d)
    }

    /// Restarts the timer at `now`.
    pub fn restart_timer_at(&mut self, now: Instant<C>)
        ensures
            final(self).last() == now@,
            final(self).n() == old(self).n(),
            final(self).sum() == old(self).sum(),
            final(self).sum_sq() == old(self).sum_sq(),
            final(self).max() == old(self).max(),
            final(self).min() == old(self).min(),
    {
        proof {
            use_type_invariant(&*self);
        }
        self.last_time = now;
    }

    /// Restarts the timer, reading the time from the clock.
    pub fn restart_timer(&mut self)
        ensures
            final(self).n() == old(self).n(),
            final(self).sum() == old(self).sum(),
            final(self).sum_sq() == old(self).sum_sq(),
            final(self).max() == old(self).max(),
            final(self).min() == old(self).min(),
    {
        self.restart_timer_at(Instant::now());
    }

    /// The mean duration, rounded down.
    pub fn mean(&self) -> (r: u32)
        requires
            self.n() > 0,
        ensures
            r == self.sum() / self.n(),
    {
        self.sum_duration.as_ticks() / self.counter
    }

    pub fn count(&self) -> (r: u32)
        ensures
            r == self.n(),
    {
        self.counter
    }

    pub fn total(&self) -> (r: Duration<C>)
        ensures
            r@ == self.sum(),
    {
        self.sum_duration
    }

    /// The longest recorded duration.
    pub fn max_duration(&self) -> (r: Duration<C>)
        ensures
            r@ == self.max(),
    {
        self.max_duration
    }

    /// The running minimum of the recorded durations.
    pub fn min_duration(&self) -> (r: Duration<C>)
        ensures
            r@ == self.min(),
    {
        self.min_duration
    }

    /// The empirical standard deviation, rounded down:
    /// `sqrt((sum of squares - sum * sum / n) / (n - 1))`, with the inner divisions rounded down.
    pub fn std_dev(&self) -> (r: u32)
        requires
            self.n() >= 2,
        ensures
            ({
                let v = (self.sum_sq() - (self.sum() * self.sum()) / self.n()) / (self.n() - 1);
                r * r <= v < (r + 1) * (r + 1)
            }),
    {
        proof {
            use_type_invariant(self);
        }
        let n = self.counter as u64;
        let s = self.sum_duration.as_ticks() as u64;
        let s2 = self.sum_sq_duration;
        proof {
            assert(s * s <= u32::MAX * u32::MAX) by (nonlinear_arith)
                requires
                    s <= u32::MAX,
            ;
            let (ni, si, s2i) = (n as int, s as int, s2 as int);
            assert((si * si) / ni <= s2i) by (nonlinear_arith)
                requires
                    ni * s2i >= si * si,
                    ni > 0,
            ;
        }
        let sq = s * s;
        let v = (s2 - sq / n) / (n - 1);
        let root = isqrt(v);
        proof {
            assert(root < 0x1_0000_0000) by (nonlinear_arith)
                requires
                    root * root <= v,
                    v <= u64::MAX,
            ;
        }
        root as u32
    }
}

impl<C: ClockBackend> Default for StatsDog<C> {
    fn default() -> (r: Self)
        ensures
            r.n() == 0,
    {
        Self::new()
    }
}

} // verus!
