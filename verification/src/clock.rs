use vstd::prelude::*;
use core::marker::PhantomData;
use core::ops::{Add, Sub};

verus! {

/// The source of time for [`Instant`] and [`Duration`].
pub trait ClockBackend {
    /// The number of clock ticks in one millisecond.
    spec fn ticks_per_milli_spec() -> u32;

    /// The current time, in ticks.
    fn now() -> u32;

    /// The number of clock ticks in one millisecond.
    fn ticks_per_milli() -> (r: u32)
        ensures
            r == Self::ticks_per_milli_spec(),
    ;
}

/// A point in time, in ticks of the clock `C`.
pub struct Instant<C: ClockBackend> {
    ticks: u32,
    _phantom: PhantomData<C>,
}

impl<C: ClockBackend> View for Instant<C> {
    type V = int;

    closed spec fn view(&self) -> int {
        self.ticks as int
    }
}

impl<C: ClockBackend> Clone for Instant<C> {
    fn clone(&self) -> (r: Self)
        ensures
            r == *self,
    {
        *self
    }
}

impl<C: ClockBackend> Copy for Instant<C> {

}

impl<C: ClockBackend> PartialEq for Instant<C> {
    fn eq(&self, other: &Self) -> (r: bool) {
        self.ticks == other.ticks
    }
}

impl<C: ClockBackend> vstd::std_specs::cmp::PartialEqSpecImpl for Instant<C> {
    open spec fn obeys_eq_spec() -> bool {
        true
    }

    open spec fn eq_spec(&self, other: &Self) -> bool {
        self@ == other@
    }
}

impl<C: ClockBackend> Eq for Instant<C> {

}

impl<C: ClockBackend> Instant<C> {
    /// The current time. Nothing is known about the value: it is read from the clock.
    pub fn now() -> (r: Self)
        ensures
            0 <= r@ <= u32::MAX,
    {
        Self { ticks: C::now(), _phantom: PhantomData }
    }

    /// The instant `ticks` ticks after the clock started.
    pub fn from_ticks(ticks: u32) -> (r: Self)
        ensures
            r@ == ticks,
    {
        Self { ticks, _phantom: PhantomData }
    }

    /// The number of ticks since the clock started.
    pub fn as_ticks(&self) -> (r: u32)
        ensures
            r == self@,
    {
        self.ticks
    }
}

/// A span of time, in ticks of the clock `C`.
pub struct Duration<C: ClockBackend> {
    ticks: u32,
    _phantom: PhantomData<C>,
}

impl<C: ClockBackend> View for Duration<C> {
    type V = int;

    closed spec fn view(&self) -> int {
        self.ticks as int
    }
}

impl<C: ClockBackend> Clone for Duration<C> {
    fn clone(&self) -> (r: Self)
        ensures
            r == *self,
    {
        *self
    }
}

impl<C: ClockBackend> Copy for Duration<C> {

}

impl<C: ClockBackend> PartialEq for Duration<C> {
    fn eq(&self, other: &Self) -> (r: bool) {
        self.ticks == other.ticks
    }
}

impl<C: ClockBackend> vstd::std_specs::cmp::PartialEqSpecImpl for Duration<C> {
    open spec fn obeys_eq_spec() -> bool {
        true
    }

    open spec fn eq_spec(&self, other: &Self) -> bool {
        self@ == other@
    }
}

impl<C: ClockBackend> Eq for Duration<C> {

}

impl<C: ClockBackend> Default for Duration<C> {
    fn default() -> (r: Self)
        ensures
            r@ == 0,
    {
        Self { ticks: 0, _phantom: PhantomData }
    }
}

/// The ticks from `instant` to the clock reading `now`, or `None` where `instant` is later.
pub open spec fn elapsed(now: int, instant: int) -> Option<int> {
    if now >= instant {
        Some(now - instant)
    } else {
        None
    }
}

/// The ticks that an optional duration holds.
pub open spec fn ticks_of<C: ClockBackend>(d: Option<Duration<C>>) -> Option<int> {
    match d {
        Some(d) => Some(d@),
        None => None,
    }
}

/// The time elapsed from an instant to a reading is what, added to the instant, gives the
/// reading: it is there exactly when the reading is not earlier, and waiting a duration `d`
/// after `instant` makes exactly `d` elapse.
pub proof fn law_elapsed(now: int, instant: int, d: int)
    requires
        0 <= d,
    ensures
        elapsed(now, instant) is Some <==> instant <= now,
        elapsed(now, instant) matches Some(e) ==> e >= 0 && instant + e == now,
        elapsed(instant + d, instant) == Some(d),
{
}

/// `a / b`, rounded up.
pub open spec fn div_ceil_spec(a: int, b: int) -> int {
    if a % b == 0 {
        a / b
    } else {
        a / b + 1
    }
}

/// `a / b` rounded up, for `b > 0`.
pub(crate) fn div_ceil_u32(a: u32, b: u32) -> (r: u32)
    requires
        b > 0,
    ensures
        r == div_ceil_spec(a as int, b as int),
{
    let q = a / b;
    if a % b == 0 {
        q
    } else {
        proof {
            assert(q <= a) by (nonlinear_arith)
                requires
                    q == a / b,
                    b > 0,
            ;
            assert(q < u32::MAX) by (nonlinear_arith)
                requires
                    q == a / b,
                    b > 0,
                    a % b != 0,
                    a <= u32::MAX,
            ;
        }
        q + 1
    }
}

impl<C: ClockBackend> Duration<C> {
    /// The time passed since `instant`, or `None` if `instant` lies in the future.
    pub fn since(instant: Instant<C>) -> (r: Option<Self>)
        ensures
            r matches Some(d) ==> d@ >= 0 && instant@ + d@ <= u32::MAX,
            exists|now: int| 0 <= now <= u32::MAX && #[trigger] elapsed(now, instant@) == ticks_of(r),
    {
        Instant::now() - instant
    }

    pub fn from_ticks(n: u32) -> (r: Self)
        ensures
            r@ == n,
    {
        Self { ticks: n, _phantom: PhantomData }
    }

    pub fn from_millis(n: u32) -> (r: Self)
        requires
            n * C::ticks_per_milli_spec() <= u32::MAX,
        ensures
            r@ == n * C::ticks_per_milli_spec(),
    {
        Self::from_ticks(n * C::ticks_per_milli())
    }

    pub fn from_secs(n: u32) -> (r: Self)
        requires
            n * 1000 <= u32::MAX,
            n * 1000 * C::ticks_per_milli_spec() <= u32::MAX,
        ensures
            r@ == n * 1000 * C::ticks_per_milli_spec(),
    {
        Self::from_ticks(n * 1_000 * C::ticks_per_milli())
    }

    pub fn as_ticks(&self) -> (r: u32)
        ensures
            r == self@,
    {
        self.ticks
    }

    /// Whole seconds, rounded down.
    pub fn as_secs_floor(&self) -> (r: u32)
        requires
            0 < 1000 * C::ticks_per_milli_spec() <= u32::MAX,
        ensures
            r == self@ / (1000 * C::ticks_per_milli_spec()),
    {
        self.ticks / (1_000 * C::ticks_per_milli())
    }

    /// Whole seconds, rounded up.
    pub fn as_secs_ceil(&self) -> (r: u32)
        requires
            0 < 1000 * C::ticks_per_milli_spec() <= u32::MAX,
        ensures
            r == div_ceil_spec(self@, 1000 * C::ticks_per_milli_spec()),
    {
        div_ceil_u32(self.ticks, 1_000 * C::ticks_per_milli())
    }

    /// Whole milliseconds, rounded up.
    pub fn as_millis_ceil(&self) -> (r: u32)
        requires
            C::ticks_per_milli_spec() > 0,
        ensures
            r == div_ceil_spec(self@, C::ticks_per_milli_spec() as int),
    {
        div_ceil_u32(self.ticks, C::ticks_per_milli())
    }

    /// Whole milliseconds, rounded down.
    pub fn as_millis_floor(&self) -> (r: u32)
        requires
            C::ticks_per_milli_spec() > 0,
        ensures
            r == self@ / (C::ticks_per_milli_spec() as int),
    {
        self.ticks / C::ticks_per_milli()
    }
}

impl<C: ClockBackend> Add<Duration<C>> for Instant<C> {
    type Output = Instant<C>;

    fn add(self, rhs: Duration<C>) -> (r: Instant<C>)
        ensures
            r@ == self@ + rhs@,
    {
        Instant { ticks: self.ticks + rhs.ticks, _phantom: PhantomData }
    }
}

impl<C: ClockBackend> vstd::std_specs::ops::AddSpecImpl<Duration<C>> for Instant<C> {
    open spec fn obeys_add_spec() -> bool {
        false
    }

    open spec fn add_req(self, rhs: Duration<C>) -> bool {
        self@ + rhs@ <= u32::MAX
    }

    open spec fn add_spec(self, rhs: Duration<C>) -> Instant<C> {
        self
    }
}

impl<C: ClockBackend> Sub<Instant<C>> for Instant<C> {
    type Output = Option<Duration<C>>;

    /// The time from `rhs` to `self`, or `None` if `rhs` is later.
    fn sub(self, rhs: Instant<C>) -> (r: Option<Duration<C>>)
        ensures
            r matches Some(d) ==> d@ == self@ - rhs@,
            r is None <==> self@ < rhs@,
            ticks_of(r) == elapsed(self@, rhs@),
    {
        if self.ticks >= rhs.ticks {
            Some(Duration { ticks: self.ticks - rhs.ticks, _phantom: PhantomData })
        } else {
            None
        }
    }
}

impl<C: ClockBackend> vstd::std_specs::ops::SubSpecImpl<Instant<C>> for Instant<C> {
    open spec fn obeys_sub_spec() -> bool {
        false
    }

    open spec fn sub_req(self, rhs: Instant<C>) -> bool {
        true
    }

    open spec fn sub_spec(self, rhs: Instant<C>) -> Option<Duration<C>> {
        None
    }
}

impl<C: ClockBackend> Add<Duration<C>> for Duration<C> {
    type Output = Duration<C>;

    fn add(self, rhs: Duration<C>) -> (r: Duration<C>)
        ensures
            r@ == self@ + rhs@,
    {
        Duration { ticks: self.ticks + rhs.ticks, _phantom: PhantomData }
    }
}

impl<C: ClockBackend> vstd::std_specs::ops::AddSpecImpl<Duration<C>> for Duration<C> {
    open spec fn obeys_add_spec() -> bool {
        false
    }

    open spec fn add_req(self, rhs: Duration<C>) -> bool {
        self@ + rhs@ <= u32::MAX
    }

    open spec fn add_spec(self, rhs: Duration<C>) -> Duration<C> {
        self
    }
}

impl<C: ClockBackend> Sub<Duration<C>> for Duration<C> {
    type Output = Option<Duration<C>>;

    /// `self - rhs`, or `None` if `rhs` is longer.
    fn sub(self, rhs: Duration<C>) -> (r: Option<Duration<C>>)
        ensures
            r matches Some(d) ==> d@ == self@ - rhs@,
            r is None <==> self@ < rhs@,
            ticks_of(r) == elapsed(self@, rhs@),
    {
        if self.ticks >= rhs.ticks {
            Some(Duration { ticks: self.ticks - rhs.ticks, _phantom: PhantomData })
        } else {
            None
        }
    }
}

impl<C: ClockBackend> vstd::std_specs::ops::SubSpecImpl<Duration<C>> for Duration<C> {
    open spec fn obeys_sub_spec() -> bool {
        false
    }

    open spec fn sub_req(self, rhs: Duration<C>) -> bool {
        true
    }

    open spec fn sub_spec(self, rhs: Duration<C>) -> Option<Duration<C>> {
        None
    }
}

/// A timer that expires at a fixed instant. As a future it completes once it has been polled at
/// least once before and the expiry time has come.
pub struct Timer<C: ClockBackend> {
    expires_at: Instant<C>,
    yielded_once: bool,
}

impl<C: ClockBackend> Timer<C> {
    /// When the timer expires.
    pub closed spec fn expiry(&self) -> int {
        self.expires_at@
    }

    /// Whether the timer has been polled before.
    pub closed spec fn has_yielded(&self) -> bool {
        self.yielded_once
    }

    pub fn at(expires_at: Instant<C>) -> (r: Self)
        ensures
            r.expiry() == expires_at@,
            !r.has_yielded(),
    {
        Self { expires_at, yielded_once: false }
    }

    /// A timer that expires `duration` after `now`. The tick counter wraps around, and so does
    /// the expiry time.
    pub fn after_instant(now: Instant<C>, duration: Duration<C>) -> (r: Self)
        ensures
            r.expiry() == (now@ + duration@) % 0x1_0000_0000,
            !r.has_yielded(),
    {
        Self::at(Instant::from_ticks(now.as_ticks().wrapping_add(duration.as_ticks())))
    }

    /// A timer that expires `duration` after now, where now is read from the clock.
    pub fn after(duration: Duration<C>) -> (r: Self)
        ensures
            !r.has_yielded(),
    {
        Self::after_instant(Instant::now(), duration)
    }

    pub fn after_ticks(ticks: u32) -> (r: Self)
        ensures
            !r.has_yielded(),
    {
        Self::after(Duration::from_ticks(ticks))
    }

    pub fn after_millis(millis: u32) -> (r: Self)
        requires
            millis * C::ticks_per_milli_spec() <= u32::MAX,
        ensures
            !r.has_yielded(),
    {
        Self::after(Duration::from_millis(millis))
    }

    pub fn after_secs(secs: u32) -> (r: Self)
        requires
            secs * 1000 <= u32::MAX,
            secs * 1000 * C::ticks_per_milli_spec() <= u32::MAX,
        ensures
            !r.has_yielded(),
    {
        Self::after(Duration::from_secs(secs))
    }

    /// The instant at which the timer expires.
    pub fn expires_at(&self) -> (r: Instant<C>)
        ensures
            r@ == self.expiry(),
    {
        self.expires_at
    }

    /// Whether the timer has expired at `now`.
    pub fn is_expired(&self, now: Instant<C>) -> (r: bool)
        ensures
            r == (self.expiry() <= now@),
    {
        self.expires_at.as_ticks() <= now.as_ticks()
    }

    /// One poll of the timer at time `now`: ready once it has been polled before and has expired;
    /// otherwise it remembers that it has been polled.
    pub fn poll_at(&mut self, now: Instant<C>) -> (ready: bool)
        ensures
            ready == (old(self).has_yielded() && old(self).expiry() <= now@),
            final(self).expiry() == old(self).expiry(),
            final(self).has_yielded() == (old(self).has_yielded() || !ready),
    {
        if self.yielded_once && self.expires_at.as_ticks() <= now.as_ticks() {
            true
        } else {
            self.yielded_once = true;
            false
        }
    }
}

/// A bot action with a cooldown, started at `time_started`.
pub struct Cooldown<C: ClockBackend> {
    pub time_started: Instant<C>,
    pub cooldown_type: CooldownType,
}

impl<C: ClockBackend> Clone for Cooldown<C> {
    fn clone(&self) -> (r: Self)
        ensures
            r == *self,
    {
        *self
    }
}

impl<C: ClockBackend> Copy for Cooldown<C> {

}

/// The actions of a bot that have a cooldown.
#[derive(Clone, Copy, Debug, PartialEq, Eq, Structural)]
pub enum CooldownType {
    Stab,
    Pick,
    Forward,
    Turn,
    Radar3,
    Radar5,
    Radar7,
    Radar9,
    Compass,
}

impl CooldownType {
    /// The expected cooldown in ticks.
    pub open spec fn ticks(self) -> int {
        match self {
            CooldownType::Stab => 60_000,
            CooldownType::Pick => 60_000,
            CooldownType::Forward => 20_000,
            CooldownType::Turn => 10_000,
            CooldownType::Radar3 => 10_000,
            CooldownType::Radar5 => 15_000,
            CooldownType::Radar7 => 22_000,
            CooldownType::Radar9 => 30_000,
            CooldownType::Compass => 128_000,
        }
    }

    pub fn expected_duration<C: ClockBackend>(&self) -> (r: Duration<C>)
        ensures
            r@ == self.ticks(),
    {
        match self {
            CooldownType::Stab => Duration::from_ticks(60_000),
            CooldownType::Pick => Duration::from_ticks(60_000),
            CooldownType::Forward => Duration::from_ticks(20_000),
            CooldownType::Turn => Duration::from_ticks(10_000),
            CooldownType::Radar3 => Duration::from_ticks(10_000),
            CooldownType::Radar5 => Duration::from_ticks(15_000),
            CooldownType::Radar7 => Duration::from_ticks(22_000),
            CooldownType::Radar9 => Duration::from_ticks(30_000),
            CooldownType::Compass => Duration::from_ticks(128_000),
        }
    }
}

impl<C: ClockBackend> Cooldown<C> {
    /// Starts the cooldown now, where now is read from the clock.
    pub fn start_new(cooldown_type: CooldownType) -> (r: Self)
        ensures
            r.cooldown_type == cooldown_type,
    {
        Self { time_started: Instant::now(), cooldown_type }
    }

    /// When the cooldown is expected to be over.
    pub fn expected_done(&self) -> (r: Instant<C>)
        requires
            self.time_started@ + self.cooldown_type.ticks() <= u32::MAX,
        ensures
            r@ == self.time_started@ + self.cooldown_type.ticks(),
    {
        self.time_started + self.cooldown_type.expected_duration()
    }
}

} // verus!
