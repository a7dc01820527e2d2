use vstd::prelude::*;

use crate::beacon::{dist, NavigatorError, ScheduledUpdate, UpdateType};
use crate::pos::{nav_pos, GlobalPos};

verus! {

/// The storage and computation behind a [`Navigator`]: the beacons, and the computed path of
/// beacon indices in reverse order (the next beacon to reach comes last).
pub trait NavigatorResources: Sized {
    /// Whether every beacon that a path may name lies where navigation works.
    spec fn valid(&self) -> bool;

    /// The computed path, in reverse order.
    spec fn path(&self) -> Seq<u16>;

    /// The position of beacon `i`.
    spec fn beacon(&self, i: int) -> (int, int);

    /// What computing a new path from `start` to `destination` achieves: the resources go from
    /// `before` to `after`, with result `r`.
    spec fn computed_new(
        before: Self,
        after: Self,
        start: (int, int),
        destination: (int, int),
        r: Result<(), NavigatorError>,
    ) -> bool;

    /// What bringing the path up to date after the start moved to `start` achieves, for the
    /// pending `update`: the resources go from `before` to `after`, with result `r`.
    spec fn computed_update(
        before: Self,
        after: Self,
        start: (int, int),
        destination: (int, int),
        update: ScheduledUpdate,
        r: Result<(), NavigatorError>,
    ) -> bool;

    /// Computes a new path from `start` to `destination`.
    fn compute_new(&mut self, start: GlobalPos, destination: GlobalPos) -> (r: Result<
        (),
        NavigatorError,
    >)
        requires
            old(self).valid(),
            nav_pos(start@),
            nav_pos(destination@),
        ensures
            final(self).valid(),
            Self::computed_new(*old(self), *final(self), start@, destination@, r),
    ;

    /// Brings the path up to date after the start moved to `start`.
    fn compute_update(
        &mut self,
        start: GlobalPos,
        destination: GlobalPos,
        update: ScheduledUpdate,
    ) -> (r: Result<(), NavigatorError>)
        requires
            old(self).valid(),
            nav_pos(start@),
            nav_pos(destination@),
        ensures
            final(self).valid(),
            Self::computed_update(*old(self), *final(self), start@, destination@, update, r),
    ;

    /// The next beacon to navigate to after skipping `n_skip` beacons of the path.
    fn path_beacon(&self, n_skip: u16) -> (r: Option<GlobalPos>)
        requires
            self.valid(),
        ensures
            r is None <==> n_skip >= self.path().len(),
            r matches Some(p) ==> p@ == self.beacon(
                self.path()[self.path().len() - 1 - n_skip] as int,
            ) && nav_pos(p@),
    ;

    /// The beacon indices of the path, in reverse order.
    fn path_beacon_indices(&self) -> (r: &[u16])
        ensures
            r@ == self.path(),
    ;
}

/// Keeps the set of navigator states closed.
pub trait Sealed {

}

/// The state of a [`Navigator`].
pub trait NavigatorState: Sealed + Sized {
    /// The navigator as the enum of all states.
    fn to_enum<R: NavigatorResources>(nav: Navigator<R, Self>) -> (r: NavigatorEnum<R>)
        ensures
            !(r is Invalid),
    ;
}

/// A state that can be reset.
pub trait NavigatorStateResettable: NavigatorState {

}

/// A state with a start.
pub trait NavigatorStateHasStart: NavigatorState {
    spec fn start_of(&self) -> GlobalPos;

    fn get_start(&self) -> (r: GlobalPos)
        ensures
            r == self.start_of(),
    ;
}

/// A state with a destination.
pub trait NavigatorStateHasDestination: NavigatorState {
    spec fn destination_of(&self) -> GlobalPos;

    fn get_destination(&self) -> (r: GlobalPos)
        ensures
            r == self.destination_of(),
    ;
}

/// A state with a destination but without a computed path.
pub trait NavigatorStateHasDestinationNoPath: NavigatorStateHasDestination {

}

/// A state after a failed computation.
pub trait NavigatorStateFailed: NavigatorState {
    spec fn error_of(&self) -> NavigatorError;

    fn get_error(&self) -> (r: NavigatorError)
        ensures
            r == self.error_of(),
    ;
}

/// A state with a computed path.
pub trait NavigatorStateHasPath: NavigatorState {

}

/// Nothing set.
pub struct New {}

/// Only the destination is set.
pub struct OnlyDestination {
    pub destination: GlobalPos,
}

/// Only the start is set.
pub struct OnlyStart {
    pub start: GlobalPos,
}

/// The computation failed.
pub struct Failed {
    pub start: GlobalPos,
    pub destination: GlobalPos,
    pub error: NavigatorError,
}

/// Start and destination are set; the path has to be computed.
pub struct Initialized {
    pub start: GlobalPos,
    pub destination: GlobalPos,
}

/// The path is computed.
pub struct Ready {
    pub start: GlobalPos,
    pub destination: GlobalPos,
}

/// The start moved since the path was computed; updates are due.
pub struct UpdateScheduled {
    pub start: GlobalPos,
    pub destination: GlobalPos,
    pub updates: ScheduledUpdate,
}

/// Bringing the path up to date failed.
pub struct UpdateFailed {
    pub start: GlobalPos,
    pub destination: GlobalPos,
    pub updates: ScheduledUpdate,
    pub error: NavigatorError,
}

impl Sealed for New {

}

impl Sealed for OnlyDestination {

}

impl Sealed for OnlyStart {

}

impl Sealed for Failed {

}

impl Sealed for Initialized {

}

impl Sealed for Ready {

}

impl Sealed for UpdateScheduled {

}

impl Sealed for UpdateFailed {

}

impl NavigatorState for New {
    fn to_enum<R: NavigatorResources>(nav: Navigator<R, Self>) -> (r: NavigatorEnum<R>)
        ensures
            r == NavigatorEnum::New(nav),
    {
        NavigatorEnum::New(nav)
    }
}

impl NavigatorState for OnlyDestination {
    fn to_enum<R: NavigatorResources>(nav: Navigator<R, Self>) -> (r: NavigatorEnum<R>)
        ensures
            r == NavigatorEnum::OnlyDestination(nav),
    {
        NavigatorEnum::OnlyDestination(nav)
    }
}

impl NavigatorState for OnlyStart {
    fn to_enum<R: NavigatorResources>(nav: Navigator<R, Self>) -> (r: NavigatorEnum<R>)
        ensures
            r == NavigatorEnum::OnlyStart(nav),
    {
        NavigatorEnum::OnlyStart(nav)
    }
}

impl NavigatorState for Failed {
    fn to_enum<R: NavigatorResources>(nav: Navigator<R, Self>) -> (r: NavigatorEnum<R>)
        ensures
            r == NavigatorEnum::Failed(nav),
    {
        NavigatorEnum::Failed(nav)
    }
}

impl NavigatorState for Initialized {
    fn to_enum<R: NavigatorResources>(nav: Navigator<R, Self>) -> (r: NavigatorEnum<R>)
        ensures
            r == NavigatorEnum::Initialized(nav),
    {
        NavigatorEnum::Initialized(nav)
    }
}

impl NavigatorState for Ready {
    fn to_enum<R: NavigatorResources>(nav: Navigator<R, Self>) -> (r: NavigatorEnum<R>)
        ensures
            r == NavigatorEnum::Ready(nav),
    {
        NavigatorEnum::Ready(nav)
    }
}

impl NavigatorState for UpdateScheduled {
    fn to_enum<R: NavigatorResources>(nav: Navigator<R, Self>) -> (r: NavigatorEnum<R>)
        ensures
            r == NavigatorEnum::UpdateScheduled(nav),
    {
        NavigatorEnum::UpdateScheduled(nav)
    }
}

impl NavigatorState for UpdateFailed {
    fn to_enum<R: NavigatorResources>(nav: Navigator<R, Self>) -> (r: NavigatorEnum<R>)
        ensures
            r == NavigatorEnum::UpdateFailed(nav),
    {
        NavigatorEnum::UpdateFailed(nav)
    }
}

impl NavigatorStateResettable for OnlyDestination {

}

impl NavigatorStateResettable for OnlyStart {

}

impl NavigatorStateResettable for Failed {

}

impl NavigatorStateResettable for Initialized {

}

impl NavigatorStateResettable for Ready {

}

impl NavigatorStateResettable for UpdateScheduled {

}

impl NavigatorStateResettable for UpdateFailed {

}

impl NavigatorStateHasStart for OnlyStart {
    open spec fn start_of(&self) -> GlobalPos {
        self.start
    }

    fn get_start(&self) -> (r: GlobalPos) {
        self.start
    }
}

impl NavigatorStateHasStart for Failed {
    open spec fn start_of(&self) -> GlobalPos {
        self.start
    }

    fn get_start(&self) -> (r: GlobalPos) {
        self.start
    }
}

impl NavigatorStateHasStart for Initialized {
    open spec fn start_of(&self) -> GlobalPos {
        self.start
    }

    fn get_start(&self) -> (r: GlobalPos) {
        self.start
    }
}

impl NavigatorStateHasStart for Ready {
    open spec fn start_of(&self) -> GlobalPos {
        self.start
    }

    fn get_start(&self) -> (r: GlobalPos) {
        self.start
    }
}

impl NavigatorStateHasStart for UpdateScheduled {
    open spec fn start_of(&self) -> GlobalPos {
        self.start
    }

    fn get_start(&self) -> (r: GlobalPos) {
        self.start
    }
}

impl NavigatorStateHasStart for UpdateFailed {
    open spec fn start_of(&self) -> GlobalPos {
        self.start
    }

    fn get_start(&self) -> (r: GlobalPos) {
        self.start
    }
}

impl NavigatorStateHasDestination for OnlyDestination {
    open spec fn destination_of(&self) -> GlobalPos {
        self.destination
    }

    fn get_destination(&self) -> (r: GlobalPos) {
        self.destination
    }
}

impl NavigatorStateHasDestination for Failed {
    open spec fn destination_of(&self) -> GlobalPos {
        self.destination
    }

    fn get_destination(&self) -> (r: GlobalPos) {
        self.destination
    }
}

impl NavigatorStateHasDestination for Initialized {
    open spec fn destination_of(&self) -> GlobalPos {
        self.destination
    }

    fn get_destination(&self) -> (r: GlobalPos) {
        self.destination
    }
}

impl NavigatorStateHasDestination for Ready {
    open spec fn destination_of(&self) -> GlobalPos {
        self.destination
    }

    fn get_destination(&self) -> (r: GlobalPos) {
        self.destination
    }
}

impl NavigatorStateHasDestination for UpdateScheduled {
    open spec fn destination_of(&self) -> GlobalPos {
        self.destination
    }

    fn get_destination(&self) -> (r: GlobalPos) {
        self.destination
    }
}

impl NavigatorStateHasDestination for UpdateFailed {
    open spec fn destination_of(&self) -> GlobalPos {
        self.destination
    }

    fn get_destination(&self) -> (r: GlobalPos) {
        self.destination
    }
}

impl NavigatorStateHasDestinationNoPath for OnlyDestination {

}

impl NavigatorStateHasDestinationNoPath for Failed {

}

impl NavigatorStateHasDestinationNoPath for Initialized {

}

impl NavigatorStateFailed for Failed {
    open spec fn error_of(&self) -> NavigatorError {
        self.error
    }

    fn get_error(&self) -> (r: NavigatorError) {
        self.error
    }
}

impl NavigatorStateFailed for UpdateFailed {
    open spec fn error_of(&self) -> NavigatorError {
        self.error
    }

    fn get_error(&self) -> (r: NavigatorError) {
        self.error
    }
}

impl NavigatorStateHasPath for Ready {

}

impl NavigatorStateHasPath for UpdateScheduled {

}

impl NavigatorStateHasPath for UpdateFailed {

}

/// A navigator to a destination, through a sequence of beacons. Its state `S` says what is known
/// so far; the transitions between states are the methods.
///
/// ```text
/// New             -> set_start: OnlyStart,   set_destination: OnlyDestination
/// OnlyStart       -> set_destination: Initialized, set_start: OnlyStart, reset: New
/// OnlyDestination -> set_start: Initialized, set_destination: OnlyDestination, reset: New
/// Initialized     -> compute: Ready | Failed, set_start / set_destination: Initialized
/// Failed          -> set_start / set_destination: Initialized, reset: New
/// Ready           -> set_destination: Initialized, set_start: UpdateScheduled, reset: New
/// UpdateScheduled -> set_destination: Initialized, set_start: UpdateScheduled,
///                    compute: Ready | UpdateFailed, reset: New
/// UpdateFailed    -> set_destination: Initialized, set_start: UpdateScheduled, reset: New
/// ```
pub struct Navigator<R: NavigatorResources, S: NavigatorState> {
    resources: R,
    state: S,
}

impl<R: NavigatorResources, S: NavigatorState> Navigator<R, S> {
    /// The resources.
    pub closed spec fn res(&self) -> R {
        self.resources
    }

    /// The state.
    pub closed spec fn st(&self) -> S {
        self.state
    }
}

// has anything
impl<R: NavigatorResources, S: NavigatorStateResettable> Navigator<R, S> {
    /// Forgets start and destination.
    pub fn reset(self) -> (r: Navigator<R, New>)
        ensures
            r.res() == self.res(),
    {
        Navigator { resources: self.resources, state: New {  } }
    }
}

// has start
impl<R: NavigatorResources, S: NavigatorStateHasStart> Navigator<R, S> {
    /// Sets the destination; the path has to be computed anew.
    pub fn set_destination(self, destination: GlobalPos) -> (r: Navigator<R, Initialized>)
        ensures
            r.res() == self.res(),
            r.st().start == self.st().start_of(),
            r.st().destination == destination,
    {
        let start = self.state.get_start();
        Navigator { resources: self.resources, state: Initialized { start, destination } }
    }

    pub fn get_start(&self) -> (r: GlobalPos)
        ensures
            r == self.st().start_of(),
    {
        self.state.get_start()
    }
}

// has destination
impl<R: NavigatorResources, S: NavigatorStateHasDestination> Navigator<R, S> {
    pub fn get_destination(&self) -> (r: GlobalPos)
        ensures
            r == self.st().destination_of(),
    {
        self.state.get_destination()
    }
}

// has destination and no path yet
impl<R: NavigatorResources, S: NavigatorStateHasDestinationNoPath> Navigator<R, S> {
    /// Sets the start; the path has to be computed anew.
    pub fn set_start(self, start: GlobalPos) -> (r: Navigator<R, Initialized>)
        ensures
            r.res() == self.res(),
            r.st().start == start,
            r.st().destination == self.st().destination_of(),
    {
        let destination = self.state.get_destination();
        Navigator { resources: self.resources, state: Initialized { start, destination } }
    }
}

// has failed
impl<R: NavigatorResources, S: NavigatorStateFailed> Navigator<R, S> {
    pub fn get_error(&self) -> (r: NavigatorError)
        ensures
            r == self.st().error_of(),
    {
        self.state.get_error()
    }
}

// has a path
impl<R: NavigatorResources, S: NavigatorStateHasPath> Navigator<R, S> {
    /// The beacon indices of the path, in reverse order.
    pub fn get_beacons(&self) -> (r: &[u16])
        ensures
            r@ == self.res().path(),
    {
        self.resources.path_beacon_indices()
    }
}

// exclusive to New
impl<R: NavigatorResources> Navigator<R, New> {
    pub fn new(resources: R) -> (r: Self)
        ensures
            r.res() == resources,
    {
        Self { resources, state: New {  } }
    }

    pub fn set_destination(self, destination: GlobalPos) -> (r: Navigator<R, OnlyDestination>)
        ensures
            r.res() == self.res(),
            r.st().destination == destination,
    {
        Navigator { resources: self.resources, state: OnlyDestination { destination } }
    }

    pub fn set_start(self, start: GlobalPos) -> (r: Navigator<R, OnlyStart>)
        ensures
            r.res() == self.res(),
            r.st().start == start,
    {
        Navigator { resources: self.resources, state: OnlyStart { start } }
    }
}

// exclusive to OnlyDestination
impl<R: NavigatorResources> Navigator<R, OnlyDestination> {
    pub fn set_destination(self, destination: GlobalPos) -> (r: Navigator<R, OnlyDestination>)
        ensures
            r.res() == self.res(),
            r.st().destination == destination,
    {
        Navigator { resources: self.resources, state: OnlyDestination { destination } }
    }
}

// exclusive to OnlyStart
impl<R: NavigatorResources> Navigator<R, OnlyStart> {
    pub fn set_start(self, start: GlobalPos) -> (r: Navigator<R, OnlyStart>)
        ensures
            r.res() == self.res(),
            r.st().start == start,
    {
        Navigator { resources: self.resources, state: OnlyStart { start } }
    }
}

/// Whether a navigator with resources `res` and the given start and destination can take part in
/// computations: the resources are consistent and both positions lie where navigation works.
pub open spec fn nav_ready<R: NavigatorResources>(res: R, start: GlobalPos, destination: GlobalPos) -> bool {
    res.valid() && nav_pos(start@) && nav_pos(destination@)
}

// exclusive to Initialized
impl<R: NavigatorResources> Navigator<R, Initialized> {
    /// Computes the path.
    pub fn compute(self) -> (r: Result<Navigator<R, Ready>, Navigator<R, Failed>>)
        requires
            nav_ready(self.res(), self.st().start, self.st().destination),
        ensures
            r matches Ok(n) ==> n.st().start == self.st().start && n.st().destination == self.st().destination
                && n.res().valid() && R::computed_new(
                self.res(),
                n.res(),
                self.st().start@,
                self.st().destination@,
                Ok(()),
            ),
            r matches Err(n) ==> n.st().start == self.st().start && n.st().destination == self.st().destination
                && n.res().valid() && R::computed_new(
                self.res(),
                n.res(),
                self.st().start@,
                self.st().destination@,
                Err(n.st().error),
            ),
    {
        let (start, destination) = (self.state.start, self.state.destination);
        let mut resources = self.resources;
        let r = resources.compute_new(start, destination);
        match r {
            Ok(u) => {
                assert(u == ());
                assert(r == Ok::<(), NavigatorError>(()));
                Ok(Navigator { resources, state: Ready { start, destination } })
            },
            Err(error) => Err(
                Navigator {
                    resources,
                    state: Failed { start, destination, error },
                },
            ),
        }
    }
}

/// The target to head for after reaching `n` beacons of `res`'s path: the next beacon, or the
/// destination once no beacon is left.
pub open spec fn trivial_target<R: NavigatorResources>(res: R, n: int, destination: GlobalPos) -> (
    int,
    int,
) {
    if n < res.path().len() {
        res.beacon(res.path()[res.path().len() - 1 - n] as int)
    } else {
        destination@
    }
}

// exclusive to Ready
impl<R: NavigatorResources> Navigator<R, Ready> {
    /// Moves the start; an update of the path becomes due.
    pub fn set_start(self, start: GlobalPos) -> (r: Navigator<R, UpdateScheduled>)
        requires
            nav_ready(self.res(), self.st().start, self.st().destination),
            nav_pos(start@),
        ensures
            r.res() == self.res(),
            r.st().start == start,
            r.st().destination == self.st().destination,
            r.st().updates == ScheduledUpdate::scheduled(
                self.st().start@,
                start@,
                trivial_target(self.res(), 0, self.st().destination),
            ),
    {
        let target = self.next_trivial_target();
        let updates = ScheduledUpdate::new(self.state.start, start, target);
        Navigator {
            state: UpdateScheduled { start, destination: self.state.destination, updates },
            resources: self.resources,
        }
    }

    /// The next beacon of the path, or the destination if no beacon is left.
    pub fn next_trivial_target(&self) -> (r: GlobalPos)
        requires
            nav_ready(self.res(), self.st().start, self.st().destination),
        ensures
            r@ == trivial_target(self.res(), 0, self.st().destination),
            nav_pos(r@),
    {
        match self.resources.path_beacon(0) {
            Some(p) => p,
            None => self.state.destination,
        }
    }

    /// Whether the start has reached the destination.
    pub fn is_completed(&self) -> (r: bool)
        ensures
            r == (self.st().start@ == self.st().destination@),
    {
        self.state.start == self.state.destination
    }
}

/// Whether moving the start of a navigator with pending `updates` from `old_start` to `start`
/// can be recorded: the distance traveled since the last recomputation must fit a `u16`, and
/// the count of reached beacons too.
pub open spec fn update_fits(updates: ScheduledUpdate, old_start: (int, int), start: (int, int)) -> bool {
    &&& updates.reached() < u16::MAX
    &&& updates.kind() matches UpdateType::Recompute { traveled_since } ==> traveled_since + dist(
        start,
        old_start,
    ) <= u16::MAX
}

// exclusive to UpdateScheduled
impl<R: NavigatorResources> Navigator<R, UpdateScheduled> {
    /// Moves the start again; the due updates are brought up to date.
    pub fn set_start(self, start: GlobalPos) -> (r: Navigator<R, UpdateScheduled>)
        requires
            nav_ready(self.res(), self.st().start, self.st().destination),
            nav_pos(start@),
            update_fits(self.st().updates, self.st().start@, start@),
        ensures
            r.res() == self.res(),
            r.st().start == start,
            r.st().destination == self.st().destination,
            r.st().updates == self.st().updates.updated(
                self.st().start@,
                start@,
                trivial_target(self.res(), self.st().updates.reached(), self.st().destination),
            ),
    {
        let mut updates = self.state.updates;
        let target = match self.resources.path_beacon(updates.n_beacons_reached()) {
            Some(p) => p,
            None => self.state.destination,
        };
        updates.update(self.state.start, start, target);
        Navigator {
            state: UpdateScheduled { start, destination: self.state.destination, updates },
            resources: self.resources,
        }
    }

    /// Brings the path up to date.
    pub fn compute(self) -> (r: Result<Navigator<R, Ready>, Navigator<R, UpdateFailed>>)
        requires
            nav_ready(self.res(), self.st().start, self.st().destination),
        ensures
            r matches Ok(n) ==> n.st().start == self.st().start && n.st().destination == self.st().destination
                && n.res().valid() && R::computed_update(
                self.res(),
                n.res(),
                self.st().start@,
                self.st().destination@,
                self.st().updates,
                Ok(()),
            ),
            r matches Err(n) ==> n.st().start == self.st().start && n.st().destination == self.st().destination
                && n.st().updates == self.st().updates && n.res().valid() && R::computed_update(
                self.res(),
                n.res(),
                self.st().start@,
                self.st().destination@,
                self.st().updates,
                Err(n.st().error),
            ),
    {
        let (start, destination, updates) = (
            self.state.start,
            self.state.destination,
            self.state.updates,
        );
        let mut resources = self.resources;
        let r = resources.compute_update(start, destination, updates);
        match r {
            Ok(u) => {
                assert(u == ());
                assert(r == Ok::<(), NavigatorError>(()));
                Ok(Navigator { resources, state: Ready { start, destination } })
            },
            Err(error) => Err(
                Navigator {
                    resources,
                    state: UpdateFailed { start, destination, updates, error },
                },
            ),
        }
    }
}

// exclusive to UpdateFailed
impl<R: NavigatorResources> Navigator<R, UpdateFailed> {
    /// Moves the start again; the due updates are brought up to date.
    pub fn set_start(self, start: GlobalPos) -> (r: Navigator<R, UpdateScheduled>)
        requires
            nav_ready(self.res(), self.st().start, self.st().destination),
            nav_pos(start@),
            update_fits(self.st().updates, self.st().start@, start@),
        ensures
            r.res() == self.res(),
            r.st().start == start,
            r.st().destination == self.st().destination,
            r.st().updates == self.st().updates.updated(
                self.st().start@,
                start@,
                trivial_target(self.res(), self.st().updates.reached(), self.st().destination),
            ),
    {
        let mut updates = self.state.updates;
        let target = match self.resources.path_beacon(updates.n_beacons_reached()) {
            Some(p) => p,
            None => self.state.destination,
        };
        updates.update(self.state.start, start, target);
        Navigator {
            state: UpdateScheduled { start, destination: self.state.destination, updates },
            resources: self.resources,
        }
    }
}

/// A navigator in any of its states.
pub enum NavigatorEnum<R: NavigatorResources> {
    New(Navigator<R, New>),
    OnlyStart(Navigator<R, OnlyStart>),
    OnlyDestination(Navigator<R, OnlyDestination>),
    Initialized(Navigator<R, Initialized>),
    Ready(Navigator<R, Ready>),
    Failed(Navigator<R, Failed>),
    UpdateFailed(Navigator<R, UpdateFailed>),
    UpdateScheduled(Navigator<R, UpdateScheduled>),
    Invalid,
}

impl<R: NavigatorResources> NavigatorEnum<R> {
    /// The start, if one is set.
    pub open spec fn start_spec(&self) -> Option<GlobalPos> {
        match self {
            NavigatorEnum::OnlyStart(n) => Some(n.st().start),
            NavigatorEnum::Initialized(n) => Some(n.st().start),
            NavigatorEnum::Ready(n) => Some(n.st().start),
            NavigatorEnum::Failed(n) => Some(n.st().start),
            NavigatorEnum::UpdateFailed(n) => Some(n.st().start),
            NavigatorEnum::UpdateScheduled(n) => Some(n.st().start),
            _ => None,
        }
    }

    /// The destination, if one is set.
    pub open spec fn destination_spec(&self) -> Option<GlobalPos> {
        match self {
            NavigatorEnum::OnlyDestination(n) => Some(n.st().destination),
            NavigatorEnum::Initialized(n) => Some(n.st().destination),
            NavigatorEnum::Ready(n) => Some(n.st().destination),
            NavigatorEnum::Failed(n) => Some(n.st().destination),
            NavigatorEnum::UpdateFailed(n) => Some(n.st().destination),
            NavigatorEnum::UpdateScheduled(n) => Some(n.st().destination),
            _ => None,
        }
    }

    /// The resources, unless the navigator is invalid.
    pub open spec fn res_spec(&self) -> Option<R> {
        match self {
            NavigatorEnum::New(n) => Some(n.res()),
            NavigatorEnum::OnlyStart(n) => Some(n.res()),
            NavigatorEnum::OnlyDestination(n) => Some(n.res()),
            NavigatorEnum::Initialized(n) => Some(n.res()),
            NavigatorEnum::Ready(n) => Some(n.res()),
            NavigatorEnum::Failed(n) => Some(n.res()),
            NavigatorEnum::UpdateFailed(n) => Some(n.res()),
            NavigatorEnum::UpdateScheduled(n) => Some(n.res()),
            NavigatorEnum::Invalid => None,
        }
    }

    /// Whether moving the start to `start` is allowed: every set position and `start` lie where
    /// navigation works, the resources are consistent, and a pending update can record the move.
    pub open spec fn can_set_start(&self, start: GlobalPos) -> bool {
        &&& nav_pos(start@)
        &&& match self {
            NavigatorEnum::Ready(n) => nav_ready(n.res(), n.st().start, n.st().destination),
            NavigatorEnum::UpdateScheduled(n) => nav_ready(n.res(), n.st().start, n.st().destination)
                && update_fits(n.st().updates, n.st().start@, start@),
            NavigatorEnum::UpdateFailed(n) => nav_ready(n.res(), n.st().start, n.st().destination)
                && update_fits(n.st().updates, n.st().start@, start@),
            NavigatorEnum::Invalid => false,
            _ => true,
        }
    }

    /// Sets the destination; the path has to be computed anew once a start is known.
    pub fn set_destination(&mut self, destination: GlobalPos)
        requires
            !(*old(self) is Invalid),
        ensures
            final(self).destination_spec() == Some(destination),
            final(self).start_spec() == old(self).start_spec(),
            final(self).res_spec() == old(self).res_spec(),
            old(self).start_spec() is Some ==> *final(self) is Initialized,
            old(self).start_spec() is None ==> *final(self) is OnlyDestination,
    {
        let mut taken = Self::Invalid;
        core::mem::swap(&mut taken, self);
        *self = match taken {
            Self::New(nav) => NavigatorEnum::OnlyDestination(nav.set_destination(destination)),
            Self::OnlyStart(nav) => NavigatorEnum::Initialized(nav.set_destination(destination)),
            Self::OnlyDestination(nav) => NavigatorEnum::OnlyDestination(
                nav.set_destination(destination),
            ),
            Self::Initialized(nav) => NavigatorEnum::Initialized(nav.set_destination(destination)),
            Self::Ready(nav) => NavigatorEnum::Initialized(nav.set_destination(destination)),
            Self::Failed(nav) => NavigatorEnum::Initialized(nav.set_destination(destination)),
            Self::UpdateFailed(nav) => NavigatorEnum::Initialized(nav.set_destination(destination)),
            Self::UpdateScheduled(nav) => NavigatorEnum::Initialized(
                nav.set_destination(destination),
            ),
            Self::Invalid => Self::Invalid,
        };
    }

    /// Sets the start. With a computed path this schedules an update instead of a new
    /// computation.
    pub fn set_start(&mut self, start: GlobalPos)
        requires
            !(*old(self) is Invalid),
            old(self).can_set_start(start),
        ensures
            final(self).start_spec() == Some(start),
            final(self).destination_spec() == old(self).destination_spec(),
            final(self).res_spec() == old(self).res_spec(),
            old(self).destination_spec() is None ==> *final(self) is OnlyStart,
            (*old(self) is OnlyDestination || *old(self) is Initialized || *old(self) is Failed)
                ==> *final(self) is Initialized,
            (*old(self) is Ready || *old(self) is UpdateScheduled || *old(self) is UpdateFailed)
                ==> *final(self) is UpdateScheduled,
    {
        let mut taken = Self::Invalid;
        core::mem::swap(&mut taken, self);
        *self = match taken {
            Self::New(nav) => NavigatorEnum::OnlyStart(nav.set_start(start)),
            Self::OnlyStart(nav) => NavigatorEnum::OnlyStart(nav.set_start(start)),
            Self::OnlyDestination(nav) => NavigatorEnum::Initialized(nav.set_start(start)),
            Self::Initialized(nav) => NavigatorEnum::Initialized(nav.set_start(start)),
            Self::Ready(nav) => NavigatorEnum::UpdateScheduled(nav.set_start(start)),
            Self::Failed(nav) => NavigatorEnum::Initialized(nav.set_start(start)),
            Self::UpdateFailed(nav) => NavigatorEnum::UpdateScheduled(nav.set_start(start)),
            Self::UpdateScheduled(nav) => NavigatorEnum::UpdateScheduled(nav.set_start(start)),
            Self::Invalid => Self::Invalid,
        };
    }

    /// Forgets start and destination.
    pub fn reset(&mut self)
        requires
            !(*old(self) is Invalid),
        ensures
            *final(self) is New,
            final(self).res_spec() == old(self).res_spec(),
    {
        let mut taken = Self::Invalid;
        core::mem::swap(&mut taken, self);
        *self = match taken {
            Self::New(nav) => NavigatorEnum::New(nav),
            Self::OnlyStart(nav) => NavigatorEnum::New(nav.reset()),
            Self::OnlyDestination(nav) => NavigatorEnum::New(nav.reset()),
            Self::Initialized(nav) => NavigatorEnum::New(nav.reset()),
            Self::Ready(nav) => NavigatorEnum::New(nav.reset()),
            Self::Failed(nav) => NavigatorEnum::New(nav.reset()),
            Self::UpdateFailed(nav) => NavigatorEnum::New(nav.reset()),
            Self::UpdateScheduled(nav) => NavigatorEnum::New(nav.reset()),
            Self::Invalid => Self::Invalid,
        };
    }

    /// Runs a computation if one is due. The result says whether one was due, not whether it
    /// succeeded.
    pub fn try_compute(&mut self) -> (r: bool)
        requires
            !(*old(self) is Invalid),
            *old(self) is Initialized || *old(self) is UpdateScheduled ==> nav_ready(
                old(self).res_spec()->0,
                old(self).start_spec()->0,
                old(self).destination_spec()->0,
            ),
        ensures
            r == (*old(self) is Initialized || *old(self) is UpdateScheduled),
            !(*final(self) is Invalid),
            final(self).start_spec() == old(self).start_spec(),
            final(self).destination_spec() == old(self).destination_spec(),
            r ==> (*final(self) is Ready || *final(self) is Failed || *final(self) is UpdateFailed),
            !r ==> *final(self) == *old(self),
    {
        let success;
        let mut taken = Self::Invalid;
        core::mem::swap(&mut taken, self);
        let next = match taken {
            Self::Initialized(nav) => {
                success = true;
                match nav.compute() {
                    Ok(n) => NavigatorEnum::Ready(n),
                    Err(n) => NavigatorEnum::Failed(n),
                }
            },
            Self::UpdateScheduled(nav) => {
                success = true;
                match nav.compute() {
                    Ok(n) => NavigatorEnum::Ready(n),
                    Err(n) => NavigatorEnum::UpdateFailed(n),
                }
            },
            owned => {
                success = false;
                owned
            },
        };
        *self = next;
        success
    }

    /// The start, if one is set.
    pub fn try_get_start(&self) -> (r: Option<GlobalPos>)
        requires
            !(*self is Invalid),
        ensures
            r == self.start_spec(),
    {
        match self {
            Self::New(_nav) => None,
            Self::OnlyStart(nav) => Some(nav.get_start()),
            Self::OnlyDestination(_nav) => None,
            Self::Initialized(nav) => Some(nav.get_start()),
            Self::Ready(nav) => Some(nav.get_start()),
            Self::Failed(nav) => Some(nav.get_start()),
            Self::UpdateFailed(nav) => Some(nav.get_start()),
            Self::UpdateScheduled(nav) => Some(nav.get_start()),
            Self::Invalid => None,
        }
    }

    /// The destination, if one is set.
    pub fn try_get_destination(&self) -> (r: Option<GlobalPos>)
        requires
            !(*self is Invalid),
        ensures
            r == self.destination_spec(),
    {
        match self {
            Self::New(_nav) => None,
            Self::OnlyStart(_nav) => None,
            Self::OnlyDestination(nav) => Some(nav.get_destination()),
            Self::Initialized(nav) => Some(nav.get_destination()),
            Self::Ready(nav) => Some(nav.get_destination()),
            Self::Failed(nav) => Some(nav.get_destination()),
            Self::UpdateFailed(nav) => Some(nav.get_destination()),
            Self::UpdateScheduled(nav) => Some(nav.get_destination()),
            Self::Invalid => None,
        }
    }

    /// The error of the last computation, if it failed.
    pub fn try_get_error(&self) -> (r: Option<NavigatorError>)
        ensures
            r == match self {
                NavigatorEnum::Failed(n) => Some(n.st().error),
                NavigatorEnum::UpdateFailed(n) => Some(n.st().error),
                _ => None::<NavigatorError>,
            },
    {
        match self {
            Self::Failed(nav) => Some(nav.get_error()),
            Self::UpdateFailed(nav) => Some(nav.get_error()),
            _ => None,
        }
    }

    /// The next target, if the path is computed and up to date.
    pub fn try_next_trivial_target(&self) -> (r: Option<GlobalPos>)
        requires
            *self is Ready ==> nav_ready(
                self.res_spec()->0,
                self.start_spec()->0,
                self.destination_spec()->0,
            ),
        ensures
            r is Some <==> *self is Ready,
            r matches Some(p) ==> p@ == trivial_target(
                self.res_spec()->0,
                0,
                self.destination_spec()->0,
            ),
    {
        if let Self::Ready(nav) = self {
            Some(nav.next_trivial_target())
        } else {
            None
        }
    }

    /// The beacon indices of the path, in reverse order, if there is a path.
    pub fn try_get_beacons(&self) -> (r: Option<&[u16]>)
        ensures
            r is Some <==> (*self is Ready || *self is UpdateFailed || *self is UpdateScheduled),
            r matches Some(b) ==> b@ == self.res_spec()->0.path(),
    {
        match self {
            Self::Ready(nav) => Some(nav.get_beacons()),
            Self::UpdateFailed(nav) => Some(nav.get_beacons()),
            Self::UpdateScheduled(nav) => Some(nav.get_beacons()),
            _ => None,
        }
    }
}

} // verus!
