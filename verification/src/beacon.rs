use vstd::prelude::*;

use crate::measure::{manhattan, DistanceManhattan, DistanceMeasure};
use crate::pos::{nav_pos, GlobalPos};
use crate::vec2::directions_spec;
use crate::direction::Direction;

verus! {

/// Facts about a set of navigation beacons.
#[derive(Debug, Eq, PartialEq, Clone, Hash)]
pub struct BeaconInfo {
    pub max_beacon_dist: u32,
    /// from an arbitrary position, how many beacons are in sight (maximum)?
    pub max_beacons_entry: u32,
    /// for an arbitrary position, from how many beacons can it maximally be reached?
    pub max_beacons_exit: u32,
    /// what is the largest number of steps between any beacons
    pub max_path_length: u32,
    /// number of beacons
    pub n_beacons: u32,
}

/// The buffers of the navigator that can run full.
#[derive(Debug, Eq, PartialEq, Hash, Clone, Copy, Structural)]
pub enum Buffer {
    Path,
    TrivialNav,
    Active,
}

/// Why a navigation failed.
#[derive(Debug, Eq, PartialEq, Hash, Clone, Copy, Structural)]
pub enum NavigatorError {
    OutOfMemory(Buffer),
    NavigationImpossible,
    /// The cost of a path does not fit the counters of the search.
    CostOverflow,
}

/// What has to be done to bring a computed path up to date after the start moved.
#[derive(Clone, Copy, Debug, Eq, PartialEq, Hash, Structural)]
pub enum UpdateType {
    /// nothing to do
    TrivialNav,
    /// Recompute; to account for the distance traveled, a few extra path nodes are popped
    Recompute { traveled_since: u16 },
}

/// The updates to a computed path that are due since the start last moved.
#[derive(Clone, Copy, Debug, Eq, PartialEq, Hash, Structural)]
pub struct ScheduledUpdate {
    n_beacons_reached: u16,
    complexity: UpdateType,
}

/// Whether moving from `old_start` to `new_start` is a single step in one of the directions that
/// lead from `old_start` towards `trivial_dest`.
pub open spec fn good_single_step(old_start: (int, int), new_start: (int, int), trivial_dest: (
    int,
    int,
)) -> bool {
    let movement = (new_start.0 - old_start.0, new_start.1 - old_start.1);
    &&& manhattan(movement) == 1
    &&& directions_spec((trivial_dest.0 - old_start.0, trivial_dest.1 - old_start.1)).contains(
        directions_spec(movement)[0],
    )
}

/// The Manhattan distance between `a` and `b`.
pub open spec fn dist(a: (int, int), b: (int, int)) -> int {
    manhattan((a.0 - b.0, a.1 - b.1))
}

impl ScheduledUpdate {
    /// How many beacons of the path have been reached.
    pub closed spec fn reached(&self) -> int {
        self.n_beacons_reached as int
    }

    /// The kind of update that is due.
    pub closed spec fn kind(&self) -> UpdateType {
        self.complexity
    }

    /// The update due after the start moved from `old_start` to `new_start`, with next target
    /// `trivial_dest`.
    pub closed spec fn scheduled(old_start: (int, int), new_start: (int, int), trivial_dest: (
        int,
        int,
    )) -> ScheduledUpdate {
        if new_start == trivial_dest {
            ScheduledUpdate { n_beacons_reached: 1, complexity: UpdateType::TrivialNav }
        } else if new_start == old_start || good_single_step(old_start, new_start, trivial_dest) {
            ScheduledUpdate { n_beacons_reached: 0, complexity: UpdateType::TrivialNav }
        } else {
            ScheduledUpdate {
                n_beacons_reached: 0,
                complexity: UpdateType::Recompute {
                    traveled_since: dist(new_start, old_start) as u16,
                },
            }
        }
    }

    /// This update brought up to date after the start moved from `old_start` to `new_start`, with
    /// next target `trivial_dest`.
    pub closed spec fn updated(self, old_start: (int, int), new_start: (int, int), trivial_dest: (
        int,
        int,
    )) -> ScheduledUpdate {
        if new_start == trivial_dest {
            ScheduledUpdate {
                n_beacons_reached: (self.n_beacons_reached + 1) as u16,
                complexity: UpdateType::TrivialNav,
            }
        } else if new_start == old_start {
            self
        } else {
            ScheduledUpdate {
                n_beacons_reached: self.n_beacons_reached,
                complexity: match self.complexity {
                    UpdateType::TrivialNav => if good_single_step(old_start, new_start, trivial_dest) {
                        UpdateType::TrivialNav
                    } else {
                        UpdateType::Recompute { traveled_since: dist(new_start, old_start) as u16 }
                    },
                    UpdateType::Recompute { traveled_since } => UpdateType::Recompute {
                        traveled_since: (traveled_since + dist(new_start, old_start)) as u16,
                    },
                },
            }
        }
    }

    /// The update due after the start moved from `old_start` to `new_start`, where
    /// `trivial_dest` is the next target on the path.
    pub fn new(old_start: GlobalPos, new_start: GlobalPos, trivial_dest: GlobalPos) -> (r: Self)
        requires
            nav_pos(old_start@),
            nav_pos(new_start@),
            nav_pos(trivial_dest@),
        ensures
            r == Self::scheduled(old_start@, new_start@, trivial_dest@),
            new_start@ == trivial_dest@ ==> r.reached() == 1 && r.kind() == UpdateType::TrivialNav,
            new_start@ != trivial_dest@ ==> r.reached() == 0,
            new_start@ != trivial_dest@ && (new_start@ == old_start@ || good_single_step(
                old_start@,
                new_start@,
                trivial_dest@,
            )) ==> r.kind() == UpdateType::TrivialNav,
            new_start@ != trivial_dest@ && new_start@ != old_start@ && !good_single_step(
                old_start@,
                new_start@,
                trivial_dest@,
            ) ==> r.kind() == (UpdateType::Recompute {
                traveled_since: dist(new_start@, old_start@) as u16,
            }),
    {
        if new_start == trivial_dest {
            Self { n_beacons_reached: 1, complexity: UpdateType::TrivialNav }
        } else if new_start == old_start {
            Self { n_beacons_reached: 0, complexity: UpdateType::TrivialNav }
        } else {
            let movement = new_start - old_start;
            let movement_steps = DistanceManhattan::measure(movement);
            if movement_steps == 1 && Self::step_is_good(old_start, movement, trivial_dest) {
                // preferred case: single step in good dir, is really easy because of trivial
                // navigation rules
                Self { n_beacons_reached: 0, complexity: UpdateType::TrivialNav }
            } else {
                // new calculation needed
                Self {
                    n_beacons_reached: 0,
                    complexity: UpdateType::Recompute { traveled_since: movement_steps },
                }
            }
        }
    }

    /// Whether the single step `movement` from `old_start` goes in one of the directions towards
    /// `trivial_dest`.
    fn step_is_good(
        old_start: GlobalPos,
        movement: crate::vec2::Vec2<crate::vec2::Global>,
        trivial_dest: GlobalPos,
    ) -> (r: bool)
        requires
            nav_pos(old_start@),
            nav_pos(trivial_dest@),
            manhattan(movement@) == 1,
        ensures
            r == directions_spec((trivial_dest@.0 - old_start@.0, trivial_dest@.1 - old_start@.1)).contains(
                directions_spec(movement@)[0],
            ),
    {
        let moved_dirs = movement.directions();
        let dest_dirs = (trivial_dest - old_start).directions();
        assert(movement@.0 != 0 || movement@.1 != 0);
        assert(moved_dirs@.len() >= 1);
        let first = moved_dirs[0];
        assert(first == directions_spec(movement@)[0]);
        let mut i: usize = 0;
        while i < dest_dirs.len()
            invariant
                0 <= i <= dest_dirs@.len(),
                dest_dirs@ == directions_spec(
                    (trivial_dest@.0 - old_start@.0, trivial_dest@.1 - old_start@.1),
                ),
                first == directions_spec(movement@)[0],
                directions_spec(movement@).len() >= 1,
                forall|j: int| 0 <= j < i ==> dest_dirs@[j] != first,
            decreases dest_dirs@.len() - i,
        {
            if dest_dirs[i] == first {
                assert(dest_dirs@[i as int] == first);
                assert(dest_dirs@.contains(first));
                return true;
            }
            i = i + 1;
        }
        false
    }

    /// The kind of update that is due.
    pub(crate) fn complexity(&self) -> (r: UpdateType)
        ensures
            r == self.kind(),
    {
        self.complexity
    }

    /// How many beacons of the path have been reached.
    pub fn n_beacons_reached(&self) -> (r: u16)
        ensures
            r == self.reached(),
    {
        self.n_beacons_reached
    }

    /// Brings the due update up to date after the start moved again from `old_start` to
    /// `new_start`, where `trivial_dest` is the target after the beacons reached so far.
    pub fn update(&mut self, old_start: GlobalPos, new_start: GlobalPos, trivial_dest: GlobalPos)
        requires
            nav_pos(old_start@),
            nav_pos(new_start@),
            nav_pos(trivial_dest@),
            new_start@ == trivial_dest@ ==> old(self).reached() < u16::MAX,
            old(self).kind() matches UpdateType::Recompute { traveled_since } ==> traveled_since
                + dist(new_start@, old_start@) <= u16::MAX,
        ensures
            *final(self) == old(self).updated(old_start@, new_start@, trivial_dest@),
            new_start@ == trivial_dest@ ==> final(self).reached() == old(self).reached() + 1
                && final(self).kind() == UpdateType::TrivialNav,
            new_start@ != trivial_dest@ ==> final(self).reached() == old(self).reached(),
            new_start@ != trivial_dest@ && new_start@ == old_start@ ==> final(self).kind() == old(
                self,
            ).kind(),
            new_start@ != trivial_dest@ && new_start@ != old_start@ ==> final(self).kind() == match old(
                self,
            ).kind() {
                UpdateType::TrivialNav => if good_single_step(old_start@, new_start@, trivial_dest@) {
                    UpdateType::TrivialNav
                } else {
                    UpdateType::Recompute { traveled_since: dist(new_start@, old_start@) as u16 }
                },
                UpdateType::Recompute { traveled_since } => UpdateType::Recompute {
                    traveled_since: (traveled_since + dist(new_start@, old_start@)) as u16,
                },
            },
    {
        if new_start == trivial_dest {
            self.n_beacons_reached = self.n_beacons_reached + 1;
            self.complexity = UpdateType::TrivialNav;
        } else if new_start == old_start {
            // no change
        } else {
            match self.complexity {
                UpdateType::TrivialNav => {
                    let movement = new_start - old_start;
                    let movement_steps = DistanceManhattan::measure(movement);
                    if movement_steps == 1 && Self::step_is_good(old_start, movement, trivial_dest) {
                        // single step in good dir: no change
                    } else {
                        // new calculation needed
                        self.complexity = UpdateType::Recompute { traveled_since: movement_steps };
                    }
                },
                UpdateType::Recompute { traveled_since } => {
                    self.complexity = UpdateType::Recompute {
                        traveled_since: traveled_since + DistanceManhattan::measure(
                            new_start - old_start,
                        ),
                    };
                },
            }
        }
    }
}

} // verus!
