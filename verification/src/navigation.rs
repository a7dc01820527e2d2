use vstd::prelude::*;

use crate::direction::Direction;
use crate::grid_nav::{lemma_descends_step, task_of, Navigation};
use crate::pos_map::PosMap;
use crate::position::{step, Position};

verus! {

/// The map ran out of room for a new entry.
#[derive(Clone, Copy, Debug, PartialEq, Eq, Hash, Structural)]
pub struct OutOfMemory;

/// There is no navigation target.
#[derive(Clone, Copy, Debug, PartialEq, Eq, Hash, Structural)]
pub struct NoTarget;

/// A set of directions, one flag per direction.
#[derive(Clone, Copy, Debug, Eq, PartialEq, Default, Structural)]
pub struct DirectionCombination {
    pub north: bool,
    pub east: bool,
    pub south: bool,
    pub west: bool,
}

impl DirectionCombination {
    /// The flag of direction `dir`.
    pub open spec fn has(&self, dir: Direction) -> bool {
        match dir {
            Direction::East => self.east,
            Direction::North => self.north,
            Direction::West => self.west,
            Direction::South => self.south,
        }
    }

    /// Whether any direction is set.
    pub fn any(&self) -> (r: bool)
        ensures
            r == (self.north || self.east || self.south || self.west),
    {
        self.north || self.east || self.south || self.west
    }

    pub fn get(&self, dir: Direction) -> (r: bool)
        ensures
            r == self.has(dir),
    {
        match dir {
            Direction::East => self.east,
            Direction::North => self.north,
            Direction::West => self.west,
            Direction::South => self.south,
        }
    }

    pub fn set(&mut self, dir: Direction, val: bool)
        ensures
            final(self).has(dir) == val,
            forall|d: Direction| d != dir ==> final(self).has(d) == old(self).has(d),
    {
        match dir {
            Direction::East => self.east = val,
            Direction::North => self.north = val,
            Direction::West => self.west = val,
            Direction::South => self.south = val,
        }
    }

    /// The set directions, in the order north, south, east, west.
    pub fn all(&self) -> (r: Vec<Direction>)
        ensures
            r@ == seq![Direction::North, Direction::South, Direction::East, Direction::West].filter(
                |d: Direction| self.has(d),
            ),
    {
        let ghost order = seq![Direction::North, Direction::South, Direction::East, Direction::West];
        let ghost pred = |d: Direction| self.has(d);
        let dirs = Direction::all();
        let mut ret: Vec<Direction> = Vec::new();
        let mut i: usize = 0;
        while i < 4
            invariant
                0 <= i <= 4,
                dirs@ == order,
                order == seq![Direction::North, Direction::South, Direction::East, Direction::West],
                pred == (|d: Direction| self.has(d)),
                ret@ == order.take(i as int).filter(pred),
            decreases 4 - i,
        {
            let dir = dirs[i];
            proof {
                assert(order.take(i + 1) == order.take(i as int).push(dir));
                order.take(i as int).lemma_filter_push(dir, pred);
            }
            if self.get(dir) {
                ret.push(dir);
            }
            i = i + 1;
        }
        proof {
            assert(order.take(4) == order);
        }
        ret
    }
}

/// Where a navigation from `from` to `to` stands.
#[derive(Debug)]
pub enum State<T> {
    Ready,
    Running(T),
    Success(T),
    Error(OutOfMemory),
    Impossible(T),
}

/// A navigation request: find a way from `from` to `to`.
#[derive(Debug, Eq, PartialEq, Clone, Copy)]
pub struct NavigationTask {
    pub from: Position,
    pub to: Position,
}

impl State<NavigationTask> {
    /// The task, unless there is none or the state is an error.
    pub fn task(&self) -> (r: Option<NavigationTask>)
        ensures
            r == match *self {
                State::Running(t) => Some(t),
                State::Success(t) => Some(t),
                State::Impossible(t) => Some(t),
                _ => None::<NavigationTask>,
            },
    {
        match self {
            State::Ready => None,
            State::Running(task) => Some(*task),
            State::Success(task) => Some(*task),
            State::Error(_) => None,
            State::Impossible(task) => Some(*task),
        }
    }

    pub fn is_success(&self) -> (r: bool)
        ensures
            r == (*self is Success),
    {
        matches!(self, State::Success(_))
    }
}

/// Where a navigation has a task, every cell with a distance but the target has a neighbor with
/// a smaller distance: following the directions of `next_step` leads to the target, with the
/// distance shrinking at every step.
pub proof fn law_next_step_descends<T: PosMap<Option<u16>>, const N: usize>(
    nav: Navigation<T, N>,
    pos: (int, int),
)
    requires
        nav.inv(),
        task_of(nav.state_of()) is Some,
        nav.dist(pos) is Some,
        pos != task_of(nav.state_of()).unwrap().to@,
    ensures
        exists|d: Direction|
            #![trigger step(pos, d)]
            nav.dist(step(pos, d)) is Some && nav.dist(step(pos, d)).unwrap() < nav.dist(pos).unwrap(),
{
    nav.lemma_inv();
    lemma_descends_step(nav.distances_of(), pos);
}

} // verus!
