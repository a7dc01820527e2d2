use vstd::prelude::*;
use core::marker::PhantomData;
use core::ops::{Add, Sub};

use crate::direction::Direction;
use crate::vec2::{fits_i16, negatable, Global, Vec2};

verus! {

/// Distinguishes different choices of the (0, 0) position.
pub trait PositionAnchor: Copy {

}

/// The default anchor.
#[derive(Clone, Copy, Debug, PartialEq, Eq, Hash)]
pub struct AnchorDefault;

impl PositionAnchor for AnchorDefault {

}

/// A position on the grid, as (east, south) relative to its anchor.
#[derive(Debug)]
pub struct Position<Anchor: PositionAnchor = AnchorDefault> {
    east: i16,
    south: i16,
    _phantom: PhantomData<Anchor>,
}

impl<Anchor: PositionAnchor> View for Position<Anchor> {
    type V = (int, int);

    closed spec fn view(&self) -> (int, int) {
        (self.east as int, self.south as int)
    }
}

impl<Anchor: PositionAnchor> Clone for Position<Anchor> {
    fn clone(&self) -> (r: Self)
        ensures
            r == *self,
    {
        *self
    }
}

impl<Anchor: PositionAnchor> Copy for Position<Anchor> {

}

impl<Anchor: PositionAnchor> PartialEq for Position<Anchor> {
    fn eq(&self, other: &Self) -> (r: bool) {
        self.east == other.east && self.south == other.south
    }
}

impl<Anchor: PositionAnchor> vstd::std_specs::cmp::PartialEqSpecImpl for Position<Anchor> {
    open spec fn obeys_eq_spec() -> bool {
        true
    }

    open spec fn eq_spec(&self, other: &Self) -> bool {
        self@ == other@
    }
}

impl<Anchor: PositionAnchor> Eq for Position<Anchor> {

}

impl<Anchor: PositionAnchor> Default for Position<Anchor> {
    fn default() -> (r: Self)
        ensures
            r@ == (0int, 0int),
    {
        Self { east: 0, south: 0, _phantom: PhantomData }
    }
}

impl<Anchor: PositionAnchor> Position<Anchor> {
    /// The anchor itself, as a spec value.
    pub closed spec fn origin_spec() -> Self {
        Self { east: 0, south: 0, _phantom: PhantomData }
    }
}

/// Whether `p` is at least one step away from the edges of the `i16` range.
pub open spec fn inner_pos(p: (int, int)) -> bool {
    i16::MIN < p.0 < i16::MAX && i16::MIN < p.1 < i16::MAX
}

/// The position one step from `p` in direction `d`.
pub open spec fn step(p: (int, int), d: Direction) -> (int, int) {
    match d {
        Direction::East => (p.0 + 1, p.1),
        Direction::West => (p.0 - 1, p.1),
        Direction::North => (p.0, p.1 - 1),
        Direction::South => (p.0, p.1 + 1),
    }
}

impl<Anchor: PositionAnchor> Position<Anchor> {
    /// The four neighboring positions, each with the direction that leads there, in the order
    /// east, west, north, south.
    pub fn neighbors(self) -> (r: [(Self, Direction); 4])
        requires
            inner_pos(self@),
        ensures
            r[0].1 == Direction::East,
            r[1].1 == Direction::West,
            r[2].1 == Direction::North,
            r[3].1 == Direction::South,
            forall|i: int| 0 <= i < 4 ==> (#[trigger] r[i]).0@ == step(self@, r[i].1),
    {
        [
            (self + Vec2::new_east(1), Direction::East),
            (self + Vec2::new_west(1), Direction::West),
            (self + Vec2::new_north(1), Direction::North),
            (self + Vec2::new_south(1), Direction::South),
        ]
    }

    /// The vector from the anchor to this position.
    pub fn subtract_anchor(self) -> (r: Vec2<Global>)
        ensures
            r@ == self@,
    {
        Vec2::new_east_south(self.east, self.south)
    }

    /// The position at `vec` from the anchor.
    pub fn add_to_anchor(vec: Vec2<Global>) -> (r: Self)
        ensures
            r@ == vec@,
    {
        Self { east: vec.east(), south: vec.south(), _phantom: PhantomData }
    }
}

impl<Anchor: PositionAnchor> Add<Vec2<Global>> for Position<Anchor> {
    type Output = Self;

    fn add(self, rhs: Vec2<Global>) -> (r: Self)
        ensures
            r@ == (self@.0 + rhs@.0, self@.1 + rhs@.1),
    {
        Self { east: self.east + rhs.east(), south: self.south + rhs.south(), _phantom: PhantomData }
    }
}

impl<Anchor: PositionAnchor> vstd::std_specs::ops::AddSpecImpl<Vec2<Global>> for Position<Anchor> {
    open spec fn obeys_add_spec() -> bool {
        false
    }

    open spec fn add_req(self, rhs: Vec2<Global>) -> bool {
        fits_i16(self@.0 + rhs@.0) && fits_i16(self@.1 + rhs@.1)
    }

    open spec fn add_spec(self, rhs: Vec2<Global>) -> Self {
        self
    }
}

impl<Anchor: PositionAnchor> Sub<Vec2<Global>> for Position<Anchor> {
    type Output = Self;

    fn sub(self, rhs: Vec2<Global>) -> (r: Self)
        ensures
            r@ == (self@.0 - rhs@.0, self@.1 - rhs@.1),
    {
        Self { east: self.east - rhs.east(), south: self.south - rhs.south(), _phantom: PhantomData }
    }
}

impl<Anchor: PositionAnchor> vstd::std_specs::ops::SubSpecImpl<Vec2<Global>> for Position<Anchor> {
    open spec fn obeys_sub_spec() -> bool {
        false
    }

    open spec fn sub_req(self, rhs: Vec2<Global>) -> bool {
        fits_i16(self@.0 - rhs@.0) && fits_i16(self@.1 - rhs@.1)
    }

    open spec fn sub_spec(self, rhs: Vec2<Global>) -> Self {
        self
    }
}

impl<Anchor: PositionAnchor> Sub<Position<Anchor>> for Position<Anchor> {
    type Output = Vec2<Global>;

    /// The vector from `rhs` to `self`.
    fn sub(self, rhs: Position<Anchor>) -> (r: Vec2<Global>)
        ensures
            r@ == (self@.0 - rhs@.0, self@.1 - rhs@.1),
    {
        Vec2::new_east_south(self.east - rhs.east, self.south - rhs.south)
    }
}

impl<Anchor: PositionAnchor> vstd::std_specs::ops::SubSpecImpl<Position<Anchor>> for Position<Anchor> {
    open spec fn obeys_sub_spec() -> bool {
        false
    }

    open spec fn sub_req(self, rhs: Position<Anchor>) -> bool {
        fits_i16(self@.0 - rhs@.0) && fits_i16(self@.1 - rhs@.1)
    }

    open spec fn sub_spec(self, rhs: Position<Anchor>) -> Vec2<Global> {
        Vec2::<Global>::zero_spec()
    }
}

impl<Anchor: PositionAnchor> Add<Position<Anchor>> for Vec2<Global> {
    type Output = Position<Anchor>;

    fn add(self, rhs: Position<Anchor>) -> (r: Position<Anchor>)
        ensures
            r@ == (self@.0 + rhs@.0, self@.1 + rhs@.1),
    {
        Position { east: self.east() + rhs.east, south: self.south() + rhs.south, _phantom: PhantomData }
    }
}

impl<Anchor: PositionAnchor> vstd::std_specs::ops::AddSpecImpl<Position<Anchor>> for Vec2<Global> {
    open spec fn obeys_add_spec() -> bool {
        false
    }

    open spec fn add_req(self, rhs: Position<Anchor>) -> bool {
        fits_i16(self@.0 + rhs@.0) && fits_i16(self@.1 + rhs@.1)
    }

    open spec fn add_spec(self, rhs: Position<Anchor>) -> Position<Anchor> {
        rhs
    }
}

impl<Anchor: PositionAnchor> Position<Anchor> {
    /// The coordinates fit `i16`.
    pub proof fn lemma_range(&self)
        ensures
            i16::MIN <= self@.0 <= i16::MAX,
            i16::MIN <= self@.1 <= i16::MAX,
    {
    }

    /// Whether both positions have the same coordinates.
    pub fn same_as(&self, other: &Self) -> (r: bool)
        ensures
            r == (self@ == other@),
    {
        self.east == other.east && self.south == other.south
    }
}

/// Positions with equal coordinates are equal.
pub proof fn lemma_position_view_injective<A: PositionAnchor>(a: Position<A>, b: Position<A>)
    requires
        a@ == b@,
    ensures
        a == b,
{
}

/// Adding the vector from `b` to `a` onto `b` gives `a`.
pub proof fn law_position_difference(a: (int, int), b: (int, int))
    ensures
        (b.0 + (a.0 - b.0), b.1 + (a.1 - b.1)) == a,
{
}

} // verus!
