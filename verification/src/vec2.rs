use vstd::prelude::*;
use core::marker::PhantomData;
use core::ops::{Add, Mul, Neg, Sub};

use crate::direction::{Direction, Rotation};

verus! {

/// Marker trait that keeps the set of coordinate frames closed.
pub trait Sealed {

}

/// A coordinate frame for [`Vec2`].
pub trait Coords: Sealed + Copy {

}

/// The global frame: east and south.
#[derive(Clone, Copy, Debug)]
pub struct Global;

impl Sealed for Global {

}

impl Coords for Global {

}

/// The bot's local frame: front and right.
#[derive(Clone, Copy, Debug)]
pub struct Local;

impl Sealed for Local {

}

impl Coords for Local {

}

/// A vector on the grid. In the global frame its components are (east, south), in the local
/// frame (front, right).
#[derive(Debug)]
pub struct Vec2<C: Coords> {
    i1: i16,
    i2: i16,
    phantom: PhantomData<C>,
}

impl<C: Coords> Clone for Vec2<C> {
    fn clone(&self) -> (r: Self)
        ensures
            r == *self,
    {
        *self
    }
}

impl<C: Coords> Copy for Vec2<C> {

}

impl<C: Coords> View for Vec2<C> {
    type V = (int, int);

    closed spec fn view(&self) -> (int, int) {
        (self.i1 as int, self.i2 as int)
    }
}

/// Whether `x` fits in an `i16`.
pub open spec fn fits_i16(x: int) -> bool {
    i16::MIN <= x <= i16::MAX
}

/// Whether `x` can be negated within `i16`.
pub open spec fn negatable(x: int) -> bool {
    i16::MIN < x <= i16::MAX
}

/// The vector with components `(a, b)` turned by `r` quarter turns clockwise, where the first
/// component points forward (east) and the second to the right (south).
pub open spec fn rotate_spec(v: (int, int), r: Rotation) -> (int, int) {
    match r {
        Rotation::Id => v,
        Rotation::Inverse => (-v.0, -v.1),
        Rotation::Right => (-v.1, v.0),
        Rotation::Left => (v.1, -v.0),
    }
}

/// The global components of a local vector, for a bot facing `d`.
pub open spec fn local_to_global(v: (int, int), d: Direction) -> (int, int) {
    match d {
        Direction::North => (v.1, -v.0),
        Direction::South => (-v.1, v.0),
        Direction::East => (v.0, v.1),
        Direction::West => (-v.0, -v.1),
    }
}

/// The local components of a global vector, for a bot facing `d`.
pub open spec fn global_to_local(v: (int, int), d: Direction) -> (int, int) {
    match d {
        Direction::North => (-v.1, v.0),
        Direction::South => (v.1, -v.0),
        Direction::East => (v.0, v.1),
        Direction::West => (-v.0, -v.1),
    }
}

/// The component of a global vector in direction `d`.
pub open spec fn component_in(v: (int, int), d: Direction) -> int {
    match d {
        Direction::North => -v.1,
        Direction::South => v.1,
        Direction::East => v.0,
        Direction::West => -v.0,
    }
}

/// Whether both components of `v` can be negated within `i16`.
pub open spec fn negatable_vec(v: (int, int)) -> bool {
    negatable(v.0) && negatable(v.1)
}

impl Vec2<Global> {
    /// The same vector seen by a bot facing `direction`.
    pub fn local(self, direction: Direction) -> (r: Vec2<Local>)
        requires
            negatable_vec(self@),
        ensures
            r@ == global_to_local(self@, direction),
    {
        match direction {
            Direction::North => Vec2::new_front_right(self.north(), self.east()),
            Direction::South => Vec2::new_front_right(self.south(), self.west()),
            Direction::East => Vec2::new_front_right(self.east(), self.south()),
            Direction::West => Vec2::new_front_right(self.west(), self.north()),
        }
    }

    pub fn new_east(distance: i16) -> (r: Self)
        ensures
            r@ == (distance as int, 0int),
    {
        Self::new_east_south(distance, 0)
    }

    pub fn new_west(distance: i16) -> (r: Self)
        requires
            negatable(distance as int),
        ensures
            r@ == (-distance, 0int),
    {
        Self::new_east_south(-distance, 0)
    }

    pub fn new_north(distance: i16) -> (r: Self)
        requires
            negatable(distance as int),
        ensures
            r@ == (0int, -distance),
    {
        Self::new_east_south(0, -distance)
    }

    pub fn new_south(distance: i16) -> (r: Self)
        ensures
            r@ == (0int, distance as int),
    {
        Self::new_east_south(0, distance)
    }

    /// The vector of length `distance` pointing in `direction`.
    pub fn new_in_direction(direction: Direction, distance: i16) -> (r: Self)
        requires
            negatable(distance as int),
        ensures
            r@ == local_to_global((distance as int, 0int), direction),
    {
        Vec2::<Local>::new_front(distance).global(direction)
    }

    pub fn new_east_south(east: i16, south: i16) -> (r: Self)
        ensures
            r@ == (east as int, south as int),
    {
        Self { i1: east, i2: south, phantom: PhantomData }
    }

    pub fn east(&self) -> (r: i16)
        ensures
            r == self@.0,
    {
        self.i1
    }

    pub fn north(&self) -> (r: i16)
        requires
            negatable(self@.1),
        ensures
            r == -self@.1,
    {
        -self.i2
    }

    pub fn west(&self) -> (r: i16)
        requires
            negatable(self@.0),
        ensures
            r == -self@.0,
    {
        -self.i1
    }

    pub fn south(&self) -> (r: i16)
        ensures
            r == self@.1,
    {
        self.i2
    }

    /// The signed length of this vector along `direction`.
    pub fn in_direction(&self, direction: Direction) -> (r: i16)
        requires
            negatable_vec(self@),
        ensures
            r == component_in(self@, direction),
    {
        match direction {
            Direction::North => self.north(),
            Direction::South => self.south(),
            Direction::East => self.east(),
            Direction::West => self.west(),
        }
    }

    /// The directions in which this vector has a positive component: east or west first, then
    /// north or south.
    pub fn directions(self) -> (r: Vec<Direction>)
        ensures
            r@ == directions_spec(self@),
    {
        let e = self.east();
        let s = self.south();
        let mut r: Vec<Direction> = Vec::new();
        if e > 0 {
            r.push(Direction::East);
        } else if e < 0 {
            r.push(Direction::West);
        }
        if s > 0 {
            r.push(Direction::South);
        } else if s < 0 {
            r.push(Direction::North);
        }
        r
    }
}

/// The directions in which `v` has a positive component, east or west before north or south.
pub open spec fn directions_spec(v: (int, int)) -> Seq<Direction> {
    let ew: Seq<Direction> = if v.0 > 0 {
        seq![Direction::East]
    } else if v.0 < 0 {
        seq![Direction::West]
    } else {
        Seq::empty()
    };
    let ns: Seq<Direction> = if v.1 > 0 {
        seq![Direction::South]
    } else if v.1 < 0 {
        seq![Direction::North]
    } else {
        Seq::empty()
    };
    ew + ns
}

impl Vec2<Local> {
    pub fn new_front_right(front: i16, right: i16) -> (r: Self)
        ensures
            r@ == (front as int, right as int),
    {
        Self { i1: front, i2: right, phantom: PhantomData }
    }

    pub fn new_front(distance: i16) -> (r: Self)
        ensures
            r@ == (distance as int, 0int),
    {
        Self::new_front_right(distance, 0)
    }

    pub fn new_back(distance: i16) -> (r: Self)
        requires
            negatable(distance as int),
        ensures
            r@ == (-distance, 0int),
    {
        Self::new_front_right(-distance, 0)
    }

    pub fn new_right(distance: i16) -> (r: Self)
        ensures
            r@ == (0int, distance as int),
    {
        Self::new_front_right(0, distance)
    }

    pub fn new_left(distance: i16) -> (r: Self)
        requires
            negatable(distance as int),
        ensures
            r@ == (0int, -distance),
    {
        Self::new_front_right(0, -distance)
    }

    /// The vector of length `distance` pointing forward after turning by `rotation`.
    pub fn new_from_rotation(rotation: Rotation, distance: i16) -> (r: Self)
        requires
            negatable(distance as int),
        ensures
            r@ == rotate_spec((distance as int, 0int), rotation),
    {
        match rotation {
            Rotation::Id => Self::new_front_right(distance, 0),
            Rotation::Left => Self::new_front_right(0, -distance),
            Rotation::Right => Self::new_front_right(0, distance),
            Rotation::Inverse => Self::new_front_right(-distance, 0),
        }
    }

    /// The same vector in the global frame, for a bot facing `direction`.
    pub fn global(self, direction: Direction) -> (r: Vec2<Global>)
        requires
            negatable_vec(self@),
        ensures
            r@ == local_to_global(self@, direction),
    {
        match direction {
            Direction::North => Vec2::new_east_south(self.right(), self.back()),
            Direction::South => Vec2::new_east_south(self.left(), self.front()),
            Direction::East => Vec2::new_east_south(self.front(), self.right()),
            Direction::West => Vec2::new_east_south(self.back(), self.left()),
        }
    }

    pub fn front(self) -> (r: i16)
        ensures
            r == self@.0,
    {
        self.i1
    }

    pub fn right(self) -> (r: i16)
        ensures
            r == self@.1,
    {
        self.i2
    }

    pub fn left(self) -> (r: i16)
        requires
            negatable(self@.1),
        ensures
            r == -self@.1,
    {
        -self.i2
    }

    pub fn back(self) -> (r: i16)
        requires
            negatable(self@.0),
        ensures
            r == -self@.0,
    {
        -self.i1
    }
}

impl<C: Coords> Vec2<C> {
    pub fn new_generic(i1: i16, i2: i16) -> (r: Self)
        ensures
            r@ == (i1 as int, i2 as int),
    {
        Self { i1, i2, phantom: PhantomData }
    }

    pub fn to_generic(self) -> (r: (i16, i16))
        ensures
            r.0 == self@.0,
            r.1 == self@.1,
    {
        (self.i1, self.i2)
    }

    /// This vector turned by `rotator`.
    pub fn rotate(self, rotator: Rotation) -> (r: Self)
        requires
            negatable_vec(self@),
        ensures
            r@ == rotate_spec(self@, rotator),
    {
        match rotator {
            Rotation::Id => Self { i1: self.i1, i2: self.i2, phantom: PhantomData },
            Rotation::Inverse => Self { i1: -self.i1, i2: -self.i2, phantom: PhantomData },
            Rotation::Right => Self { i1: -self.i2, i2: self.i1, phantom: PhantomData },
            Rotation::Left => Self { i1: self.i2, i2: -self.i1, phantom: PhantomData },
        }
    }

    /// The zero vector, as a spec value.
    pub closed spec fn zero_spec() -> Self {
        Self { i1: 0, i2: 0, phantom: PhantomData }
    }

    /// Every pair of `i16` components is the view of some vector.
    pub proof fn lemma_of_components(v: (int, int)) -> (r: Self)
        requires
            fits_i16(v.0),
            fits_i16(v.1),
        ensures
            r@ == v,
    {
        Self { i1: v.0 as i16, i2: v.1 as i16, phantom: PhantomData }
    }

    /// The zero vector has zero components.
    pub proof fn lemma_zero_spec()
        ensures
            Self::zero_spec()@ == (0int, 0int),
    {
    }

    pub fn zero() -> (r: Self)
        ensures
            r@ == (0int, 0int),
            r == Self::zero_spec(),
    {
        Self { i1: 0, i2: 0, phantom: PhantomData }
    }

    /// Component-wise equality.
    pub fn equals(&self, other: &Self) -> (r: bool)
        ensures
            r == (self@ == other@),
    {
        self.i1 == other.i1 && self.i2 == other.i2
    }
}

impl<C: Coords> Default for Vec2<C> {
    fn default() -> (r: Self)
        ensures
            r@ == (0int, 0int),
    {
        Self::zero()
    }
}

impl<C: Coords> Sub for Vec2<C> {
    type Output = Self;

    fn sub(self, rhs: Self) -> (r: Self)
        ensures
            r@ == (self@.0 - rhs@.0, self@.1 - rhs@.1),
    {
        Self { i1: self.i1 - rhs.i1, i2: self.i2 - rhs.i2, phantom: PhantomData }
    }
}

impl<C: Coords> vstd::std_specs::ops::SubSpecImpl for Vec2<C> {
    open spec fn obeys_sub_spec() -> bool {
        false
    }

    open spec fn sub_req(self, rhs: Self) -> bool {
        fits_i16(self@.0 - rhs@.0) && fits_i16(self@.1 - rhs@.1)
    }

    open spec fn sub_spec(self, rhs: Self) -> Self {
        self
    }
}

impl<C: Coords> Add for Vec2<C> {
    type Output = Self;

    fn add(self, rhs: Self) -> (r: Self)
        ensures
            r@ == (self@.0 + rhs@.0, self@.1 + rhs@.1),
    {
        Self { i1: self.i1 + rhs.i1, i2: self.i2 + rhs.i2, phantom: PhantomData }
    }
}

impl<C: Coords> vstd::std_specs::ops::AddSpecImpl for Vec2<C> {
    open spec fn obeys_add_spec() -> bool {
        false
    }

    open spec fn add_req(self, rhs: Self) -> bool {
        fits_i16(self@.0 + rhs@.0) && fits_i16(self@.1 + rhs@.1)
    }

    open spec fn add_spec(self, rhs: Self) -> Self {
        self
    }
}

impl<C: Coords> Neg for Vec2<C> {
    type Output = Self;

    fn neg(self) -> (r: Self)
        ensures
            r@ == (-self@.0, -self@.1),
    {
        Self { i1: -self.i1, i2: -self.i2, phantom: PhantomData }
    }
}

impl<C: Coords> vstd::std_specs::ops::NegSpecImpl for Vec2<C> {
    open spec fn obeys_neg_spec() -> bool {
        false
    }

    open spec fn neg_req(self) -> bool {
        negatable_vec(self@)
    }

    open spec fn neg_spec(self) -> Self {
        self
    }
}

impl<C: Coords> Mul<i16> for Vec2<C> {
    type Output = Self;

    fn mul(self, rhs: i16) -> (r: Self)
        ensures
            r@ == (self@.0 * rhs, self@.1 * rhs),
    {
        Self { i1: self.i1 * rhs, i2: self.i2 * rhs, phantom: PhantomData }
    }
}

impl<C: Coords> vstd::std_specs::ops::MulSpecImpl<i16> for Vec2<C> {
    open spec fn obeys_mul_spec() -> bool {
        false
    }

    open spec fn mul_req(self, rhs: i16) -> bool {
        fits_i16(self@.0 * rhs) && fits_i16(self@.1 * rhs)
    }

    open spec fn mul_spec(self, rhs: i16) -> Self {
        self
    }
}

impl<C: Coords> PartialEq for Vec2<C> {
    fn eq(&self, other: &Self) -> (r: bool) {
        self.i1 == other.i1 && self.i2 == other.i2
    }
}

impl<C: Coords> vstd::std_specs::cmp::PartialEqSpecImpl for Vec2<C> {
    open spec fn obeys_eq_spec() -> bool {
        true
    }

    open spec fn eq_spec(&self, other: &Self) -> bool {
        self@ == other@
    }
}

impl<C: Coords> Eq for Vec2<C> {

}

/// Turning a local vector into the global frame and back gives the same vector, and the other way
/// round.
pub proof fn law_local_global_roundtrip(v: (int, int), d: Direction)
    ensures
        global_to_local(local_to_global(v, d), d) == v,
        local_to_global(global_to_local(v, d), d) == v,
{
}

/// Rotating by `r1` and then by `r2` is rotating by their composition.
pub proof fn law_rotate_compose(v: (int, int), r1: Rotation, r2: Rotation)
    ensures
        rotate_spec(rotate_spec(v, r1), r2) == rotate_spec(v, r1.compose(r2)),
{
}

/// Rotating by a rotation and then by its inverse gives the same vector.
pub proof fn law_rotate_inverse(v: (int, int), r: Rotation)
    ensures
        rotate_spec(rotate_spec(v, r), r.inverse()) == v,
{
}

/// Seeing a local vector after turning by `r` is seeing the rotated vector before turning.
pub proof fn law_global_rotated(v: (int, int), d: Direction, r: Rotation)
    ensures
        local_to_global(v, d.rotated(r)) == local_to_global(rotate_spec(v, r), d),
{
}

/// The directions of a vector with two nonzero components: first east or west, then south or
/// north; with one nonzero component, just that one.
pub proof fn lemma_directions_spec(v: (int, int))
    ensures
        v.0 != 0 && v.1 != 0 ==> directions_spec(v).len() == 2 && directions_spec(v)[0] == (if v.0
            > 0 { Direction::East } else { Direction::West }) && directions_spec(v)[1] == (if v.1 > 0 {
            Direction::South
        } else {
            Direction::North
        }),
        v.0 != 0 && v.1 == 0 ==> directions_spec(v).len() == 1 && directions_spec(v)[0] == (if v.0
            > 0 { Direction::East } else { Direction::West }),
        v.0 == 0 && v.1 != 0 ==> directions_spec(v).len() == 1 && directions_spec(v)[0] == (if v.1
            > 0 { Direction::South } else { Direction::North }),
        v.0 == 0 && v.1 == 0 ==> directions_spec(v).len() == 0,
{
}

/// Vectors with equal components are equal.
pub proof fn lemma_view_injective<C: Coords>(a: Vec2<C>, b: Vec2<C>)
    requires
        a@ == b@,
    ensures
        a == b,
{
}

} // verus!
