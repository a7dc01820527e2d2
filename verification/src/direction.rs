use vstd::prelude::*;
use core::ops::{Add, AddAssign, Neg, Sub, SubAssign};

verus! {

/// A compass direction on the grid.
#[derive(Clone, Copy, Debug, Eq, PartialEq, Hash, Structural)]
pub enum Direction {
    North,
    East,
    South,
    West,
}

/// A rotation by a multiple of a quarter turn.
#[derive(Clone, Copy, Debug, Eq, PartialEq, Hash, Structural)]
pub enum Rotation {
    Id,
    Left,
    Right,
    Inverse,
}

impl Direction {
    /// Number of quarter turns clockwise from east.
    pub open spec fn turns(self) -> int {
        match self {
            Direction::East => 0,
            Direction::South => 1,
            Direction::West => 2,
            Direction::North => 3,
        }
    }

    /// The direction that lies `n` quarter turns clockwise from east.
    pub open spec fn from_turns(n: int) -> Direction {
        let m = n % 4;
        if m == 0 {
            Direction::East
        } else if m == 1 {
            Direction::South
        } else if m == 2 {
            Direction::West
        } else {
            Direction::North
        }
    }

    /// This direction turned by `r`.
    pub open spec fn rotated(self, r: Rotation) -> Direction {
        Direction::from_turns(self.turns() + r.turns())
    }

    /// The rotation that turns `other` into `self`.
    pub open spec fn rotation_from(self, other: Direction) -> Rotation {
        Rotation::from_turns(self.turns() - other.turns())
    }

    /// All four directions.
    pub fn all() -> (r: [Direction; 4])
        ensures
            r@ == seq![Direction::North, Direction::South, Direction::East, Direction::West],
    {
        [Direction::North, Direction::South, Direction::East, Direction::West]
    }

    fn to_num(self) -> (r: u8)
        ensures
            r == self.turns(),
    {
        match self {
            Direction::East => 0,
            Direction::South => 1,
            Direction::West => 2,
            Direction::North => 3,
        }
    }

    fn from_num(x: u8) -> (r: Direction)
        ensures
            r == Direction::from_turns(x as int),
    {
        let m: u8 = x % 4;
        if m == 0 {
            Direction::East
        } else if m == 1 {
            Direction::South
        } else if m == 2 {
            Direction::West
        } else {
            Direction::North
        }
    }
}

impl Rotation {
    /// Number of quarter turns clockwise.
    pub open spec fn turns(self) -> int {
        match self {
            Rotation::Id => 0,
            Rotation::Right => 1,
            Rotation::Inverse => 2,
            Rotation::Left => 3,
        }
    }

    /// The rotation by `n` quarter turns clockwise.
    pub open spec fn from_turns(n: int) -> Rotation {
        let m = n % 4;
        if m == 0 {
            Rotation::Id
        } else if m == 1 {
            Rotation::Right
        } else if m == 2 {
            Rotation::Inverse
        } else {
            Rotation::Left
        }
    }

    /// Turning by `self` and then by `other`.
    pub open spec fn compose(self, other: Rotation) -> Rotation {
        Rotation::from_turns(self.turns() + other.turns())
    }

    /// The rotation that undoes `self`.
    pub open spec fn inverse(self) -> Rotation {
        Rotation::from_turns(-self.turns())
    }

    /// All four rotations.
    pub fn all() -> (r: [Rotation; 4])
        ensures
            r@ == seq![Rotation::Id, Rotation::Left, Rotation::Right, Rotation::Inverse],
    {
        [Rotation::Id, Rotation::Left, Rotation::Right, Rotation::Inverse]
    }

    fn to_num(self) -> (r: u8)
        ensures
            r == self.turns(),
    {
        match self {
            Rotation::Id => 0,
            Rotation::Left => 3,
            Rotation::Right => 1,
            Rotation::Inverse => 2,
        }
    }

    fn from_num(x: u8) -> (r: Rotation)
        ensures
            r == Rotation::from_turns(x as int),
    {
        let m: u8 = x % 4;
        if m == 0 {
            Rotation::Id
        } else if m == 1 {
            Rotation::Right
        } else if m == 2 {
            Rotation::Inverse
        } else {
            Rotation::Left
        }
    }
}

impl Add<Rotation> for Direction {
    type Output = Direction;

    fn add(self, rhs: Rotation) -> (r: Direction)
        ensures
            r == self.rotated(rhs),
    {
        Direction::from_num(self.to_num() + rhs.to_num())
    }
}

impl vstd::std_specs::ops::AddSpecImpl<Rotation> for Direction {
    open spec fn obeys_add_spec() -> bool {
        true
    }

    open spec fn add_req(self, rhs: Rotation) -> bool {
        true
    }

    open spec fn add_spec(self, rhs: Rotation) -> Direction {
        Direction::from_turns(self.turns() + rhs.turns())
    }
}


impl AddAssign<Rotation> for Direction {
    fn add_assign(&mut self, rhs: Rotation)
        ensures
            *final(self) == Direction::from_turns(old(self).turns() + rhs.turns()),
    {
        *self = *self + rhs
    }
}

impl SubAssign<Rotation> for Direction {
    fn sub_assign(&mut self, rhs: Rotation)
        ensures
            *final(self) == Direction::from_turns(old(self).turns() - rhs.turns()),
    {
        *self = *self - rhs
    }
}

impl Sub<Rotation> for Direction {
    type Output = Direction;

    fn sub(self, rhs: Rotation) -> (r: Direction)
        ensures
            r == Direction::from_turns(self.turns() - rhs.turns()),
    {
        proof {
            lemma_turns_mod(self.turns() + rhs.inverse().turns(), self.turns() - rhs.turns());
        }
        self + rhs.neg()
    }
}

impl vstd::std_specs::ops::SubSpecImpl<Rotation> for Direction {
    open spec fn obeys_sub_spec() -> bool {
        true
    }

    open spec fn sub_req(self, rhs: Rotation) -> bool {
        true
    }

    open spec fn sub_spec(self, rhs: Rotation) -> Direction {
        Direction::from_turns(self.turns() - rhs.turns())
    }
}

impl Sub<Direction> for Direction {
    type Output = Rotation;

    /// The rotation that turns `rhs` into `self`.
    fn sub(self, rhs: Direction) -> (r: Rotation)
        ensures
            r == Rotation::from_turns(self.turns() - rhs.turns()),
    {
        proof {
            lemma_rotation_turns_mod(4 + self.turns() - rhs.turns(), self.turns() - rhs.turns());
        }
        // add 4 to keep positive
        Rotation::from_num(4 + self.to_num() - rhs.to_num())
    }
}

impl vstd::std_specs::ops::SubSpecImpl<Direction> for Direction {
    open spec fn obeys_sub_spec() -> bool {
        true
    }

    open spec fn sub_req(self, rhs: Direction) -> bool {
        true
    }

    open spec fn sub_spec(self, rhs: Direction) -> Rotation {
        Rotation::from_turns(self.turns() - rhs.turns())
    }
}

impl AddAssign for Rotation {
    fn add_assign(&mut self, rhs: Rotation)
        ensures
            *final(self) == Rotation::from_turns(old(self).turns() + rhs.turns()),
    {
        *self = *self + rhs;
    }
}

impl SubAssign for Rotation {
    fn sub_assign(&mut self, rhs: Rotation)
        ensures
            *final(self) == Rotation::from_turns(old(self).turns() - rhs.turns()),
    {
        *self = *self - rhs;
    }
}

impl Neg for Rotation {
    type Output = Rotation;

    fn neg(self) -> (r: Rotation)
        ensures
            r == Rotation::from_turns(-self.turns()),
    {
        match self {
            Rotation::Id => Rotation::Id,
            Rotation::Left => Rotation::Right,
            Rotation::Right => Rotation::Left,
            Rotation::Inverse => Rotation::Inverse,
        }
    }
}

impl vstd::std_specs::ops::NegSpecImpl for Rotation {
    open spec fn obeys_neg_spec() -> bool {
        true
    }

    open spec fn neg_req(self) -> bool {
        true
    }

    open spec fn neg_spec(self) -> Rotation {
        Rotation::from_turns(-self.turns())
    }
}

impl Add for Rotation {
    type Output = Rotation;

    fn add(self, rhs: Rotation) -> (r: Rotation)
        ensures
            r == Rotation::from_turns(self.turns() + rhs.turns()),
    {
        Rotation::from_num(self.to_num() + rhs.to_num())
    }
}

impl vstd::std_specs::ops::AddSpecImpl for Rotation {
    open spec fn obeys_add_spec() -> bool {
        true
    }

    open spec fn add_req(self, rhs: Rotation) -> bool {
        true
    }

    open spec fn add_spec(self, rhs: Rotation) -> Rotation {
        Rotation::from_turns(self.turns() + rhs.turns())
    }
}

impl Add<Direction> for Rotation {
    type Output = Direction;

    fn add(self, rhs: Direction) -> (r: Direction)
        ensures
            r == Direction::from_turns(rhs.turns() + self.turns()),
    {
        rhs + self
    }
}

impl vstd::std_specs::ops::AddSpecImpl<Direction> for Rotation {
    open spec fn obeys_add_spec() -> bool {
        true
    }

    open spec fn add_req(self, rhs: Direction) -> bool {
        true
    }

    open spec fn add_spec(self, rhs: Direction) -> Direction {
        Direction::from_turns(rhs.turns() + self.turns())
    }
}

impl Sub for Rotation {
    type Output = Rotation;

    fn sub(self, rhs: Rotation) -> (r: Rotation)
        ensures
            r == Rotation::from_turns(self.turns() - rhs.turns()),
    {
        proof {
            lemma_rotation_turns_mod(self.turns() + rhs.inverse().turns(), self.turns() - rhs.turns());
        }
        self + rhs.neg()
    }
}

impl vstd::std_specs::ops::SubSpecImpl for Rotation {
    open spec fn obeys_sub_spec() -> bool {
        true
    }

    open spec fn sub_req(self, rhs: Rotation) -> bool {
        true
    }

    open spec fn sub_spec(self, rhs: Rotation) -> Rotation {
        Rotation::from_turns(self.turns() - rhs.turns())
    }
}

impl Default for Rotation {
    fn default() -> (r: Rotation)
        ensures
            r == Rotation::Id,
    {
        Rotation::Id
    }
}

/// Two turn counts that agree modulo four name the same direction.
pub proof fn lemma_turns_mod(a: int, b: int)
    requires
        (a - b) % 4 == 0,
    ensures
        Direction::from_turns(a) == Direction::from_turns(b),
{
    assert(a % 4 == b % 4) by (nonlinear_arith)
        requires
            (a - b) % 4 == 0,
    ;
}

/// Two turn counts that agree modulo four name the same rotation.
pub proof fn lemma_rotation_turns_mod(a: int, b: int)
    requires
        (a - b) % 4 == 0,
    ensures
        Rotation::from_turns(a) == Rotation::from_turns(b),
{
    assert(a % 4 == b % 4) by (nonlinear_arith)
        requires
            (a - b) % 4 == 0,
    ;
}

/// A direction's turn count determines it, and a rotation's turn count determines it.
pub proof fn law_turns_roundtrip(d: Direction, r: Rotation, n: int)
    ensures
        Direction::from_turns(d.turns()) == d,
        Rotation::from_turns(r.turns()) == r,
        0 <= Direction::from_turns(n).turns() < 4,
        Direction::from_turns(n).turns() == n % 4,
        Rotation::from_turns(n).turns() == n % 4,
{
}

/// Turning by `r1` and then by `r2` is turning by `r1 + r2`.
pub proof fn law_direction_add_assoc(d: Direction, r1: Rotation, r2: Rotation)
    ensures
        d.rotated(r1).rotated(r2) == d.rotated(r1.compose(r2)),
{
    let a = d.turns();
    let b = r1.turns();
    let c = r2.turns();
    let x = Direction::from_turns(a + b).turns();
    let y = Rotation::from_turns(b + c).turns();
    assert(x == (a + b) % 4);
    assert(y == (b + c) % 4);
    assert(((x + c) - (a + y)) % 4 == 0) by (nonlinear_arith)
        requires
            x == (a + b) % 4,
            y == (b + c) % 4,
    ;
    lemma_turns_mod(x + c, a + y);
}

/// The rotation from `d2` to `d1` turns `d2` into `d1`.
pub proof fn law_direction_difference(d1: Direction, d2: Direction)
    ensures
        d2.rotated(d1.rotation_from(d2)) == d1,
{
    let a = d1.turns();
    let b = d2.turns();
    let y = Rotation::from_turns(a - b).turns();
    assert(y == (a - b) % 4);
    assert((b + y - a) % 4 == 0) by (nonlinear_arith)
        requires
            y == (a - b) % 4,
    ;
    lemma_turns_mod(b + y, a);
}

/// Turning by a rotation and then by its inverse leaves a direction unchanged; the inverse is an
/// involution, a rotation composed with its inverse is the identity, and the identity rotation
/// changes nothing.
pub proof fn law_rotation_inverse(d: Direction, r: Rotation)
    ensures
        d.rotated(r).rotated(r.inverse()) == d,
        d.rotated(Rotation::Id) == d,
        r.inverse().inverse() == r,
        r.compose(r.inverse()) == Rotation::Id,
{
    let a = d.turns();
    let b = r.turns();
    let x = Direction::from_turns(a + b).turns();
    let y = Rotation::from_turns(-b).turns();
    assert(x == (a + b) % 4);
    assert(y == (-b) % 4);
    assert((x + y - a) % 4 == 0) by (nonlinear_arith)
        requires
            x == (a + b) % 4,
            y == (-b) % 4,
    ;
    lemma_turns_mod(x + y, a);
}

/// Composition of rotations is associative.
pub proof fn lemma_rotation_assoc(r1: Rotation, r2: Rotation, r3: Rotation)
    ensures
        r1.compose(r2).compose(r3) == r1.compose(r2.compose(r3)),
{
}

/// Composition of rotations is commutative.
pub proof fn law_rotation_commutative(r1: Rotation, r2: Rotation)
    ensures
        r1.compose(r2) == r2.compose(r1),
{
}

} // verus!
