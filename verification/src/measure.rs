use vstd::prelude::*;

use crate::direction::{Direction, Rotation};
use crate::vec2::{component_in, negatable_vec, Coords, Global, Vec2};

verus! {

/// The absolute value of `x`.
pub open spec fn abs(x: int) -> int {
    if x < 0 {
        -x
    } else {
        x
    }
}

/// The larger of `a` and `b`.
pub open spec fn max(a: int, b: int) -> int {
    if a >= b {
        a
    } else {
        b
    }
}

/// The smaller of `a` and `b`.
pub open spec fn min(a: int, b: int) -> int {
    if a <= b {
        a
    } else {
        b
    }
}

/// The absolute value of `x`, which always fits in a `u16`.
pub fn unsigned_abs(x: i16) -> (r: u16)
    ensures
        r == abs(x as int),
{
    if x < 0 {
        (-(x as i32)) as u16
    } else {
        x as u16
    }
}

/// The Manhattan length of `v`.
pub open spec fn manhattan(v: (int, int)) -> int {
    abs(v.0) + abs(v.1)
}

/// The bot's walking time for `v` in units of 5000 clock cycles: four per step, and five for the
/// turn between the two legs when both components are nonzero.
pub open spec fn walk_time(v: (int, int)) -> int {
    let hi = max(abs(v.0), abs(v.1));
    let lo = min(abs(v.0), abs(v.1));
    if lo == 0 {
        hi * 4
    } else {
        hi * 4 + 5 + lo * 4
    }
}

/// A way to measure the length of a vector.
pub trait DistanceMeasure {
    /// The measured length of `v`.
    spec fn measure_spec(v: (int, int)) -> int;

    /// Whether the length of `v` fits the result type.
    spec fn measurable(v: (int, int)) -> bool;

    /// The measured length of `vec`.
    fn measure<C: Coords>(vec: Vec2<C>) -> (r: u16)
        requires
            Self::measurable(vec@),
        ensures
            r == Self::measure_spec(vec@),
    ;
}

/// The larger of the absolute components.
#[derive(Clone, Copy, Debug)]
pub struct DistanceMax;

/// The smaller of the absolute components.
#[derive(Clone, Copy, Debug)]
pub struct DistanceMin;

/// The taxi-cab length: the sum of the absolute components.
#[derive(Clone, Copy, Debug)]
pub struct DistanceManhattan;

/// How long the bot takes at least to walk this distance, in 5000 clock cycles.
#[derive(Clone, Copy, Debug)]
pub struct DistanceBotWalk;

/// How long the bot takes at least to stab a bot this far away, in 5000 clock cycles.
#[derive(Clone, Copy, Debug)]
pub struct DistanceBotStab;

impl DistanceMeasure for DistanceMax {
    open spec fn measure_spec(v: (int, int)) -> int {
        max(abs(v.0), abs(v.1))
    }

    open spec fn measurable(v: (int, int)) -> bool {
        true
    }

    fn measure<C: Coords>(vec: Vec2<C>) -> (r: u16) {
        let (d0, d1) = vec.to_generic();
        let (d0, d1) = (unsigned_abs(d0), unsigned_abs(d1));
        if d0 >= d1 {
            d0
        } else {
            d1
        }
    }
}

impl DistanceMeasure for DistanceMin {
    open spec fn measure_spec(v: (int, int)) -> int {
        min(abs(v.0), abs(v.1))
    }

    open spec fn measurable(v: (int, int)) -> bool {
        true
    }

    fn measure<C: Coords>(vec: Vec2<C>) -> (r: u16) {
        let (d0, d1) = vec.to_generic();
        let (d0, d1) = (unsigned_abs(d0), unsigned_abs(d1));
        if d0 <= d1 {
            d0
        } else {
            d1
        }
    }
}

impl DistanceMeasure for DistanceManhattan {
    open spec fn measure_spec(v: (int, int)) -> int {
        manhattan(v)
    }

    open spec fn measurable(v: (int, int)) -> bool {
        manhattan(v) <= u16::MAX
    }

    fn measure<C: Coords>(vec: Vec2<C>) -> (r: u16) {
        let (d0, d1) = vec.to_generic();
        let (d0, d1) = (unsigned_abs(d0), unsigned_abs(d1));
        d0 + d1
    }
}

impl DistanceMeasure for DistanceBotWalk {
    open spec fn measure_spec(v: (int, int)) -> int {
        walk_time(v)
    }

    open spec fn measurable(v: (int, int)) -> bool {
        walk_time(v) <= u16::MAX
    }

    fn measure<C: Coords>(vec: Vec2<C>) -> (r: u16) {
        let (d0, d1) = vec.to_generic();
        let (d0, d1) = (unsigned_abs(d0), unsigned_abs(d1));
        let (max, min) = if d0 >= d1 {
            (d0, d1)
        } else {
            (d1, d0)
        };
        if min == 0 {
            max * 4  // forward

        } else {
            max * 4 + 5 + min * 4  // forward, turn, forward

        }
    }
}

impl DistanceMeasure for DistanceBotStab {
    open spec fn measure_spec(v: (int, int)) -> int {
        if walk_time(v) >= 8 {
            walk_time(v) - 8
        } else {
            0
        }
    }

    open spec fn measurable(v: (int, int)) -> bool {
        walk_time(v) <= u16::MAX
    }

    fn measure<C: Coords>(vec: Vec2<C>) -> (r: u16) {
        let (d0, d1) = vec.to_generic();
        let (d0, d1) = (unsigned_abs(d0), unsigned_abs(d1));
        let (max, min) = if d0 >= d1 {
            (d0, d1)
        } else {
            (d1, d0)
        };
        if min == 0 {
            (max * 4).saturating_sub(8)  // forward

        } else {
            (max * 4 + 5 + min * 4).saturating_sub(8)  // forward, turn, forward

        }
    }
}

/// The number of quarter turns a bot facing `facing` needs before it can walk `v` forwards:
/// none if `v` has a forward part, or lies straight ahead or is zero; one if `v` points to a
/// side or is behind and to a side; two if it lies straight behind.
pub open spec fn initial_turns(v: (int, int), facing: Direction) -> int {
    let ahead = component_in(v, facing);
    let side = abs(component_in(v, facing.rotated(Rotation::Left)));
    if ahead < 0 {
        if side == 0 {
            2
        } else {
            1
        }
    } else if ahead == 0 {
        if side == 0 {
            0
        } else {
            1
        }
    } else {
        0
    }
}

/// How many 5000 clock cycles a bot facing `facing` needs at least to walk to `vec`; walking
/// backwards is not considered.
pub fn distance_walk_with_rotation(vec: Vec2<Global>, facing: Direction) -> (r: u16)
    requires
        negatable_vec(vec@),
        walk_time(vec@) + 10 <= u16::MAX,
    ensures
        r == 5 * initial_turns(vec@, facing) + walk_time(vec@),
{
    let ahead = vec.in_direction(facing);
    let side = unsigned_abs(vec.in_direction(facing + Rotation::Left));
    // additional initial rotations not covered by DistanceBotWalk
    let n_rotations: u16 = if ahead < 0 {
        if side == 0 {
            2
        } else {
            1
        }
    } else if ahead == 0 {
        if side == 0 {
            0
        } else {
            1
        }
    } else {
        0
    };
    5 * n_rotations + DistanceBotWalk::measure(vec)
}

} // verus!
