use vstd::prelude::*;

use crate::position::{Position, PositionAnchor};
use crate::vec2::Vec2;

verus! {

/// The anchor of positions on the known map: (0, 0) is the map's north-west corner.
#[derive(Clone, Copy, Debug, PartialEq, Eq, Hash)]
pub struct GpsAnchor;

impl PositionAnchor for GpsAnchor {

}

/// A position on the known map.
pub type GlobalPos = Position<GpsAnchor>;

/// The position `east` tiles east and `south` tiles south of the map's north-west corner.
pub fn pos_east_south(east: i16, south: i16) -> (r: GlobalPos)
    ensures
        r@ == (east as int, south as int),
{
    GlobalPos::add_to_anchor(Vec2::new_east_south(east, south))
}

/// Whether `p` lies where navigation works with it: each coordinate in `-16384..16384`, so
/// that the vector between two such positions and its Manhattan length fit their integer types.
pub open spec fn nav_pos(p: (int, int)) -> bool {
    -16384 <= p.0 < 16384 && -16384 <= p.1 < 16384
}

} // verus!
