use vstd::prelude::*;

use crate::pos::GlobalPos;
use crate::vec2::{Global, Vec2};

verus! {

/// Whether bit `i` of the little-endian bit string `data` is set.
pub open spec fn bit_of(data: Seq<u8>, i: int) -> bool {
    (data[i / 8] >> ((i % 8) as u8)) & 1 == 1
}

/// The walkable terrain of the whole map, known in advance.
pub trait TrueMap {
    /// Whether the map's data are consistent with its size.
    spec fn valid(&self) -> bool;

    /// Whether the terrain at `pos` is walkable; outside the map it is not.
    spec fn walkable(&self, pos: (int, int)) -> bool;

    /// The width of the map.
    spec fn width_spec(&self) -> int;

    /// The height of the map.
    spec fn height_spec(&self) -> int;

    /// Whether the terrain at `pos` is walkable.
    fn get(&self, pos: GlobalPos) -> (r: bool)
        requires
            self.valid(),
        ensures
            r == self.walkable(pos@),
    ;

    /// The vector across the map from west to east.
    fn vec_east(&self) -> (r: Vec2<Global>)
        requires
            self.valid(),
        ensures
            r@ == (self.width_spec(), 0int),
    ;

    /// The vector across the map from north to south.
    fn vec_south(&self) -> (r: Vec2<Global>)
        requires
            self.valid(),
        ensures
            r@ == (0int, self.height_spec()),
    ;

    fn width(&self) -> (r: u16)
        requires
            self.valid(),
        ensures
            r == self.width_spec(),
    ;

    fn height(&self) -> (r: u16)
        requires
            self.valid(),
        ensures
            r == self.height_spec(),
    ;
}

/// A map of `WIDTH` by `HEIGHT` tiles, one bit per tile, row by row from the north-west corner;
/// meant to be generated at compile time.
pub struct TrueMapImpl<const WIDTH: u16, const HEIGHT: u16, const STORE: usize>(pub [u8; STORE]);

impl<const WIDTH: u16, const HEIGHT: u16, const STORE: usize> TrueMap for TrueMapImpl<
    WIDTH,
    HEIGHT,
    STORE,
> {
    open spec fn valid(&self) -> bool {
        &&& WIDTH <= i16::MAX
        &&& HEIGHT <= i16::MAX
        &&& WIDTH * HEIGHT <= 8 * STORE
    }

    open spec fn walkable(&self, pos: (int, int)) -> bool {
        &&& 0 <= pos.0 < WIDTH
        &&& 0 <= pos.1 < HEIGHT
        &&& bit_of(self.0@, pos.0 + pos.1 * WIDTH)
    }

    open spec fn width_spec(&self) -> int {
        WIDTH as int
    }

    open spec fn height_spec(&self) -> int {
        HEIGHT as int
    }

    fn get(&self, pos: GlobalPos) -> (r: bool) {
        let vec = pos.subtract_anchor();
        let east = vec.east();
        let south = vec.south();
        if east < 0 || east >= WIDTH as i16 || south < 0 || south >= HEIGHT as i16 {
            false
        } else {
            let e = east as usize;
            let s = south as usize;
            let w = WIDTH as usize;
            proof {
                assert(e + s * w < w * (HEIGHT as int)) by (nonlinear_arith)
                    requires
                        e < w,
                        s < HEIGHT,
                ;
                assert(w * (HEIGHT as int) <= 32767 * 32767) by (nonlinear_arith)
                    requires
                        w <= 32767,
                        HEIGHT <= 32767,
                ;
            }
            let index = e + s * w;
            let byte = self.0[index / 8];
            let bit = (index % 8) as u8;
            assert((byte & (1u8 << bit) != 0u8) == ((byte >> bit) & 1 == 1)) by (bit_vector)
                requires
                    bit < 8,
            ;
            (byte & (1u8 << bit)) != 0u8
        }
    }

    fn vec_east(&self) -> (r: Vec2<Global>) {
        Vec2::new_east(WIDTH as i16)
    }

    fn vec_south(&self) -> (r: Vec2<Global>) {
        Vec2::new_south(HEIGHT as i16)
    }

    fn width(&self) -> (r: u16) {
        WIDTH
    }

    fn height(&self) -> (r: u16) {
        HEIGHT
    }
}

} // verus!
