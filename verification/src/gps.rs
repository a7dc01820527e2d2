use vstd::prelude::*;

use crate::direction::Direction;
use crate::radar::{vec_to_offset, within, RadarScan, RadarSize, D3, D5, D7, D9};
use crate::vec2::{global_to_local, Global, Vec2};

verus! {

/// A vector lies outside a map section.
#[derive(Debug, Eq, PartialEq, Hash, Clone, Copy, Structural)]
pub struct OutOfBounds;

/// A square section of the map around a bot, `N` by `N` tiles, walkable or not; indexed by
/// east, then north, each offset by the radius.
#[derive(Debug, Eq, PartialEq, Hash, Clone, Copy)]
pub struct MapSection<const N: usize>(pub [[bool; N]; N]);

/// The index in the compressed bits of the cell `east` tiles east and `north` tiles north of
/// the center of a section of radius `r`: cells column by column from the west, each from the
/// south, leaving out the center.
pub open spec fn compressed_index(r: int, east: int, north: int) -> int {
    let raw = (east + r) * (2 * r + 1) + (north + r);
    let center = r * (2 * r + 1) + r;
    if raw > center {
        raw - 1
    } else {
        raw
    }
}

/// Whether bit `k` of `bytes` is set.
pub open spec fn bit(bytes: Seq<u8>, k: int) -> bool {
    bytes[k / 8] & (1u8 << ((k % 8) as u8)) != 0
}

/// A section of radius `R`, stored in an `N` by `N` array.
pub trait MapSectionTrait: Sized {
    /// The size of the radar scan the section comes from.
    type Size: RadarSize;

    /// The compressed form.
    type Compressed;

    /// Whether the cell at the global vector `v` (east, south) from the center is walkable.
    spec fn cell(&self, v: (int, int)) -> bool;

    /// The bytes of a compressed section.
    spec fn bytes(c: &Self::Compressed) -> Seq<u8>;

    /// The name of the compressed type.
    fn compressed_type() -> &'static str;

    /// A section with no walkable cell.
    fn empty() -> (r: Self)
        ensures
            forall|v: (int, int)| within(v, Self::Size::radius_spec()) ==> !#[trigger] r.cell(v),
    ;

    /// Whether the cell at `vec` is walkable, or an error outside the section.
    fn get(&self, vec: Vec2<Global>) -> (r: Result<bool, OutOfBounds>)
        ensures
            r is Ok <==> within(vec@, Self::Size::radius_spec()),
            r matches Ok(b) ==> b == self.cell(vec@),
    ;

    /// Sets whether the cell at `vec` is walkable, or fails outside the section.
    fn set(&mut self, vec: Vec2<Global>, val: bool) -> (r: Result<(), OutOfBounds>)
        ensures
            r is Ok <==> within(vec@, Self::Size::radius_spec()),
            forall|v: (int, int)|
                within(v, Self::Size::radius_spec()) ==> #[trigger] final(self).cell(v) == if v
                    == vec@ {
                    val
                } else {
                    old(self).cell(v)
                },
    ;

    /// The smallest representation of the section: one bit per cell but the center, in the
    /// order of [`compressed_index`]; `None` where the center is not walkable.
    fn compress(&self) -> (r: Option<Self::Compressed>)
        ensures
            r is Some <==> self.cell((0, 0)),
            r matches Some(c) ==> Self::bytes(&c).len() * 8 >= Self::Size::radius_spec() * 2 * (
            Self::Size::radius_spec() * 2 + 2),
            r matches Some(c) ==> forall|v: (int, int)|
                within(v, Self::Size::radius_spec()) && v != (0int, 0int) ==> #[trigger] self.cell(v)
                    == bit(
                    Self::bytes(&c),
                    compressed_index(Self::Size::radius_spec(), v.0, -v.1),
                ),
            r matches Some(c) ==> forall|k: int|
                Self::Size::radius_spec() * 2 * (Self::Size::radius_spec() * 2 + 2) <= k < Self::bytes(
                    &c,
                ).len() * 8 ==> !#[trigger] bit(Self::bytes(&c), k),
    ;

    /// The section that `compressed` represents; its center is walkable.
    fn from_compressed(compressed: Self::Compressed) -> (r: Self)
        ensures
            forall|v: (int, int)|
                within(v, Self::Size::radius_spec()) ==> #[trigger] r.cell(v) == (v == (0int, 0int)
                    || bit(
                    Self::bytes(&compressed),
                    compressed_index(Self::Size::radius_spec(), v.0, -v.1),
                )),
    ;

    /// Whether the center is walkable.
    fn at_center(&self) -> (r: bool)
        ensures
            r == self.cell((0, 0)),
    {
        proof {
            Self::Size::lemma_radius();
        }
        match self.get(Vec2::zero()) {
            Ok(b) => b,
            Err(_) => false,
        }
    }

    /// The section whose cell at each vector is what `f` says of it.
    fn from_function<F: Fn(Vec2<Global>) -> bool>(f: F) -> (r: Self)
        requires
            forall|vec: Vec2<Global>| within(vec@, Self::Size::radius_spec()) ==> #[trigger] f.requires((vec,)),
        ensures
            forall|vec: Vec2<Global>|
                within(vec@, Self::Size::radius_spec()) ==> f.ensures((vec,), #[trigger] r.cell(vec@)),
    {
        proof {
            Self::Size::lemma_radius();
        }
        let mut ret = Self::empty();
        let (lo, hi) = Self::Size::range();
        let ghost rad = Self::Size::radius_spec();
        let mut i_east: i8 = lo;
        while i_east <= hi
            invariant
                lo == -rad,
                hi == rad,
                rad == Self::Size::radius_spec(),
                1 <= rad <= 4,
                -rad <= i_east <= rad + 1,
                forall|vec: Vec2<Global>| within(vec@, Self::Size::radius_spec()) ==> #[trigger] f.requires((vec,)),
                forall|vec: Vec2<Global>|
                    within(vec@, rad) && vec@.0 < i_east ==> f.ensures((vec,), #[trigger] ret.cell(vec@)),
            decreases rad + 1 - i_east,
        {
            let mut i_south: i8 = lo;
            while i_south <= hi
                invariant
                    lo == -rad,
                    hi == rad,
                    rad == Self::Size::radius_spec(),
                    1 <= rad <= 4,
                    -rad <= i_east <= rad,
                    -rad <= i_south <= rad + 1,
                    forall|vec: Vec2<Global>| within(vec@, Self::Size::radius_spec()) ==> #[trigger] f.requires((vec,)),
                    forall|vec: Vec2<Global>|
                        within(vec@, rad) && (vec@.0 < i_east || (vec@.0 == i_east && vec@.1 < i_south))
                            ==> f.ensures((vec,), #[trigger] ret.cell(vec@)),
                decreases rad + 1 - i_south,
            {
                let vec = Vec2::new_east_south(i_east as i16, i_south as i16);
                let val = f(vec);
                let ghost before = ret;
                let _ = ret.set(vec, val);
                proof {
                    assert forall|w: Vec2<Global>|
                        within(w@, rad) && (w@.0 < i_east || (w@.0 == i_east && w@.1 < i_south + 1))
                            implies f.ensures((w,), #[trigger] ret.cell(w@)) by {
                        if w@ == vec@ {
                            crate::vec2::lemma_view_injective(w, vec);
                        } else {
                            assert(f.ensures((w,), before.cell(w@)));
                        }
                    }
                }
                i_south = i_south + 1;
            }
            i_east = i_east + 1;
        }
        ret
    }

    /// The section seen by a radar scan of a bot facing `facing`.
    fn from_scan(scan: &RadarScan<Self::Size>, facing: Direction) -> (r: Self)
        ensures
            forall|v: (int, int)|
                within(v, Self::Size::radius_spec()) ==> #[trigger] r.cell(v) == scan.tile_at(
                    vec_to_offset(global_to_local(v, facing)),
                ).walkable(),
    {
        proof {
            Self::Size::lemma_radius();
        }
        let mut ret = Self::empty();
        let (lo, hi) = Self::Size::range();
        let ghost rad = Self::Size::radius_spec();
        let mut i_east: i8 = lo;
        while i_east <= hi
            invariant
                lo == -rad,
                hi == rad,
                rad == Self::Size::radius_spec(),
                1 <= rad <= 4,
                -rad <= i_east <= rad + 1,
                forall|v: (int, int)|
                    within(v, rad) && v.0 < i_east ==> #[trigger] ret.cell(v) == scan.tile_at(
                        vec_to_offset(global_to_local(v, facing)),
                    ).walkable(),
            decreases rad + 1 - i_east,
        {
            let mut i_north: i8 = lo;
            while i_north <= hi
                invariant
                    lo == -rad,
                    hi == rad,
                    rad == Self::Size::radius_spec(),
                    1 <= rad <= 4,
                    -rad <= i_east <= rad,
                    -rad <= i_north <= rad + 1,
                    forall|v: (int, int)|
                        within(v, rad) && (v.0 < i_east || (v.0 == i_east && -v.1 < i_north))
                            ==> #[trigger] ret.cell(v) == scan.tile_at(
                            vec_to_offset(global_to_local(v, facing)),
                        ).walkable(),
                decreases rad + 1 - i_north,
            {
                let vec = Vec2::new_east_south(i_east as i16, -(i_north as i16));
                let walkable = match scan.at(vec.local(facing)) {
                    Some(tile) => tile.is_walkable_terrain(),
                    None => false,
                };
                assert(within(vec_to_offset(global_to_local(vec@, facing)), rad));
                let _ = ret.set(vec, walkable);
                i_north = i_north + 1;
            }
            i_east = i_east + 1;
        }
        ret
    }
}



/// Setting a clear bit `j` of a byte sets that bit and keeps the others.
proof fn lemma_xor_bit(b: u8, i: u8, j: u8)
    requires
        i < 8,
        j < 8,
        b & (1u8 << j) == 0,
    ensures
        ((b ^ (1u8 << j)) & (1u8 << i) != 0) == (i == j || b & (1u8 << i) != 0),
{
    assert(((b ^ (1u8 << j)) & (1u8 << i) != 0) == (i == j || b & (1u8 << i) != 0)) by (bit_vector)
        requires
            i < 8,
            j < 8,
            b & (1u8 << j) == 0,
    ;
}

proof fn lemma_zero_bits(i: u8)
    requires
        i < 8,
    ensures
        0u8 & (1u8 << i) == 0,
{
    assert(0u8 & (1u8 << i) == 0) by (bit_vector);
}

/// The position of the cell (east, north) when the cells of a section of radius `r` are
/// counted column by column from the west, each from the south.
pub open spec fn raw_index(r: int, east: int, north: int) -> int {
    (east + r) * (2 * r + 1) + (north + r)
}

impl<const N: usize> MapSection<N> {
    /// Whether the cell at `v` (east, south) of a section of radius `r` is walkable.
    pub open spec fn cell_at(&self, r: int, v: (int, int)) -> bool {
        self.0@[v.0 + r]@[-v.1 + r]
    }

    /// The section with no walkable cell.
    fn empty_section() -> (s: Self)
        ensures
            forall|i: int, j: int| 0 <= i < N && 0 <= j < N ==> !#[trigger] s.0@[i]@[j],
    {
        broadcast use vstd::array::axiom_spec_array_fill_for_copy_type;

        let row = vstd::array::array_fill_for_copy_types::<bool, N>(false);
        let cells = vstd::array::array_fill_for_copy_types::<[bool; N], N>(row);
        assert forall|i: int, j: int| 0 <= i < N && 0 <= j < N implies !#[trigger] cells@[i]@[j] by {
            assert(cells@[i] == row);
            assert(!row@[j]);
        }
        MapSection(cells)
    }

    /// Whether the cell at `vec`, within radius `r`, is walkable.
    fn cell_get(&self, r: i16, vec: Vec2<Global>) -> (b: bool)
        requires
            N == 2 * r + 1,
            1 <= r <= 4,
            within(vec@, r as int),
        ensures
            b == self.cell_at(r as int, vec@),
    {
        let row = self.0[(vec.east() + r) as usize];
        row[(r - vec.south()) as usize]
    }

    /// Sets whether the cell at `vec`, within radius `r`, is walkable.
    fn cell_set(&mut self, r: i16, vec: Vec2<Global>, val: bool)
        requires
            N == 2 * r + 1,
            1 <= r <= 4,
            within(vec@, r as int),
        ensures
            forall|v: (int, int)|
                within(v, r as int) ==> #[trigger] final(self).cell_at(r as int, v) == if v == vec@ {
                    val
                } else {
                    old(self).cell_at(r as int, v)
                },
    {
        let i = (vec.east() + r) as usize;
        let j = (r - vec.south()) as usize;
        let mut row = self.0[i];
        row[j] = val;
        self.0[i] = row;
    }

    /// The cells but the center as bits, in the order of [`compressed_index`]; `None` where the
    /// center is not walkable.
    fn compress_at<const K: usize>(&self, r: i16) -> (res: Option<[u8; K]>)
        requires
            N == 2 * r + 1,
            1 <= r <= 4,
            8 * K == 2 * r * (2 * r + 2),
        ensures
            res is Some <==> self.cell_at(r as int, (0, 0)),
            res matches Some(c) ==> forall|v: (int, int)|
                within(v, r as int) && v != (0int, 0int) ==> #[trigger] self.cell_at(r as int, v) == bit(
                    c@,
                    compressed_index(r as int, v.0, -v.1),
                ),
    {
        let n = N;
        if !self.0[r as usize][r as usize] {
            return None;
        }
        let mut ret = [0u8; K];
        let ghost center = raw_index(r as int, 0, 0);
        let ghost total = 8 * K;
        proof {
            assert forall|k: int| 0 <= k < total implies !#[trigger] bit(ret@, k) by {
                lemma_zero_bits((k % 8) as u8);
            }
        }
        let mut index: usize = 0;
        let mut i_east: i16 = -r;
        proof {
            assert(raw_index(r as int, -r as int, -r as int) == 0) by (nonlinear_arith);
            assert(center == r * (2 * r + 2)) by (nonlinear_arith)
                requires
                    center == raw_index(r as int, 0, 0),
            ;
        }
        while i_east <= r
            invariant
                N == 2 * r + 1,
                n == N,
                1 <= r <= 4,
                8 * K == 2 * r * (2 * r + 2),
                total == 8 * K,
                center == raw_index(r as int, 0, 0),
                -r <= i_east <= r + 1,
                index == raw_index(r as int, i_east as int, -r as int) - if raw_index(r as int, i_east as int, -r as int) > center {
                    1int
                } else {
                    0int
                },
                forall|v: (int, int)|
                    within(v, r as int) && v != (0int, 0int) && v.0 < i_east ==> #[trigger] self.cell_at(r as int, v)
                        == bit(ret@, compressed_index(r as int, v.0, -v.1)),
                forall|k: int| index <= k < total ==> !#[trigger] bit(ret@, k),
            decreases r + 1 - i_east,
        {
            let mut i_north: i16 = -r;
            while i_north <= r
                invariant
                    N == 2 * r + 1,
                    n == N,
                    1 <= r <= 4,
                    8 * K == 2 * r * (2 * r + 2),
                    total == 8 * K,
                    center == raw_index(r as int, 0, 0),
                    -r <= i_east <= r,
                    -r <= i_north <= r + 1,
                    index == raw_index(r as int, i_east as int, i_north as int) - if raw_index(r as int, i_east as int, i_north as int) > center {
                        1int
                    } else {
                        0int
                    },
                    forall|v: (int, int)|
                        within(v, r as int) && v != (0int, 0int) && (v.0 < i_east || (v.0 == i_east
                            && -v.1 < i_north)) ==> #[trigger] self.cell_at(r as int, v) == bit(
                            ret@,
                            compressed_index(r as int, v.0, -v.1),
                        ),
                    forall|k: int| index <= k < total ==> !#[trigger] bit(ret@, k),
                decreases r + 1 - i_north,
            {
                proof {
                    assert(raw_index(r as int, i_east as int, i_north as int) < (2 * r + 1) * (2 * r + 1)) by (nonlinear_arith)
                        requires
                            -r <= i_east <= r,
                            -r <= i_north <= r,
                    ;
                    assert((2 * r + 1) * (2 * r + 1) - 1 == 2 * r * (2 * r + 2)) by (nonlinear_arith);
                }
                proof {
                    assert(center == r * (2 * r + 2)) by (nonlinear_arith)
                        requires
                            center == raw_index(r as int, 0, 0),
                    ;
                }
                if i_east != 0 || i_north != 0 {
                    let ghost before = ret@;
                    assert(raw_index(r as int, i_east as int, i_north as int) != center) by (nonlinear_arith)
                        requires
                            -r <= i_east <= r,
                            -r <= i_north <= r,
                            i_east != 0 || i_north != 0,
                            center == raw_index(r as int, 0, 0),
                    ;
                    assert(total == 2 * center && raw_index(r as int, i_east as int, i_north as int) <= total) by (nonlinear_arith)
                        requires
                            total == 8 * K,
                            8 * K == 2 * r * (2 * r + 2),
                            center == r * (2 * r + 2),
                            raw_index(r as int, i_east as int, i_north as int) < (2 * r + 1) * (2 * r + 1),
                            (2 * r + 1) * (2 * r + 1) - 1 == 2 * r * (2 * r + 2),
                    ;
                    assert(index < total);
                    let walkable = self.0[(i_east + r) as usize][(i_north + r) as usize];
                    if walkable {
                        let b = ret[index / 8];
                        proof {
                            assert(!bit(ret@, index as int));
                        }
                        ret[index / 8] = b ^ (1u8 << ((index % 8) as u8));
                        proof {
                            assert forall|k: int| 0 <= k < total implies #[trigger] bit(ret@, k) == (k == index || bit(before, k)) by {
                                if k / 8 == index / 8 {
                                    lemma_xor_bit(b, (k % 8) as u8, (index % 8) as u8);
                                    if k != index {
                                        assert(k % 8 != index % 8);
                                    }
                                } else {
                                    assert(ret@[k / 8] == before[k / 8]);
                                }
                            }
                        }
                    }
                    proof {
                        assert forall|v: (int, int)|
                            within(v, r as int) && v != (0int, 0int) && (v.0 < i_east || (v.0 == i_east
                                && -v.1 < i_north + 1)) implies #[trigger] self.cell_at(r as int, v) == bit(
                                ret@,
                                compressed_index(r as int, v.0, -v.1),
                            ) by {
                            if v.0 == i_east && -v.1 == i_north {
                                assert(self.cell_at(r as int, v) == walkable);
                            } else {
                                assert(compressed_index(r as int, v.0, -v.1) < index) by (nonlinear_arith)
                                    requires
                                        within(v, r as int),
                                        v != (0int, 0int),
                                        v.0 < i_east || (v.0 == i_east && -v.1 < i_north),
                                        index == raw_index(r as int, i_east as int, i_north as int) - if raw_index(r as int, i_east as int, i_north as int) > center { 1int } else { 0int },
                                        center == raw_index(r as int, 0, 0),
                                        raw_index(r as int, i_east as int, i_north as int) != center,
                                        -r <= i_east <= r,
                                        -r <= i_north <= r,
                                ;
                            }
                        }
                    }
                    index = index + 1;
                } else {
                    proof {
                        assert forall|v: (int, int)|
                            within(v, r as int) && v != (0int, 0int) && (v.0 < i_east || (v.0 == i_east
                                && -v.1 < i_north + 1)) implies #[trigger] self.cell_at(r as int, v) == bit(
                                ret@,
                                compressed_index(r as int, v.0, -v.1),
                            ) by {
                        }
                    }
                }
                i_north = i_north + 1;
            }
            proof {
                assert(raw_index(r as int, i_east as int + 1, -r as int) == raw_index(r as int, i_east as int, r as int + 1)) by (nonlinear_arith);
            }
            i_east = i_east + 1;
        }
        Some(ret)
    }

    /// The section whose cells but the center are the bits of `c`, in the order of
    /// [`compressed_index`], with a walkable center.
    fn from_compressed_at<const K: usize>(c: [u8; K], r: i16) -> (s: Self)
        requires
            N == 2 * r + 1,
            1 <= r <= 4,
            8 * K == 2 * r * (2 * r + 2),
        ensures
            forall|v: (int, int)|
                within(v, r as int) ==> #[trigger] s.cell_at(r as int, v) == (v == (0int, 0int) || bit(
                    c@,
                    compressed_index(r as int, v.0, -v.1),
                )),
    {
        let mut ret = Self::empty_section();
        let ghost center = raw_index(r as int, 0, 0);
        let ghost total = 8 * K;
        let mut index: usize = 0;
        let mut i_east: i16 = -r;
        proof {
            assert(raw_index(r as int, -r as int, -r as int) == 0) by (nonlinear_arith);
            assert(center == r * (2 * r + 2)) by (nonlinear_arith)
                requires
                    center == raw_index(r as int, 0, 0),
            ;
        }
        while i_east <= r
            invariant
                N == 2 * r + 1,
                1 <= r <= 4,
                8 * K == 2 * r * (2 * r + 2),
                total == 8 * K,
                center == raw_index(r as int, 0, 0),
                -r <= i_east <= r + 1,
                index == raw_index(r as int, i_east as int, -r as int) - if raw_index(r as int, i_east as int, -r as int) > center {
                    1int
                } else {
                    0int
                },
                forall|v: (int, int)|
                    within(v, r as int) && v != (0int, 0int) && v.0 < i_east ==> #[trigger] ret.cell_at(r as int, v)
                        == bit(c@, compressed_index(r as int, v.0, -v.1)),
            decreases r + 1 - i_east,
        {
            let mut i_north: i16 = -r;
            while i_north <= r
                invariant
                    N == 2 * r + 1,
                    1 <= r <= 4,
                    8 * K == 2 * r * (2 * r + 2),
                    total == 8 * K,
                    center == raw_index(r as int, 0, 0),
                    -r <= i_east <= r,
                    -r <= i_north <= r + 1,
                    index == raw_index(r as int, i_east as int, i_north as int) - if raw_index(r as int, i_east as int, i_north as int) > center {
                        1int
                    } else {
                        0int
                    },
                    forall|v: (int, int)|
                        within(v, r as int) && v != (0int, 0int) && (v.0 < i_east || (v.0 == i_east
                            && -v.1 < i_north)) ==> #[trigger] ret.cell_at(r as int, v) == bit(
                            c@,
                            compressed_index(r as int, v.0, -v.1),
                        ),
                decreases r + 1 - i_north,
            {
                proof {
                    assert(raw_index(r as int, i_east as int, i_north as int) < (2 * r + 1) * (2 * r + 1)) by (nonlinear_arith)
                        requires
                            -r <= i_east <= r,
                            -r <= i_north <= r,
                    ;
                    assert((2 * r + 1) * (2 * r + 1) - 1 == 2 * r * (2 * r + 2)) by (nonlinear_arith);
                    assert(center == r * (2 * r + 2)) by (nonlinear_arith)
                        requires
                            center == raw_index(r as int, 0, 0),
                    ;
                }
                if i_east != 0 || i_north != 0 {
                    assert(raw_index(r as int, i_east as int, i_north as int) != center) by (nonlinear_arith)
                        requires
                            -r <= i_east <= r,
                            -r <= i_north <= r,
                            i_east != 0 || i_north != 0,
                            center == raw_index(r as int, 0, 0),
                    ;
                    assert(total == 2 * center && raw_index(r as int, i_east as int, i_north as int) <= total) by (nonlinear_arith)
                        requires
                            total == 8 * K,
                            8 * K == 2 * r * (2 * r + 2),
                            center == r * (2 * r + 2),
                            raw_index(r as int, i_east as int, i_north as int) < (2 * r + 1) * (2 * r + 1),
                            (2 * r + 1) * (2 * r + 1) - 1 == 2 * r * (2 * r + 2),
                    ;
                    assert(index < total);
                    let val = c[index / 8] & (1u8 << ((index % 8) as u8)) > 0u8;
                    let vec = Vec2::new_east_south(i_east, -i_north);
                    let ghost before = ret;
                    ret.cell_set(r, vec, val);
                    proof {
                        assert forall|v: (int, int)|
                            within(v, r as int) && v != (0int, 0int) && (v.0 < i_east || (v.0 == i_east
                                && -v.1 < i_north + 1)) implies #[trigger] ret.cell_at(r as int, v) == bit(
                                c@,
                                compressed_index(r as int, v.0, -v.1),
                            ) by {
                            if v.0 == i_east && -v.1 == i_north {
                                assert(v == vec@);
                            } else {
                                assert(before.cell_at(r as int, v) == bit(c@, compressed_index(r as int, v.0, -v.1)));
                            }
                        }
                    }
                    index = index + 1;
                }
                i_north = i_north + 1;
            }
            proof {
                assert(raw_index(r as int, i_east as int + 1, -r as int) == raw_index(r as int, i_east as int, r as int + 1)) by (nonlinear_arith);
            }
            i_east = i_east + 1;
        }
        let ghost before = ret;
        ret.cell_set(r, Vec2::zero(), true);
        proof {
            assert forall|v: (int, int)| within(v, r as int) implies #[trigger] ret.cell_at(r as int, v) == (v
                == (0int, 0int) || bit(c@, compressed_index(r as int, v.0, -v.1))) by {
                if v != (0int, 0int) {
                    assert(before.cell_at(r as int, v) == bit(c@, compressed_index(r as int, v.0, -v.1)));
                }
            }
        }
        ret
    }
}


impl MapSectionTrait for MapSection<3> {
    type Size = D3;

    type Compressed = [u8; 1];

    open spec fn cell(&self, v: (int, int)) -> bool {
        self.cell_at(1, v)
    }

    open spec fn bytes(c: &[u8; 1]) -> Seq<u8> {
        c@
    }

    fn compressed_type() -> &'static str {
        "[u8; 1]"
    }

    fn empty() -> (r: Self) {
        Self::empty_section()
    }

    fn get(&self, vec: Vec2<Global>) -> (r: Result<bool, OutOfBounds>) {
        if D3::contains(vec) {
            Ok(self.cell_get(1, vec))
        } else {
            Err(OutOfBounds)
        }
    }

    fn set(&mut self, vec: Vec2<Global>, val: bool) -> (r: Result<(), OutOfBounds>) {
        if D3::contains(vec) {
            self.cell_set(1, vec, val);
            Ok(())
        } else {
            Err(OutOfBounds)
        }
    }

    fn compress(&self) -> (r: Option<[u8; 1]>) {
        self.compress_at::<1>(1)
    }

    fn from_compressed(compressed: [u8; 1]) -> (r: Self) {
        Self::from_compressed_at::<1>(compressed, 1)
    }
}

impl MapSectionTrait for MapSection<5> {
    type Size = D5;

    type Compressed = [u8; 3];

    open spec fn cell(&self, v: (int, int)) -> bool {
        self.cell_at(2, v)
    }

    open spec fn bytes(c: &[u8; 3]) -> Seq<u8> {
        c@
    }

    fn compressed_type() -> &'static str {
        "[u8; 3]"
    }

    fn empty() -> (r: Self) {
        Self::empty_section()
    }

    fn get(&self, vec: Vec2<Global>) -> (r: Result<bool, OutOfBounds>) {
        if D5::contains(vec) {
            Ok(self.cell_get(2, vec))
        } else {
            Err(OutOfBounds)
        }
    }

    fn set(&mut self, vec: Vec2<Global>, val: bool) -> (r: Result<(), OutOfBounds>) {
        if D5::contains(vec) {
            self.cell_set(2, vec, val);
            Ok(())
        } else {
            Err(OutOfBounds)
        }
    }

    fn compress(&self) -> (r: Option<[u8; 3]>) {
        self.compress_at::<3>(2)
    }

    fn from_compressed(compressed: [u8; 3]) -> (r: Self) {
        Self::from_compressed_at::<3>(compressed, 2)
    }
}

impl MapSectionTrait for MapSection<7> {
    type Size = D7;

    type Compressed = [u8; 6];

    open spec fn cell(&self, v: (int, int)) -> bool {
        self.cell_at(3, v)
    }

    open spec fn bytes(c: &[u8; 6]) -> Seq<u8> {
        c@
    }

    fn compressed_type() -> &'static str {
        "[u8; 6]"
    }

    fn empty() -> (r: Self) {
        Self::empty_section()
    }

    fn get(&self, vec: Vec2<Global>) -> (r: Result<bool, OutOfBounds>) {
        if D7::contains(vec) {
            Ok(self.cell_get(3, vec))
        } else {
            Err(OutOfBounds)
        }
    }

    fn set(&mut self, vec: Vec2<Global>, val: bool) -> (r: Result<(), OutOfBounds>) {
        if D7::contains(vec) {
            self.cell_set(3, vec, val);
            Ok(())
        } else {
            Err(OutOfBounds)
        }
    }

    fn compress(&self) -> (r: Option<[u8; 6]>) {
        self.compress_at::<6>(3)
    }

    fn from_compressed(compressed: [u8; 6]) -> (r: Self) {
        Self::from_compressed_at::<6>(compressed, 3)
    }
}

impl MapSectionTrait for MapSection<9> {
    type Size = D9;

    type Compressed = [u8; 10];

    open spec fn cell(&self, v: (int, int)) -> bool {
        self.cell_at(4, v)
    }

    open spec fn bytes(c: &[u8; 10]) -> Seq<u8> {
        c@
    }

    fn compressed_type() -> &'static str {
        "[u8; 10]"
    }

    fn empty() -> (r: Self) {
        Self::empty_section()
    }

    fn get(&self, vec: Vec2<Global>) -> (r: Result<bool, OutOfBounds>) {
        if D9::contains(vec) {
            Ok(self.cell_get(4, vec))
        } else {
            Err(OutOfBounds)
        }
    }

    fn set(&mut self, vec: Vec2<Global>, val: bool) -> (r: Result<(), OutOfBounds>) {
        if D9::contains(vec) {
            self.cell_set(4, vec, val);
            Ok(())
        } else {
            Err(OutOfBounds)
        }
    }

    fn compress(&self) -> (r: Option<[u8; 10]>) {
        self.compress_at::<10>(4)
    }

    fn from_compressed(compressed: [u8; 10]) -> (r: Self) {
        Self::from_compressed_at::<10>(compressed, 4)
    }
}

impl<const N: usize> Default for MapSection<N> {
    fn default() -> (r: Self)
        ensures
            forall|i: int, j: int| 0 <= i < N && 0 <= j < N ==> !#[trigger] r.0@[i]@[j],
    {
        Self::empty_section()
    }
}

/// Compressing a section with a walkable center and reading it back gives the same section.
pub proof fn law_section_roundtrip<T: MapSectionTrait>(section: T, compressed: T::Compressed, read: T)
    requires
        section.cell((0, 0)),
        forall|v: (int, int)|
            within(v, T::Size::radius_spec()) && v != (0int, 0int) ==> #[trigger] section.cell(v) == bit(
                T::bytes(&compressed),
                compressed_index(T::Size::radius_spec(), v.0, -v.1),
            ),
        forall|v: (int, int)|
            within(v, T::Size::radius_spec()) ==> #[trigger] read.cell(v) == (v == (0int, 0int) || bit(
                T::bytes(&compressed),
                compressed_index(T::Size::radius_spec(), v.0, -v.1),
            )),
    ensures
        forall|v: (int, int)| within(v, T::Size::radius_spec()) ==> #[trigger] read.cell(v) == section.cell(v),
{
    assert forall|v: (int, int)| within(v, T::Size::radius_spec()) implies #[trigger] read.cell(v)
        == section.cell(v) by {
        if v != (0int, 0int) {
            assert(section.cell(v) == bit(T::bytes(&compressed), compressed_index(T::Size::radius_spec(), v.0, -v.1)));
        }
    }
}

/// Two sections with a walkable center that compress to the same bytes are the same: the
/// compressed form is unique.
pub proof fn law_compress_unique<T: MapSectionTrait>(a: T, b: T, ca: T::Compressed, cb: T::Compressed)
    requires
        a.cell((0, 0)),
        b.cell((0, 0)),
        forall|v: (int, int)|
            within(v, T::Size::radius_spec()) && v != (0int, 0int) ==> #[trigger] a.cell(v) == bit(
                T::bytes(&ca),
                compressed_index(T::Size::radius_spec(), v.0, -v.1),
            ),
        forall|v: (int, int)|
            within(v, T::Size::radius_spec()) && v != (0int, 0int) ==> #[trigger] b.cell(v) == bit(
                T::bytes(&cb),
                compressed_index(T::Size::radius_spec(), v.0, -v.1),
            ),
        T::bytes(&ca) == T::bytes(&cb),
    ensures
        forall|v: (int, int)| within(v, T::Size::radius_spec()) ==> #[trigger] a.cell(v) == b.cell(v),
{
    assert forall|v: (int, int)| within(v, T::Size::radius_spec()) implies #[trigger] a.cell(v) == b.cell(v) by {
        if v != (0int, 0int) {
            assert(a.cell(v) == bit(T::bytes(&ca), compressed_index(T::Size::radius_spec(), v.0, -v.1)));
            assert(b.cell(v) == bit(T::bytes(&cb), compressed_index(T::Size::radius_spec(), v.0, -v.1)));
        }
    }
}

} // verus!
