use vstd::prelude::*;
use core::ops::Add;

use crate::navigation::OutOfMemory;
use crate::position::Position;
use crate::vec2::{fits_i16, Global, Vec2};

verus! {

/// A cell within an 8 by 8 chunk, between (0, 0) and (7, 7), stored as `i1 * 8 + i2`.
#[derive(Clone, Copy, Debug, PartialEq, Eq, Hash, Structural)]
pub struct ChunkIndex {
    /// in 0..64
    index: u8,
}

impl ChunkIndex {
    #[verifier::type_invariant]
    spec fn inv(&self) -> bool {
        self.index < 64
    }

    /// The cell number, in `0..64`.
    pub closed spec fn idx(&self) -> int {
        self.index as int
    }

    /// The cell (i1, i2) = (east, south) within the chunk.
    pub fn new(i1: u8, i2: u8) -> (r: Self)
        requires
            i1 < 8,
            i2 < 8,
        ensures
            r.idx() == i1 * 8 + i2,
    {
        Self { index: i1 * 8 + i2 }
    }

    /// The cell as (east, south) within the chunk.
    pub fn to_indices(self) -> (r: (u8, u8))
        ensures
            r.0 == self.idx() / 8,
            r.1 == self.idx() % 8,
            r.0 < 8,
            r.1 < 8,
    {
        proof {
            use_type_invariant(&self);
        }
        (self.index / 8, self.index % 8)
    }

    /// The cell number, in `0..64`.
    pub fn index64(self) -> (r: u8)
        ensures
            r == self.idx(),
            r < 64,
    {
        proof {
            use_type_invariant(&self);
        }
        self.index
    }

    fn to_vec(self) -> (r: Vec2<Global>)
        ensures
            r@ == (self.idx() / 8, self.idx() % 8),
    {
        let (east_in_chunk, south_in_chunk) = self.to_indices();
        Vec2::new_east_south(east_in_chunk as i16, south_in_chunk as i16)
    }

    fn increase_by_one(self) -> (r: Option<Self>)
        ensures
            self.idx() >= 63 ==> r is None,
            self.idx() < 63 ==> (r matches Some(n) && n.idx() == self.idx() + 1),
    {
        proof {
            use_type_invariant(&self);
        }
        if self.index >= 63 {
            None
        } else {
            Some(Self { index: self.index + 1 })
        }
    }

    fn first() -> (r: Self)
        ensures
            r.idx() == 0,
    {
        Self { index: 0 }
    }
}

impl Add<ChunkLocation> for ChunkIndex {
    type Output = Position;

    /// The position of this cell in the chunk at `rhs`.
    fn add(self, rhs: ChunkLocation) -> (r: Position)
        ensures
            r@ == (8 * rhs.east8() + self.idx() / 8, 8 * rhs.south8() + self.idx() % 8),
    {
        let nw = rhs.north_west_pos();
        let v = self.to_vec();
        proof {
            use_type_invariant(&rhs);
            use_type_invariant(&self);
        }
        nw + v
    }
}

impl vstd::std_specs::ops::AddSpecImpl<ChunkLocation> for ChunkIndex {
    open spec fn obeys_add_spec() -> bool {
        false
    }

    open spec fn add_req(self, rhs: ChunkLocation) -> bool {
        true
    }

    open spec fn add_spec(self, rhs: ChunkLocation) -> Position {
        Position::<crate::position::AnchorDefault>::origin_spec()
    }
}

/// Walks through the 64 cells of a chunk in order.
#[derive(Debug)]
pub struct IterInChunk {
    in_chunk_index: Option<ChunkIndex>,
}

impl IterInChunk {
    /// The number of cells still to come.
    pub closed spec fn remaining(&self) -> int {
        match self.in_chunk_index {
            Some(i) => 64 - i.idx(),
            None => 0,
        }
    }

    /// The next cell to come, if any.
    pub closed spec fn upcoming(&self) -> Option<ChunkIndex> {
        self.in_chunk_index
    }

    pub fn new() -> (r: Self)
        ensures
            (r.upcoming() matches Some(i) && i.idx() == 0),
            r.remaining() == 64,
    {
        Self { in_chunk_index: Some(ChunkIndex::first()) }
    }

    /// The next cell, if any.
    pub fn next(&mut self) -> (r: Option<ChunkIndex>)
        ensures
            r == old(self).upcoming(),
            old(self).remaining() > 0 ==> final(self).remaining() == old(self).remaining() - 1,
            old(self).remaining() == 0 ==> r is None && final(self).remaining() == 0,
            r matches Some(i) ==> (final(self).upcoming() matches Some(j) ==> j.idx() == i.idx()
                + 1),
    {
        match self.in_chunk_index {
            Some(in_chunk) => {
                proof {
                    use_type_invariant(&in_chunk);
                }
                self.in_chunk_index = in_chunk.increase_by_one();
                Some(in_chunk)
            },
            None => None,
        }
    }

    /// The exact number of cells still to come, as lower and upper bound.
    pub fn size_hint(&self) -> (r: (usize, Option<usize>))
        ensures
            r.0 == self.remaining(),
            r.1 == Some(r.0),
    {
        let size: usize = match self.in_chunk_index {
            Some(index) => (64 - index.index64()) as usize,
            None => 0,
        };
        (size, Some(size))
    }
}

impl Default for IterInChunk {
    fn default() -> (r: Self)
        ensures
            r.remaining() == 64,
    {
        Self::new()
    }
}

/// A chunk's location: its north-west corner is at (east8 * 8, south8 * 8).
#[derive(Clone, Copy, Debug, PartialEq, Eq, Hash, Structural)]
pub struct ChunkLocation {
    east8: i16,
    south8: i16,
}

/// Whether `x` is a chunk coordinate of some `i16` position.
pub open spec fn chunk_coord(x: int) -> bool {
    -4096 <= x <= 4095
}

impl View for ChunkLocation {
    type V = (int, int);

    /// The location as (east8, south8).
    closed spec fn view(&self) -> (int, int) {
        (self.east8 as int, self.south8 as int)
    }
}

impl ChunkLocation {
    /// The location of the chunk that holds `pos`.
    pub open spec fn of(pos: (int, int)) -> (int, int) {
        (pos.0 / 8, pos.1 / 8)
    }

    /// Locations with the same coordinates are the same.
    pub proof fn lemma_view_injective(a: Self, b: Self)
        requires
            a@ == b@,
        ensures
            a == b,
    {
    }

    #[verifier::type_invariant]
    spec fn inv(&self) -> bool {
        chunk_coord(self.east8 as int) && chunk_coord(self.south8 as int)
    }

    pub closed spec fn east8(&self) -> int {
        self.east8 as int
    }

    pub closed spec fn south8(&self) -> int {
        self.south8 as int
    }

    /// The view holds the coordinates.
    pub proof fn lemma_view(&self)
        ensures
            self@ == (self.east8(), self.south8()),
    {
    }

    /// This is the (0, 0), north-west, corner of the chunk.
    pub fn north_west_pos(&self) -> (r: Position)
        ensures
            r@ == (8 * self.east8(), 8 * self.south8()),
    {
        proof {
            use_type_invariant(self);
        }
        Position::add_to_anchor(Vec2::new_east_south(8 * self.east8, 8 * self.south8))
    }

    /// The shortest vector from the chunk to `pos`: zero on an axis where `pos` lies within the
    /// chunk's span.
    pub fn min_dist_to(&self, pos: Position) -> (r: Vec2<Global>)
        requires
            fits_i16(pos@.0 - 8 * self.east8()),
            fits_i16(pos@.1 - 8 * self.south8()),
        ensures
            r@ == (dist_relaxed_spec(pos@.0 - 8 * self.east8()), dist_relaxed_spec(pos@.1 - 8
                * self.south8())),
    {
        let vec_anchor = pos - self.north_west_pos();
        Vec2::new_east_south(dist_relaxed(vec_anchor.east()), dist_relaxed(vec_anchor.south()))
    }
}

/// The distance from an offset to the span `0..8`.
pub open spec fn dist_relaxed_spec(d: int) -> int {
    if d < 0 {
        d
    } else if d < 8 {
        0
    } else {
        d - 7
    }
}

fn dist_relaxed(dist_anchor: i16) -> (r: i16)
    ensures
        r == dist_relaxed_spec(dist_anchor as int),
{
    if dist_anchor < 0 {
        dist_anchor
    } else if dist_anchor < 8 {
        0
    } else {
        dist_anchor - 7
    }
}

/// `x` divided by 8, rounded towards negative infinity, and the remainder in `0..8`.
fn div_rem_8(x: i16) -> (r: (i16, u8))
    ensures
        r.0 == x as int / 8,
        r.1 == x as int % 8,
        chunk_coord(r.0 as int),
{
    let wide = x as i32 + 32768;
    let q = wide / 8;
    let m = wide % 8;
    ((q - 4096) as i16, m as u8)
}

/// The chunk containing `pos` and the cell of `pos` within it.
pub fn to_chunk_pos(pos: Position) -> (r: (ChunkLocation, ChunkIndex))
    ensures
        r.0.east8() == pos@.0 / 8,
        r.0.south8() == pos@.1 / 8,
        r.1.idx() == (pos@.0 % 8) * 8 + pos@.1 % 8,
{
    let vec = pos.subtract_anchor();
    let (east8, east_rem) = div_rem_8(vec.east());
    let (south8, south_rem) = div_rem_8(vec.south());
    (ChunkLocation { east8, south8 }, ChunkIndex::new(east_rem, south_rem))
}

/// A position is the cell of its chunk index in its chunk location.
pub proof fn law_chunk_pos_roundtrip(p: (int, int))
    ensures
        8 * (p.0 / 8) + ((p.0 % 8) * 8 + p.1 % 8) / 8 == p.0,
        8 * (p.1 / 8) + ((p.0 % 8) * 8 + p.1 % 8) % 8 == p.1,
{
    let a = p.0 % 8;
    let b = p.1 % 8;
    assert((a * 8 + b) / 8 == a && (a * 8 + b) % 8 == b) by (nonlinear_arith)
        requires
            0 <= a < 8,
            0 <= b < 8,
    ;
}

/// A chunk of 64 values of type `T`.
pub trait Chunk<T>: Sized {
    /// The value stored at cell number `i`.
    spec fn value(&self, i: int) -> T;

    /// The value of every cell of a new chunk.
    spec fn blank() -> T;

    fn new() -> (r: Self)
        ensures
            forall|i: int| 0 <= i < 64 ==> #[trigger] r.value(i) == Self::blank(),
    ;

    fn get(&self, index: ChunkIndex) -> (r: T)
        ensures
            r == self.value(index.idx()),
    ;

    fn set(&mut self, index: ChunkIndex, t: T)
        ensures
            final(self).value(index.idx()) == t,
            forall|j: int| j != index.idx() ==> final(self).value(j) == old(self).value(j),
    ;
}

/// The most basic chunk: an 8 by 8 array, indexed by east, then south; a new chunk holds `None`
/// everywhere.
impl<T: Copy> Chunk<Option<T>> for [[Option<T>; 8]; 8] {
    open spec fn value(&self, i: int) -> Option<T> {
        if 0 <= i < 64 {
            self@[i / 8]@[i % 8]
        } else {
            None
        }
    }

    open spec fn blank() -> Option<T> {
        None
    }

    fn new() -> (r: Self) {
        broadcast use vstd::array::axiom_spec_array_fill_for_copy_type;

        let row = vstd::array::array_fill_for_copy_types::<Option<T>, 8>(None);
        let cells = vstd::array::array_fill_for_copy_types::<[Option<T>; 8], 8>(row);
        assert forall|i: int| 0 <= i < 64 implies #[trigger] cells.value(i) == None::<T> by {
            assert(cells@[i / 8] == row);
        }
        cells
    }

    fn get(&self, index: ChunkIndex) -> (r: Option<T>) {
        let (i1, i2) = index.to_indices();
        self[i1 as usize][i2 as usize]
    }

    fn set(&mut self, index: ChunkIndex, t: Option<T>) {
        let (i1, i2) = index.to_indices();
        let ghost before = *self;
        let mut row = self[i1 as usize];
        row[i2 as usize] = t;
        self[i1 as usize] = row;
        assert forall|j: int| j != index.idx() implies #[trigger] self.value(j) == before.value(j) by {
            if 0 <= j < 64 && j / 8 == i1 {
                assert(j % 8 != i2);
            }
        }
    }
}

/// A memory efficient chunk of booleans: one bit per cell.
#[derive(Clone, Copy, Debug, PartialEq, Eq, Hash, Structural, Default)]
pub struct ChunkBool {
    data: u64,
}

impl ChunkBool {
    /// The bit of cell number `i`.
    pub closed spec fn bit_at(&self, i: int) -> bool {
        0 <= i < 64 && (self.data >> (i as u64)) & 1 == 1
    }

    fn bit(index: ChunkIndex) -> (r: u64)
        ensures
            r == 1u64 << (index.idx() as u64),
    {
        1u64 << index.index64()
    }

    pub fn get(self, index: ChunkIndex) -> (r: bool)
        ensures
            r == self.bit_at(index.idx()),
    {
        proof {
            use_type_invariant(&index);
        }
        let i = index.index64() as u64;
        let d = self.data;
        assert((d & (1u64 << i) > 0) == ((d >> i) & 1 == 1)) by (bit_vector)
            requires
                i < 64,
        ;
        (self.data & Self::bit(index)) > 0
    }

    pub fn set(&mut self, index: ChunkIndex, val: bool)
        ensures
            final(self).bit_at(index.idx()) == val,
            forall|j: int| j != index.idx() ==> final(self).bit_at(j) == old(self).bit_at(j),
    {
        proof {
            use_type_invariant(&index);
        }
        let i = index.index64() as u64;
        let d = self.data;
        let ghost before = *self;
        if val {
            self.data = self.data | Self::bit(index);
            assert(((d | (1u64 << i)) >> i) & 1 == 1) by (bit_vector)
                requires
                    i < 64,
            ;
            assert forall|j: int| j != index.idx() implies #[trigger] self.bit_at(j) == before.bit_at(
                j,
            ) by {
                if 0 <= j < 64 {
                    let jj = j as u64;
                    assert(((d | (1u64 << i)) >> jj) & 1 == (d >> jj) & 1) by (bit_vector)
                        requires
                            i < 64,
                            jj < 64,
                            jj != i,
                    ;
                }
            }
        } else {
            self.data = self.data & !Self::bit(index);
            assert(((d & !(1u64 << i)) >> i) & 1 == 0) by (bit_vector)
                requires
                    i < 64,
            ;
            assert forall|j: int| j != index.idx() implies #[trigger] self.bit_at(j) == before.bit_at(
                j,
            ) by {
                if 0 <= j < 64 {
                    let jj = j as u64;
                    assert(((d & !(1u64 << i)) >> jj) & 1 == (d >> jj) & 1) by (bit_vector)
                        requires
                            i < 64,
                            jj < 64,
                            jj != i,
                    ;
                }
            }
        }
    }
}

impl Chunk<bool> for ChunkBool {
    open spec fn value(&self, i: int) -> bool {
        self.bit_at(i)
    }

    open spec fn blank() -> bool {
        false
    }

    fn new() -> (r: Self) {
        let r = ChunkBool { data: 0 };
        assert forall|i: int| 0 <= i < 64 implies !#[trigger] r.bit_at(i) by {
            let k = i as u64;
            assert((0u64 >> k) & 1 == 0) by (bit_vector);
        }
        r
    }

    fn get(&self, index: ChunkIndex) -> (r: bool) {
        ChunkBool::get(*self, index)
    }

    fn set(&mut self, index: ChunkIndex, t: bool) {
        proof {
            use_type_invariant(&index);
        }
        ChunkBool::set(self, index, t);
    }
}

/// The cell number of `pos` within its chunk.
pub open spec fn cell_of(pos: (int, int)) -> int {
    (pos.0 % 8) * 8 + pos.1 % 8
}

/// The value at `pos` among `chunks`, chunks by location: `None` where the chunk of `pos` is
/// missing.
pub open spec fn chunk_lookup<T, C: Chunk<T>>(chunks: Map<(int, int), C>, pos: (int, int)) -> Option<
    T,
> {
    if chunks.contains_key(ChunkLocation::of(pos)) {
        Some(chunks[ChunkLocation::of(pos)].value(cell_of(pos)))
    } else {
        None
    }
}

/// Different positions in the same chunk have different cell numbers.
proof fn lemma_cell_of_injective(p: (int, int), q: (int, int))
    requires
        ChunkLocation::of(p) == ChunkLocation::of(q),
        p != q,
    ensures
        cell_of(p) != cell_of(q),
        0 <= cell_of(p) < 64,
{
    law_chunk_pos_roundtrip(p);
    law_chunk_pos_roundtrip(q);
}

/// A map of positions to values of type `T`, held in chunks of 8 by 8 cells.
pub trait ChunkMap<T, C: Chunk<T>>: Sized {
    /// Whether the map is consistent.
    spec fn wf(&self) -> bool;

    /// The chunks held, by location (east8, south8).
    spec fn chunks(&self) -> Map<(int, int), C>;

    /// Whether there is room for one more chunk.
    spec fn has_room(&self) -> bool;

    /// Whether a cleared map has room for a chunk.
    spec fn room_when_clear() -> bool;

    /// The chunk at `location`, made first if there is none yet; fails where there is no room
    /// for a new chunk.
    fn get_chunk_mut_or_new(&mut self, location: ChunkLocation) -> (r: Result<&mut C, OutOfMemory>)
        requires
            old(self).wf(),
        ensures
            final(self).wf(),
            r matches Ok(c) ==> {
                &&& old(self).chunks().contains_key(location@) ==> *c == old(self).chunks()[location@]
                &&& !old(self).chunks().contains_key(location@) ==> forall|i: int|
                    0 <= i < 64 ==> #[trigger] c.value(i) == C::blank()
                &&& final(self).chunks() == old(self).chunks().insert(location@, *final(c))
            },
            r is Err ==> !old(self).chunks().contains_key(location@) && final(self).chunks() == old(
                self,
            ).chunks(),
            old(self).has_room() ==> r is Ok,
            r is Err ==> !final(self).has_room(),
    ;

    /// The chunk at `location`, if there is one.
    fn get_chunk(&self, location: ChunkLocation) -> (r: Option<&C>)
        requires
            self.wf(),
        ensures
            r is Some <==> self.chunks().contains_key(location@),
            r matches Some(c) ==> *c == self.chunks()[location@],
    ;

    /// Drops every chunk.
    fn clear(&mut self)
        requires
            old(self).wf(),
        ensures
            final(self).wf(),
            final(self).chunks() == Map::<(int, int), C>::empty(),
            final(self).has_room() == Self::room_when_clear(),
    ;

    /// Stores `t` at `pos`; where the chunk of `pos` is new, its other cells are blank. Gives
    /// `t` back, changing nothing, where there is no room for a new chunk.
    fn set_value(&mut self, pos: Position, t: T) -> (r: Result<(), T>)
        requires
            old(self).wf(),
        ensures
            final(self).wf(),
            r is Ok ==> chunk_lookup(final(self).chunks(), pos@) == Some(t),
            r is Ok ==> forall|q: (int, int)|
                q != pos@ ==> #[trigger] chunk_lookup(final(self).chunks(), q) == if chunk_lookup(
                    old(self).chunks(),
                    q,
                ) is None && ChunkLocation::of(q) == ChunkLocation::of(pos@) {
                    Some(C::blank())
                } else {
                    chunk_lookup(old(self).chunks(), q)
                },
            r matches Err(u) ==> u == t && final(self).chunks() == old(self).chunks(),
            old(self).has_room() || old(self).chunks().contains_key(ChunkLocation::of(pos@)) ==> r is Ok,
            r is Err ==> !final(self).has_room() && !final(self).chunks().contains_key(
                ChunkLocation::of(pos@),
            ),
    {
        let (div, rem) = to_chunk_pos(pos);
        proof {
            div.lemma_view();
        }
        match self.get_chunk_mut_or_new(div) {
            Ok(chunk) => {
                chunk.set(rem, t);
                proof {
                    assert forall|q: (int, int)| q != pos@ implies #[trigger] chunk_lookup(
                        final(self).chunks(),
                        q,
                    ) == if chunk_lookup(old(self).chunks(), q) is None && ChunkLocation::of(q)
                        == ChunkLocation::of(pos@) {
                        Some(C::blank())
                    } else {
                        chunk_lookup(old(self).chunks(), q)
                    } by {
                        if ChunkLocation::of(q) == ChunkLocation::of(pos@) {
                            lemma_cell_of_injective(q, pos@);
                        }
                    }
                }
                Ok(())
            },
            Err(_) => Err(t),
        }
    }

    /// The value at `pos`, or `None` where its chunk is missing.
    fn get_value(&self, pos: Position) -> (r: Option<T>)
        requires
            self.wf(),
        ensures
            r == chunk_lookup(self.chunks(), pos@),
    {
        let (div, rem) = to_chunk_pos(pos);
        proof {
            div.lemma_view();
        }
        match self.get_chunk(div) {
            Some(chunk) => Some(chunk.get(rem)),
            None => None,
        }
    }
}

} // verus!
