use vstd::prelude::*;
use core::marker::PhantomData;

use crate::tile::Tile;
use crate::vec2::{negatable, Coords, Local, Vec2};

verus! {

/// Marker trait that keeps the set of radar sizes closed.
pub trait Sealed {

}

/// The size of a square radar scan: a radius `R` and a diameter `D = 2 R + 1`.
pub trait RadarSize: Sealed + Copy {
    /// The radius of the scan.
    spec fn radius_spec() -> int;

    /// The radius of the scan.
    fn radius() -> (r: u8)
        ensures
            r == Self::radius_spec(),
            1 <= r <= 4,
    ;

    /// The radius lies in `1..=4`.
    proof fn lemma_radius()
        ensures
            1 <= Self::radius_spec() <= 4,
    ;

    /// The diameter of the scan.
    fn diameter() -> (r: u8)
        ensures
            r == 2 * Self::radius_spec() + 1,
    ;

    /// The name of the size, such as "D3".
    fn to_str() -> &'static str;

    /// The lowest and highest offset covered by the scan, on either axis.
    fn range() -> (r: (i8, i8))
        ensures
            r.0 == -Self::radius_spec(),
            r.1 == Self::radius_spec(),
    {
        let radius = Self::radius();
        (-(radius as i8), radius as i8)
    }

    /// Whether both components of `vec` lie within the radius.
    fn contains<C: Coords>(vec: Vec2<C>) -> (r: bool)
        ensures
            r == within(vec@, Self::radius_spec()),
    {
        let (i1, i2) = vec.to_generic();
        let radius = Self::radius() as i16;
        -radius <= i1 && -radius <= i2 && radius >= i1 && radius >= i2
    }
}

/// Whether both components of `v` lie in `-radius..=radius`.
pub open spec fn within(v: (int, int), radius: int) -> bool {
    -radius <= v.0 <= radius && -radius <= v.1 <= radius
}

/// A 3 by 3 scan.
#[derive(Clone, Copy, Debug, PartialEq, Eq)]
pub struct D3;

/// A 5 by 5 scan.
#[derive(Clone, Copy, Debug, PartialEq, Eq)]
pub struct D5;

/// A 7 by 7 scan.
#[derive(Clone, Copy, Debug, PartialEq, Eq)]
pub struct D7;

/// A 9 by 9 scan.
#[derive(Clone, Copy, Debug, PartialEq, Eq)]
pub struct D9;

impl Sealed for D3 {

}

impl Sealed for D5 {

}

impl Sealed for D7 {

}

impl Sealed for D9 {

}

impl RadarSize for D3 {
    open spec fn radius_spec() -> int {
        1
    }

    proof fn lemma_radius() {
    }

    fn radius() -> (r: u8) {
        1
    }

    fn diameter() -> (r: u8) {
        3
    }

    fn to_str() -> &'static str {
        "D3"
    }
}

impl RadarSize for D5 {
    open spec fn radius_spec() -> int {
        2
    }

    proof fn lemma_radius() {
    }

    fn radius() -> (r: u8) {
        2
    }

    fn diameter() -> (r: u8) {
        5
    }

    fn to_str() -> &'static str {
        "D5"
    }
}

impl RadarSize for D7 {
    open spec fn radius_spec() -> int {
        3
    }

    proof fn lemma_radius() {
    }

    fn radius() -> (r: u8) {
        3
    }

    fn diameter() -> (r: u8) {
        7
    }

    fn to_str() -> &'static str {
        "D7"
    }
}

impl RadarSize for D9 {
    open spec fn radius_spec() -> int {
        4
    }

    proof fn lemma_radius() {
    }

    fn radius() -> (r: u8) {
        4
    }

    fn diameter() -> (r: u8) {
        9
    }

    fn to_str() -> &'static str {
        "D9"
    }
}

/// Why a radar scan could not be started.
#[derive(Clone, Copy, Debug, PartialEq, Eq, Structural)]
pub enum RadarError {
    /// The radar is still cooling down.
    NotReady,
    /// An earlier scan is still in use; a new scan would overwrite it.
    AccessBlocked,
}

/// The bookkeeping that keeps a new scan from overwriting one that is still in use: the id of
/// the newest scan and how many handles to it are alive.
#[derive(Clone, Copy, Debug, Default)]
pub struct Guard {
    active_uuid: u32,
    n_scans: u32,
}

impl Guard {
    /// The id of the newest scan.
    pub closed spec fn active(&self) -> int {
        self.active_uuid as int
    }

    /// How many handles to the newest scan are alive.
    pub closed spec fn count(&self) -> int {
        self.n_scans as int
    }

    /// How many handles to the newest scan are alive.
    pub fn n_scans(&self) -> (r: u32)
        ensures
            r == self.count(),
    {
        self.n_scans
    }

    /// No scan yet, no handles.
    pub fn new() -> (r: Self)
        ensures
            r.active() == 0,
            r.count() == 0,
    {
        Self { active_uuid: 0, n_scans: 0 }
    }

    /// Takes one more handle to the scan with id `uuid`, if that is still the newest scan.
    pub fn try_create(&mut self, uuid: u32) -> (r: bool)
        requires
            old(self).count() < u32::MAX,
        ensures
            r == (uuid == old(self).active()),
            final(self).active() == old(self).active(),
            final(self).count() == old(self).count() + if r { 1int } else { 0int },
    {
        if uuid == self.active_uuid {
            self.n_scans = self.n_scans + 1;
            true
        } else {
            false
        }
    }

    /// Takes one more handle to the newest scan.
    pub fn create_active(&mut self)
        requires
            old(self).count() < u32::MAX,
        ensures
            final(self).active() == old(self).active(),
            final(self).count() == old(self).count() + 1,
    {
        self.n_scans = self.n_scans + 1;
    }

    /// Gives back one handle. Returns whether that was the last one, so that a task waiting for a
    /// new scan may be woken.
    pub fn decrease_count(&mut self) -> (last: bool)
        requires
            old(self).count() > 0,
        ensures
            final(self).active() == old(self).active(),
            final(self).count() == old(self).count() - 1,
            last == (final(self).count() == 0),
    {
        self.n_scans = self.n_scans - 1;
        self.n_scans == 0
    }

    /// Starts a new scan if no handle to the previous one is alive and the radar is ready; the
    /// new scan gets the next id, wrapping around after `u32::MAX`.
    pub fn try_execute_scan(&mut self, radar_ready: bool) -> (r: Result<(), RadarError>)
        ensures
            old(self).count() != 0 ==> r == Err::<(), RadarError>(RadarError::AccessBlocked),
            old(self).count() == 0 && !radar_ready ==> r == Err::<(), RadarError>(
                RadarError::NotReady,
            ),
            old(self).count() == 0 && radar_ready ==> r is Ok,
            final(self).count() == old(self).count(),
            r is Ok ==> final(self).active() == (old(self).active() + 1) % 0x1_0000_0000,
            r is Err ==> final(self).active() == old(self).active(),
    {
        if self.n_scans == 0 {
            if radar_ready {
                self.active_uuid = self.active_uuid.wrapping_add(1);
                Ok(())
            } else {
                Err(RadarError::NotReady)
            }
        } else {
            Err(RadarError::AccessBlocked)
        }
    }

    /// The id of the newest scan.
    pub fn get_active_uuid(&self) -> (r: u32)
        ensures
            r == self.active(),
    {
        self.active_uuid
    }
}

/// The radar of the bot.
#[derive(Debug)]
pub struct Radar;

impl Radar {
    /// Starts a new scan and takes a handle to it, if the guard and the radar allow it. The
    /// caller performs the scan on the hardware when this returns `Ok`.
    pub fn try_scan(&mut self, guard: &mut Guard, radar_ready: bool) -> (r: Result<u32, RadarError>)
        requires
            old(guard).count() < u32::MAX,
        ensures
            old(guard).count() != 0 ==> r == Err::<u32, RadarError>(RadarError::AccessBlocked),
            old(guard).count() == 0 && !radar_ready ==> r == Err::<u32, RadarError>(
                RadarError::NotReady,
            ),
            old(guard).count() == 0 && radar_ready ==> r is Ok,
            r matches Ok(uuid) ==> uuid == final(guard).active() && final(guard).active() == (
            old(guard).active() + 1) % 0x1_0000_0000 && final(guard).count() == 1,
            r is Err ==> *final(guard) == *old(guard),
    {
        match guard.try_execute_scan(radar_ready) {
            Ok(()) => {
                guard.create_active();
                Ok(guard.get_active_uuid())
            },
            Err(e) => Err(e),
        }
    }
}

/// The local vector of the cell at offset (dx, dy): `dy` counts backwards, `dx` to the right.
pub open spec fn offset_to_vec(o: (int, int)) -> (int, int) {
    (-o.1, o.0)
}

/// The offset of the cell at local vector `v`.
pub open spec fn vec_to_offset(v: (int, int)) -> (int, int) {
    (v.1, -v.0)
}

/// The cells of a scan of radius `radius` in iteration order: `dx` from `-radius` to `radius`,
/// and for each `dx` every `dy` from `-radius` to `radius`.
pub open spec fn iteration_order(radius: int) -> Seq<(int, int)> {
    Seq::new(
        ((2 * radius + 1) * (2 * radius + 1)) as nat,
        |k: int| (k / (2 * radius + 1) - radius, k % (2 * radius + 1) - radius),
    )
}

/// The storage index of the cell at offset (dx, dy).
pub open spec fn offset_index(radius: int, o: (int, int)) -> int {
    (o.1 + radius) * (2 * radius + 1) + (o.0 + radius)
}

/// The result of a radar scan of size `Size`: the tile and the id of the bot (0 for none) on every
/// cell, and the id of the scan.
pub struct RadarScan<Size: RadarSize> {
    tiles: Vec<Tile>,
    bots: Vec<u64>,
    uuid: u32,
    _phantom: PhantomData<Size>,
}

impl<Size: RadarSize> RadarScan<Size> {
    /// The number of cells of a scan.
    pub open spec fn n_cells() -> int {
        (2 * Size::radius_spec() + 1) * (2 * Size::radius_spec() + 1)
    }

    /// The tiles, in storage order.
    pub closed spec fn tiles(&self) -> Seq<Tile> {
        self.tiles@
    }

    /// The bot ids, in storage order.
    pub closed spec fn bots(&self) -> Seq<u64> {
        self.bots@
    }

    /// The id of the scan.
    pub closed spec fn uuid(&self) -> int {
        self.uuid as int
    }

    /// The stored data cover every cell.
    #[verifier::type_invariant]
    closed spec fn wf(&self) -> bool {
        &&& self.tiles@.len() == Self::n_cells()
        &&& self.bots@.len() == Self::n_cells()
    }

    /// The tile at offset `o`.
    pub open spec fn tile_at(&self, o: (int, int)) -> Tile {
        self.tiles()[offset_index(Size::radius_spec(), o)]
    }

    /// A scan from the characters and bot ids the radar reported, in storage order. `None` if the
    /// number of cells is wrong or a character shows no known tile.
    pub fn from_cells(chars: &Vec<char>, bots: Vec<u64>, uuid: u32) -> (r: Option<Self>)
        ensures
            r is Some <==> (chars@.len() == Self::n_cells() && bots@.len() == Self::n_cells()
                && forall|i: int| 0 <= i < chars@.len() ==> Tile::is_tile_char(#[trigger] chars@[i])),
            r matches Some(s) ==> s.tiles().len() == Self::n_cells() && s.uuid() == uuid && s.bots() == bots@ && forall|i: int|
                0 <= i < chars@.len() ==> (#[trigger] s.tiles()[i]).char_of() == chars@[i],
    {
        let radius = Size::radius();
        let d = Size::diameter() as usize;
        assert(d * d <= 81) by (nonlinear_arith)
            requires
                d <= 9,
        ;
        if chars.len() != d * d || bots.len() != d * d {
            return None;
        }
        let mut tiles: Vec<Tile> = Vec::new();
        let mut i: usize = 0;
        while i < chars.len()
            invariant
                i <= chars@.len(),
                tiles@.len() == i,
                forall|j: int| 0 <= j < i ==> Tile::is_tile_char(#[trigger] chars@[j]),
                forall|j: int| 0 <= j < i ==> (#[trigger] tiles@[j]).char_of() == chars@[j],
            decreases chars@.len() - i,
        {
            match Tile::from_char(chars[i]) {
                Some(t) => tiles.push(t),
                None => {
                    return None;
                },
            }
            i = i + 1;
        }
        Some(Self { tiles, bots, uuid, _phantom: PhantomData })
    }

    /// The offset (dx, dy) of the cell at `vec`, if it lies within the scan: dx to the right, dy
    /// backwards.
    fn radar_indices(vec: Vec2<Local>) -> (r: Option<(i8, i8)>)
        requires
            negatable(vec@.0),
        ensures
            r is Some <==> within(vec_to_offset(vec@), Size::radius_spec()),
            r matches Some(o) ==> (o.0 as int, o.1 as int) == vec_to_offset(vec@),
    {
        let dx = vec.right();
        let dy = vec.back();
        let radius = Size::radius() as i16;
        if -radius <= dx && dx <= radius && -radius <= dy && dy <= radius {
            Some((dx as i8, dy as i8))
        } else {
            None
        }
    }

    /// The local vector of the cell at offset (dx, dy).
    pub fn to_vec(dx: i8, dy: i8) -> (r: Vec2<Local>)
        requires
            dy > i8::MIN,
        ensures
            r@ == offset_to_vec((dx as int, dy as int)),
    {
        Vec2::new_front_right(-(dy as i16), dx as i16)
    }

    fn index_of(dx: i8, dy: i8) -> (r: usize)
        requires
            within((dx as int, dy as int), Size::radius_spec()),
        ensures
            r == offset_index(Size::radius_spec(), (dx as int, dy as int)),
            r < Self::n_cells(),
    {
        let radius = Size::radius() as i16;
        let d = Size::diameter() as i16;
        let row = (dy as i16 + radius) as usize;
        let col = (dx as i16 + radius) as usize;
        let du = d as usize;
        proof {
            assert(row * du + col < du * du) by (nonlinear_arith)
                requires
                    row < du,
                    col < du,
            ;
            assert(du * du <= 81) by (nonlinear_arith)
                requires
                    du <= 9,
            ;
        }
        row * du + col
    }

    /// Whether `vec` lies within the scan.
    pub fn contains(&self, vec: Vec2<Local>) -> (r: bool)
        requires
            negatable(vec@.0),
        ensures
            r == within(vec_to_offset(vec@), Size::radius_spec()),
    {
        Self::radar_indices(vec).is_some()
    }

    /// The tile at `vec`, if `vec` lies within the scan.
    pub fn at(&self, vec: Vec2<Local>) -> (r: Option<Tile>)
        requires
            negatable(vec@.0),
        ensures
            r is Some <==> within(vec_to_offset(vec@), Size::radius_spec()),
            r matches Some(t) ==> t == self.tile_at(vec_to_offset(vec@)),
    {
        proof {
            use_type_invariant(self);
        }
        match Self::radar_indices(vec) {
            Some((dx, dy)) => Some(self.tiles[Self::index_of(dx, dy)]),
            None => None,
        }
    }

    /// The id of the bot at `vec`, if `vec` lies within the scan and a bot stands there.
    pub fn bot_at(&self, vec: Vec2<Local>) -> (r: Option<u64>)
        requires
            negatable(vec@.0),
        ensures
            r is Some <==> within(vec_to_offset(vec@), Size::radius_spec()) && self.bots()[offset_index(
                Size::radius_spec(),
                vec_to_offset(vec@),
            )] != 0,
            r matches Some(id) ==> id == self.bots()[offset_index(
                Size::radius_spec(),
                vec_to_offset(vec@),
            )],
    {
        proof {
            use_type_invariant(self);
        }
        match Self::radar_indices(vec) {
            Some((dx, dy)) => {
                let id = self.bots[Self::index_of(dx, dy)];
                if id == 0 {
                    None
                } else {
                    Some(id)
                }
            },
            None => None,
        }
    }

    /// The entry that iteration reports for the cell at offset `o`.
    pub open spec fn entry(&self, o: (int, int)) -> ((int, int), Tile) {
        (offset_to_vec(o), self.tile_at(o))
    }

    /// The offset of the `k`-th cell in iteration order and its vector, computed in machine
    /// integers.
    fn cell_of_step(k: usize) -> (r: (i8, i8))
        requires
            k < Self::n_cells(),
        ensures
            (r.0 as int, r.1 as int) == iteration_order(Size::radius_spec())[k as int],
            within((r.0 as int, r.1 as int), Size::radius_spec()),
            r.1 > i8::MIN,
    {
        let radius = Size::radius() as usize;
        let d = Size::diameter() as usize;
        proof {
            assert(k / d < d && k % d < d) by (nonlinear_arith)
                requires
                    k < d * d,
                    d > 0,
            ;
        }
        let dx = (k / d) as i8 - radius as i8;
        let dy = (k % d) as i8 - radius as i8;
        (dx, dy)
    }

    /// Every scanned cell except the bot's own, in iteration order: offsets `dx` from left to
    /// right, and within each `dy` from front to back.
    pub fn iter(&self) -> (r: Vec<(Vec2<Local>, Tile)>)
        ensures
            r@.map_values(|p: (Vec2<Local>, Tile)| (p.0@, p.1)) == iteration_order(
                Size::radius_spec(),
            ).filter(|o: (int, int)| o != (0int, 0int)).map_values(|o: (int, int)| self.entry(o)),
    {
        proof {
            use_type_invariant(self);
        }
        let ghost order = iteration_order(Size::radius_spec());
        let ghost pred = |o: (int, int)| o != (0int, 0int);
        let ghost f = |o: (int, int)| self.entry(o);
        let ghost g = |p: (Vec2<Local>, Tile)| (p.0@, p.1);
        let radius = Size::radius();
        let d = Size::diameter() as usize;
        assert(d * d <= 81) by (nonlinear_arith)
            requires
                d <= 9,
        ;
        let n = d * d;
        let mut res: Vec<(Vec2<Local>, Tile)> = Vec::new();
        let mut k: usize = 0;
        while k < n
            invariant
                n == Self::n_cells(),
                0 <= k <= n,
                self.tiles().len() == Self::n_cells(),
                order == iteration_order(Size::radius_spec()),
                order.len() == n,
                pred == (|o: (int, int)| o != (0int, 0int)),
                f == (|o: (int, int)| self.entry(o)),
                g == (|p: (Vec2<Local>, Tile)| (p.0@, p.1)),
                res@.map_values(g) == order.take(k as int).filter(pred).map_values(f),
            decreases n - k,
        {
            let (dx, dy) = Self::cell_of_step(k);
            let ghost o = order[k as int];
            assert(o == (dx as int, dy as int));
            proof {
                assert(order.take(k + 1) == order.take(k as int).push(o));
                order.take(k as int).lemma_filter_push(o, pred);
                order.take(k as int).filter(pred).lemma_filter_len(pred);
            }
            if !(dx == 0 && dy == 0) {
                let v = Self::to_vec(dx, dy);
                let t = self.tiles[Self::index_of(dx, dy)];
                let ghost before = res@;
                res.push((v, t));
                proof {
                    assert(g((v, t)) == f(o));
                    assert(res@.map_values(g) =~= before.map_values(g).push(f(o)));
                }
            }
            k = k + 1;
        }
        proof {
            assert(order.take(n as int) == order);
        }
        res
    }

    /// The scanned cells other than the bot's own that show `tile`, in iteration order. This is
    /// useful, for example, to find only the other bots.
    pub fn iter_tile(&self, tile: Tile) -> (r: Vec<Vec2<Local>>)
        ensures
            r@.map_values(|v: Vec2<Local>| v@) == iteration_order(Size::radius_spec()).filter(
                |o: (int, int)| o != (0int, 0int) && self.tile_at(o) == tile,
            ).map_values(|o: (int, int)| offset_to_vec(o)),
    {
        proof {
            use_type_invariant(self);
        }
        let ghost order = iteration_order(Size::radius_spec());
        let ghost pred = |o: (int, int)| o != (0int, 0int) && self.tile_at(o) == tile;
        let ghost f = |o: (int, int)| offset_to_vec(o);
        let ghost g = |v: Vec2<Local>| v@;
        let radius = Size::radius();
        let d = Size::diameter() as usize;
        assert(d * d <= 81) by (nonlinear_arith)
            requires
                d <= 9,
        ;
        let n = d * d;
        let mut res: Vec<Vec2<Local>> = Vec::new();
        let mut k: usize = 0;
        while k < n
            invariant
                n == Self::n_cells(),
                0 <= k <= n,
                self.tiles().len() == Self::n_cells(),
                order == iteration_order(Size::radius_spec()),
                order.len() == n,
                pred == (|o: (int, int)| o != (0int, 0int) && self.tile_at(o) == tile),
                f == (|o: (int, int)| offset_to_vec(o)),
                g == (|v: Vec2<Local>| v@),
                res@.map_values(g) == order.take(k as int).filter(pred).map_values(f),
            decreases n - k,
        {
            let (dx, dy) = Self::cell_of_step(k);
            let ghost o = order[k as int];
            assert(o == (dx as int, dy as int));
            proof {
                assert(order.take(k + 1) == order.take(k as int).push(o));
                order.take(k as int).lemma_filter_push(o, pred);
            }
            let t = self.tiles[Self::index_of(dx, dy)];
            assert(t == self.tile_at(o));
            if t == tile && !(dx == 0 && dy == 0) {
                let v = Self::to_vec(dx, dy);
                let ghost before = res@;
                res.push(v);
                proof {
                    assert(g(v) == f(o));
                    assert(res@.map_values(g) =~= before.map_values(g).push(f(o)));
                }
            }
            k = k + 1;
        }
        proof {
            assert(order.take(n as int) == order);
        }
        res
    }

    /// A reference to this scan that does not keep new scans from overwriting it.
    pub fn weak(&self) -> (r: RadarScanWeak<Size>)
        ensures
            r.uuid() == self.uuid(),
    {
        RadarScanWeak { uuid: self.uuid, _phantom: PhantomData }
    }
}

/// The cell at the vector of an offset is that offset, and the other way round.
pub proof fn law_offset_vec_roundtrip(o: (int, int), v: (int, int))
    ensures
        vec_to_offset(offset_to_vec(o)) == o,
        offset_to_vec(vec_to_offset(v)) == v,
{
}

/// Read access to a radar scan.
pub trait RadarScanTrait<Size: RadarSize> {
    /// Whether `vec` lies within the scan.
    fn contains(&self, vec: Vec2<Local>) -> (r: bool)
        requires
            negatable(vec@.0),
        ensures
            r == within(vec_to_offset(vec@), Size::radius_spec()),
    ;

    /// The tile at `vec`, if `vec` lies within the scan.
    fn at(&self, vec: Vec2<Local>) -> (r: Option<Tile>)
        requires
            negatable(vec@.0),
        ensures
            r is Some <==> within(vec_to_offset(vec@), Size::radius_spec()),
    ;

    /// The id of the bot at `vec`, if `vec` lies within the scan and a bot stands there.
    fn bot_at(&self, vec: Vec2<Local>) -> (r: Option<u64>)
        requires
            negatable(vec@.0),
        ensures
            r is Some ==> within(vec_to_offset(vec@), Size::radius_spec()),
    ;

    /// The cells other than the bot's own that show `tile`.
    fn iter_tile(&self, tile: Tile) -> Vec<Vec2<Local>>;

    /// Every cell other than the bot's own, with its tile.
    fn iter(&self) -> Vec<(Vec2<Local>, Tile)>;
}

impl<Size: RadarSize> RadarScanTrait<Size> for RadarScan<Size> {
    fn contains(&self, vec: Vec2<Local>) -> (r: bool) {
        RadarScan::contains(self, vec)
    }

    fn at(&self, vec: Vec2<Local>) -> (r: Option<Tile>) {
        RadarScan::at(self, vec)
    }

    fn bot_at(&self, vec: Vec2<Local>) -> (r: Option<u64>)
        ensures
            r is Some <==> within(vec_to_offset(vec@), Size::radius_spec()) && self.bots()[offset_index(
                Size::radius_spec(),
                vec_to_offset(vec@),
            )] != 0,
            r matches Some(id) ==> id == self.bots()[offset_index(
                Size::radius_spec(),
                vec_to_offset(vec@),
            )],
    {
        RadarScan::bot_at(self, vec)
    }

    fn iter_tile(&self, tile: Tile) -> (r: Vec<Vec2<Local>>)
        ensures
            r@.map_values(|v: Vec2<Local>| v@) == iteration_order(Size::radius_spec()).filter(
                |o: (int, int)| o != (0int, 0int) && self.tile_at(o) == tile,
            ).map_values(|o: (int, int)| offset_to_vec(o)),
    {
        RadarScan::iter_tile(self, tile)
    }

    fn iter(&self) -> (r: Vec<(Vec2<Local>, Tile)>)
        ensures
            r@.map_values(|p: (Vec2<Local>, Tile)| (p.0@, p.1)) == iteration_order(
                Size::radius_spec(),
            ).filter(|o: (int, int)| o != (0int, 0int)).map_values(|o: (int, int)| self.entry(o)),
    {
        RadarScan::iter(self)
    }
}

/// A reference to a scan that does not block new scans. It can be upgraded to a full handle as
/// long as no newer scan has been made.
#[derive(Debug)]
pub struct RadarScanWeak<Size: RadarSize> {
    uuid: u32,
    _phantom: PhantomData<Size>,
}

impl<Size: RadarSize> Clone for RadarScanWeak<Size> {
    fn clone(&self) -> (r: Self)
        ensures
            r == *self,
    {
        *self
    }
}

impl<Size: RadarSize> Copy for RadarScanWeak<Size> {

}

impl<Size: RadarSize> RadarScanWeak<Size> {
    /// The id of the scan referred to.
    pub closed spec fn uuid(&self) -> int {
        self.uuid as int
    }

    /// Takes a new handle to the scan, if it is still the newest one.
    pub fn upgrade(&self, guard: &mut Guard) -> (r: bool)
        requires
            old(guard).count() < u32::MAX,
        ensures
            r == (self.uuid() == old(guard).active()),
            final(guard).active() == old(guard).active(),
            final(guard).count() == old(guard).count() + if r { 1int } else { 0int },
    {
        guard.try_create(self.uuid)
    }
}

} // verus!
