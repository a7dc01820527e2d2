use vstd::prelude::*;

use crate::gps::MapSectionTrait;
use crate::pos::{pos_east_south, GlobalPos};
use crate::radar::{within, RadarSize};
use crate::terrain_map::{count_true, lemma_cell_index, lemma_count_true_bound, TerrainMap};
use crate::vec2::{Global, Vec2};

verus! {

/// Whether two sections agree on every cell.
pub open spec fn same_cells<T: MapSectionTrait>(a: T, b: T) -> bool {
    forall|v: (int, int)| within(v, T::Size::radius_spec()) ==> #[trigger] a.cell(v) == b.cell(v)
}

/// Whether section `c` shows the map around `p`.
pub open spec fn shows<T: MapSectionTrait>(map: TerrainMap, c: T, p: (int, int)) -> bool {
    forall|v: (int, int)|
        within(v, T::Size::radius_spec()) ==> #[trigger] c.cell(v) == map.walkable((p.0 + v.0, p.1 + v.1))
}

/// Whether `a` comes before `b` when the map is read row by row from the north, each row from
/// the west.
pub open spec fn row_major_before(a: (int, int), b: (int, int)) -> bool {
    a.1 < b.1 || (a.1 == b.1 && a.0 < b.0)
}

/// The number of positions listed over all entries.
pub open spec fn total_len<T>(s: Seq<(T, Vec<GlobalPos>)>) -> int
    decreases s.len(),
{
    if s.len() == 0 {
        0
    } else {
        total_len(s.drop_last()) + s.last().1@.len()
    }
}

/// `r` lists each section of `map` around a walkable tile before `lim` (read row by row), with
/// the tiles it shows up around: no section twice, every list in reading order and not empty,
/// the sections in the order of their first tile.
#[verifier::opaque]
pub open spec fn chunks_before<T: MapSectionTrait>(map: TerrainMap, r: Seq<(T, Vec<GlobalPos>)>, lim: (int, int)) -> bool {
    &&& forall|i: int| 0 <= i < r.len() ==> (#[trigger] r[i]).1@.len() >= 1
    &&& forall|i: int, k: int|
        0 <= i < r.len() && 0 <= k < r[i].1@.len() ==> {
            let p = (#[trigger] r[i].1@[k])@;
            &&& map.walkable(p)
            &&& row_major_before(p, lim)
            &&& shows(map, r[i].0, p)
        }
    &&& forall|i: int, k1: int, k2: int|
        0 <= i < r.len() && 0 <= k1 < k2 < r[i].1@.len() ==> row_major_before(
            (#[trigger] r[i].1@[k1])@,
            (#[trigger] r[i].1@[k2])@,
        )
    &&& forall|i: int, j: int| 0 <= i < j < r.len() ==> !same_cells(#[trigger] r[i].0, #[trigger] r[j].0)
    &&& forall|i: int, j: int|
        0 <= i < j < r.len() ==> row_major_before((#[trigger] r[i]).1@[0]@, (#[trigger] r[j]).1@[0]@)
    &&& forall|p: (int, int)|
        #[trigger] map.walkable(p) && row_major_before(p, lim) ==> exists|i: int, k: int|
            0 <= i < r.len() && 0 <= k < r[i].1@.len() && (#[trigger] r[i].1@[k])@ == p
}

/// The totals add up along a push.
proof fn lemma_total_len_push<T>(s: Seq<(T, Vec<GlobalPos>)>, x: (T, Vec<GlobalPos>))
    ensures
        total_len(s.push(x)) == total_len(s) + x.1@.len(),
{
    assert(s.push(x).drop_last() =~= s);
}

/// Replacing one entry changes the total by the difference of the lengths.
proof fn lemma_total_len_update<T>(s: Seq<(T, Vec<GlobalPos>)>, i: int, x: (T, Vec<GlobalPos>))
    requires
        0 <= i < s.len(),
    ensures
        total_len(s.update(i, x)) == total_len(s) - s[i].1@.len() + x.1@.len(),
    decreases s.len(),
{
    if i == s.len() - 1 {
        assert(s.update(i, x).drop_last() =~= s.drop_last());
    } else {
        lemma_total_len_update(s.drop_last(), i, x);
        assert(s.update(i, x).drop_last() =~= s.drop_last().update(i, x));
    }
}

/// Whether two sections agree on every cell.
fn sections_equal<T: MapSectionTrait>(a: &T, b: &T) -> (r: bool)
    ensures
        r == same_cells(*a, *b),
{
    proof {
        T::Size::lemma_radius();
    }
    let (lo, hi) = T::Size::range();
    let ghost rad = T::Size::radius_spec();
    let mut e: i8 = lo;
    while e <= hi
        invariant
            lo == -rad,
            hi == rad,
            1 <= rad <= 4,
            rad == T::Size::radius_spec(),
            lo <= e <= hi + 1,
            forall|v: (int, int)| within(v, rad) && v.0 < e ==> #[trigger] a.cell(v) == b.cell(v),
        decreases hi + 1 - e,
    {
        let mut s: i8 = lo;
        while s <= hi
            invariant
                lo == -rad,
                hi == rad,
                1 <= rad <= 4,
                rad == T::Size::radius_spec(),
                lo <= e <= hi,
                lo <= s <= hi + 1,
                forall|v: (int, int)| within(v, rad) && v.0 < e ==> #[trigger] a.cell(v) == b.cell(v),
                forall|t: int| lo <= t < s ==> #[trigger] a.cell((e as int, t)) == b.cell((e as int, t)),
            decreases hi + 1 - s,
        {
            let v = Vec2::<Global>::new_east_south(e as i16, s as i16);
            let x = a.get(v);
            let y = b.get(v);
            match (x, y) {
                (Ok(p), Ok(q)) => {
                    if p != q {
                        assert(within((e as int, s as int), rad));
                        return false;
                    }
                },
                _ => {},
            }
            s = s + 1;
        }
        assert forall|v: (int, int)| within(v, rad) && v.0 < e + 1 implies #[trigger] a.cell(v) == b.cell(v) by {
            if v.0 == e {
                assert(a.cell((e as int, v.1)) == b.cell((e as int, v.1)));
            }
        }
        e = e + 1;
    }
    true
}


/// Moving the limit over no walkable tile keeps the description.
proof fn lemma_chunks_lim<T: MapSectionTrait>(map: TerrainMap, r: Seq<(T, Vec<GlobalPos>)>, lim1: (int, int), lim2: (int, int))
    requires
        chunks_before(map, r, lim1),
        forall|p: (int, int)| #[trigger] map.walkable(p) ==> (row_major_before(p, lim1) == row_major_before(p, lim2)),
    ensures
        chunks_before(map, r, lim2),
{
    reveal(chunks_before);
    assert forall|i: int, k: int| 0 <= i < r.len() && 0 <= k < r[i].1@.len() implies row_major_before(
        (#[trigger] r[i].1@[k])@,
        lim2,
    ) by {
        assert(map.walkable(r[i].1@[k]@));
    }
    assert forall|p: (int, int)| #[trigger] map.walkable(p) && row_major_before(p, lim2) implies exists|i: int, k: int|
        0 <= i < r.len() && 0 <= k < r[i].1@.len() && (#[trigger] r[i].1@[k])@ == p by {
        assert(row_major_before(p, lim1));
    }
}

/// A section taken around `center` shows the map there.
proof fn lemma_shows<T: MapSectionTrait>(map: TerrainMap, c: T, center: (int, int))
    requires
        forall|vec: Vec2<Global>|
            within(vec@, T::Size::radius_spec()) ==> #[trigger] c.cell(vec@) == map.walkable(
                (center.0 + vec@.0, center.1 + vec@.1),
            ),
    ensures
        shows(map, c, center),
{
    T::Size::lemma_radius();
    assert forall|v: (int, int)| within(v, T::Size::radius_spec()) implies #[trigger] c.cell(v) == map.walkable(
        (center.0 + v.0, center.1 + v.1),
    ) by {
        let x = Vec2::<Global>::lemma_of_components(v);
        assert(c.cell(x@) == map.walkable((center.0 + x@.0, center.1 + x@.1)));
    }
}

impl TerrainMap {
    /// Adds the tile at (`e`, `s`) to the sections found so far, under the section around it,
    /// where the tile is walkable.
    #[verifier::spinoff_prover]
    #[verifier::rlimit(50)]
    fn scan_tile<T: MapSectionTrait>(&self, r: &mut Vec<(T, Vec<GlobalPos>)>, e: usize, s: usize)
        requires
            self.wf(),
            e < self.width <= 0x7000,
            s < self.height <= 0x7000,
            chunks_before(*self, old(r)@, (e as int, s as int)),
        ensures
            chunks_before(*self, final(r)@, (e + 1, s as int)),
            total_len(final(r)@) == total_len(old(r)@) + if self.walkable((e as int, s as int)) {
                1int
            } else {
                0int
            },
    {
        reveal(chunks_before);
        let ghost lim = (e as int, s as int);
        let ghost lim2 = (e + 1, s as int);
        let center = pos_east_south(e as i16, s as i16);
        let chunk: T = self.get_chunk(center);
        proof {
            lemma_shows(*self, chunk, center@);
            T::Size::lemma_radius();
            assert(within((0int, 0int), T::Size::radius_spec()));
            assert(chunk.cell((0int, 0int)) == self.walkable((e as int + 0, s as int + 0)));
        }
        if !chunk.at_center() {
            proof {
                lemma_chunks_lim(*self, r@, lim, lim2);
            }
            return;
        }
        let ghost old_r = r@;
        let mut i: usize = 0;
        while i < r.len()
            invariant
                i <= r@.len(),
                r@ == old_r,
                forall|j: int| 0 <= j < i ==> !same_cells(#[trigger] r@[j].0, chunk),
            ensures
                i <= r@.len(),
                r@ == old_r,
                forall|j: int| 0 <= j < i ==> !same_cells(#[trigger] r@[j].0, chunk),
                i < r@.len() ==> same_cells(r@[i as int].0, chunk),
            decreases r@.len() - i,
        {
            if sections_equal(&r[i].0, &chunk) {
                break;
            }
            i = i + 1;
        }
        if i < r.len() {
            let ghost entry = r@[i as int];
            r[i].1.push(center);
            proof {
                let new_entry = (entry.0, entry.1);
                assert(r@ == old_r.update(i as int, r@[i as int]));
                assert(r@[i as int].0 == entry.0);
                assert(r@[i as int].1@ == entry.1@.push(center));
                lemma_total_len_update(old_r, i as int, r@[i as int]);
                assert forall|v: (int, int)| within(v, T::Size::radius_spec()) implies #[trigger] entry.0.cell(v) == self.walkable(
                    (center@.0 + v.0, center@.1 + v.1),
                ) by {
                    assert(chunk.cell(v) == entry.0.cell(v));
                }
                assert forall|p: (int, int)| #[trigger] self.walkable(p) && row_major_before(p, lim2) implies exists|i2: int, k: int|
                    0 <= i2 < r@.len() && 0 <= k < r@[i2].1@.len() && (#[trigger] r@[i2].1@[k])@ == p by {
                    if p == lim {
                        assert(r@[i as int].1@[entry.1@.len() as int] == center);
                    } else {
                        assert(row_major_before(p, lim));
                        let (i2, k) = choose|i2: int, k: int|
                            0 <= i2 < old_r.len() && 0 <= k < old_r[i2].1@.len() && (#[trigger] old_r[i2].1@[k])@ == p;
                        assert(r@[i2].1@[k] == old_r[i2].1@[k]);
                    }
                }
                assert forall|i2: int, k: int| 0 <= i2 < r@.len() && 0 <= k < r@[i2].1@.len() implies {
                    let p = (#[trigger] r@[i2].1@[k])@;
                    &&& self.walkable(p)
                    &&& row_major_before(p, lim2)
                    &&& shows(*self, r@[i2].0, p)
                } by {
                    if !(i2 == i && k == entry.1@.len()) {
                        assert(r@[i2].1@[k] == old_r[i2].1@[k]);
                    }
                }
                assert forall|i2: int, k1: int, k2: int|
                    0 <= i2 < r@.len() && 0 <= k1 < k2 < r@[i2].1@.len() implies row_major_before(
                    (#[trigger] r@[i2].1@[k1])@,
                    (#[trigger] r@[i2].1@[k2])@,
                ) by {
                    assert(r@[i2].1@[k1] == old_r[i2].1@[k1]);
                    if !(i2 == i && k2 == entry.1@.len()) {
                        assert(r@[i2].1@[k2] == old_r[i2].1@[k2]);
                    }
                }
                assert forall|i2: int, j: int| 0 <= i2 < j < r@.len() implies row_major_before(
                    (#[trigger] r@[i2]).1@[0]@,
                    (#[trigger] r@[j]).1@[0]@,
                ) by {
                    assert(r@[i2].1@[0] == old_r[i2].1@[0]);
                    assert(r@[j].1@[0] == old_r[j].1@[0]);
                    assert(row_major_before(old_r[i2].1@[0]@, old_r[j].1@[0]@));
                }
                assert forall|i2: int, j: int| 0 <= i2 < j < r@.len() implies !same_cells(#[trigger] r@[i2].0, #[trigger] r@[j].0) by {
                    assert(!same_cells(old_r[i2].0, old_r[j].0));
                }
            }
        } else {
            let mut list: Vec<GlobalPos> = Vec::new();
            list.push(center);
            r.push((chunk, list));
            proof {
                lemma_total_len_push(old_r, (chunk, list));
                let n = old_r.len() as int;
                assert(r@[n].1@[0] == center);
                assert forall|p: (int, int)| #[trigger] self.walkable(p) && row_major_before(p, lim2) implies exists|i2: int, k: int|
                    0 <= i2 < r@.len() && 0 <= k < r@[i2].1@.len() && (#[trigger] r@[i2].1@[k])@ == p by {
                    if p == lim {
                        assert(r@[n].1@[0] == center);
                    } else {
                        assert(row_major_before(p, lim));
                        let (i2, k) = choose|i2: int, k: int|
                            0 <= i2 < old_r.len() && 0 <= k < old_r[i2].1@.len() && (#[trigger] old_r[i2].1@[k])@ == p;
                        assert(r@[i2].1@[k] == old_r[i2].1@[k]);
                    }
                }
                assert forall|i2: int, k: int| 0 <= i2 < r@.len() && 0 <= k < r@[i2].1@.len() implies {
                    let p = (#[trigger] r@[i2].1@[k])@;
                    &&& self.walkable(p)
                    &&& row_major_before(p, lim2)
                    &&& shows(*self, r@[i2].0, p)
                } by {
                    if i2 < n {
                        assert(r@[i2] == old_r[i2]);
                    }
                }
                assert forall|i2: int, k1: int, k2: int|
                    0 <= i2 < r@.len() && 0 <= k1 < k2 < r@[i2].1@.len() implies row_major_before(
                    (#[trigger] r@[i2].1@[k1])@,
                    (#[trigger] r@[i2].1@[k2])@,
                ) by {
                    assert(r@[i2] == old_r[i2]);
                }
                assert forall|i2: int, j: int| 0 <= i2 < j < r@.len() implies row_major_before(
                    (#[trigger] r@[i2]).1@[0]@,
                    (#[trigger] r@[j]).1@[0]@,
                ) by {
                    assert(r@[i2] == old_r[i2]);
                    if j < n {
                        assert(r@[j] == old_r[j]);
                    } else {
                        assert(row_major_before(old_r[i2].1@[0]@, lim));
                    }
                }
                assert forall|i2: int, j: int| 0 <= i2 < j < r@.len() implies !same_cells(#[trigger] r@[i2].0, #[trigger] r@[j].0) by {
                    assert(r@[i2] == old_r[i2]);
                    if j < n {
                        assert(r@[j] == old_r[j]);
                    } else {
                        assert(!same_cells(old_r[i2].0, chunk));
                    }
                }
            }
        }
    }
}


impl TerrainMap {
    /// Each section of the map around a walkable tile, with the tiles it shows up around: no
    /// section twice, each list of tiles in reading order (row by row from the north, each row
    /// from the west), the sections in the order of their first tile.
    pub fn get_chunks<T: MapSectionTrait>(&self) -> (r: Vec<(T, Vec<GlobalPos>)>)
        requires
            self.wf(),
            self.width <= 0x7000,
            self.height <= 0x7000,
        ensures
            chunks_before(*self, r@, (0, self.height as int)),
            total_len(r@) == count_true(self.tiles@),
    {
        let w = self.width;
        let h = self.height;
        let mut r: Vec<(T, Vec<GlobalPos>)> = Vec::new();
        assert(chunks_before(*self, r@, (0, 0))) by {
            reveal(chunks_before);
        }
        assert(self.tiles@.subrange(0, 0) =~= Seq::<bool>::empty());
        assert(0 * w == 0) by (nonlinear_arith);
        let mut s: usize = 0;
        while s < h
            invariant
                self.wf(),
                w == self.width,
                h == self.height,
                w <= 0x7000,
                h <= 0x7000,
                s <= h,
                s * w <= w * h,
                chunks_before(*self, r@, (0, s as int)),
                total_len(r@) == count_true(self.tiles@.subrange(0, s * w)),
            decreases h - s,
        {
            let mut e: usize = 0;
            while e < w
                invariant
                    self.wf(),
                    w == self.width,
                    h == self.height,
                    w <= 0x7000,
                    h <= 0x7000,
                    s < h,
                    e <= w,
                    chunks_before(*self, r@, (e as int, s as int)),
                    total_len(r@) == count_true(self.tiles@.subrange(0, s * w + e)),
                decreases w - e,
            {
                proof {
                    lemma_cell_index(e as int, s as int, w as int, h as int);
                    let idx = s * w + e;
                    assert(self.tiles@.subrange(0, idx + 1).drop_last() =~= self.tiles@.subrange(0, idx));
                    assert(self.tiles@.subrange(0, idx + 1).last() == self.tiles@[idx]);
                }
                self.scan_tile(&mut r, e, s);
                e = e + 1;
            }
            proof {
                assert(s * w + w == (s + 1) * w) by (nonlinear_arith);
                assert((s + 1) * w <= w * h) by (nonlinear_arith)
                    requires
                        s < h,
                ;
                lemma_chunks_lim(*self, r@, (w as int, s as int), (0, s + 1));
            }
            s = s + 1;
        }
        proof {
            assert(h * w == w * h) by (nonlinear_arith);
            assert(self.tiles@.subrange(0, s * w) =~= self.tiles@);
        }
        r
    }
}


/// Whether the map shows walkable tile `v` away from `p`.
pub open spec fn walkable_at(map: TerrainMap, p: (int, int), v: (int, int)) -> bool {
    map.walkable((p.0 + v.0, p.1 + v.1))
}

/// Whether the map looks the same within `radius` around `p` and around `q`.
pub open spec fn same_view(map: TerrainMap, radius: int, p: (int, int), q: (int, int)) -> bool {
    forall|v: (int, int)| within(v, radius) ==> #[trigger] walkable_at(map, p, v) == walkable_at(map, q, v)
}

/// Whether no other walkable tile of the map looks like walkable tile `p` within `radius`.
pub open spec fn alone(map: TerrainMap, radius: int, p: (int, int)) -> bool {
    &&& map.walkable(p)
    &&& forall|q: (int, int)| map.walkable(q) && #[trigger] same_view(map, radius, p, q) ==> q == p
}

/// The total of a prefix is at most the whole total.
proof fn lemma_total_len_prefix<T>(s: Seq<(T, Vec<GlobalPos>)>, n: int)
    requires
        0 <= n <= s.len(),
    ensures
        total_len(s.take(n)) <= total_len(s),
    decreases s.len() - n,
{
    if n < s.len() {
        lemma_total_len_prefix(s, n + 1);
        assert(s.take(n + 1).drop_last() =~= s.take(n));
        lemma_total_len_nonneg(s.take(n));
    } else {
        assert(s.take(n) =~= s);
    }
}

/// Totals are never negative.
proof fn lemma_total_len_nonneg<T>(s: Seq<(T, Vec<GlobalPos>)>)
    ensures
        total_len(s) >= 0,
    decreases s.len(),
{
    if s.len() > 0 {
        lemma_total_len_nonneg(s.drop_last());
    }
}

/// From the sections of a map and their tiles: a section listed with a single tile shows up
/// nowhere else, and a tile that looks like no other is the single tile of its section.
proof fn lemma_unique_entries<T: MapSectionTrait>(map: TerrainMap, c: Seq<(T, Vec<GlobalPos>)>, i: int, p: (int, int))
    requires
        chunks_before(map, c, (0, map.height as int)),
        0 <= i < c.len(),
        0 <= map.height,
    ensures
        c[i].1@.len() == 1 ==> forall|q: (int, int)| map.walkable(q) && #[trigger] shows(map, c[i].0, q) ==> q == c[i].1@[0]@,
        alone(map, T::Size::radius_spec(), p) && (exists|k: int| 0 <= k < c[i].1@.len() && (#[trigger] c[i].1@[k])@ == p) ==> c[i].1@.len() == 1 && c[i].1@[0]@ == p,
{
    reveal(chunks_before);
    if c[i].1@.len() == 1 {
        assert forall|q: (int, int)| map.walkable(q) && #[trigger] shows(map, c[i].0, q) implies q == c[i].1@[0]@ by {
            assert(row_major_before(q, (0, map.height as int)));
            let (j, k) = choose|j: int, k: int| 0 <= j < c.len() && 0 <= k < c[j].1@.len() && (#[trigger] c[j].1@[k])@ == q;
            assert(shows(map, c[j].0, q));
            assert(same_cells(c[i].0, c[j].0)) by {
                assert forall|v: (int, int)| within(v, T::Size::radius_spec()) implies #[trigger] c[i].0.cell(v) == c[j].0.cell(v) by {
                    assert(c[i].0.cell(v) == map.walkable((q.0 + v.0, q.1 + v.1)));
                    assert(c[j].0.cell(v) == map.walkable((q.0 + v.0, q.1 + v.1)));
                }
            }
            if i < j {
                assert(!same_cells(c[i].0, c[j].0));
            } else if j < i {
                assert(!same_cells(c[j].0, c[i].0));
                assert forall|v: (int, int)| within(v, T::Size::radius_spec()) implies #[trigger] c[j].0.cell(v) == c[i].0.cell(v) by {
                    assert(c[i].0.cell(v) == c[j].0.cell(v));
                }
            }
            assert(k == 0);
        }
    }
    if alone(map, T::Size::radius_spec(), p) && (exists|k: int| 0 <= k < c[i].1@.len() && (#[trigger] c[i].1@[k])@ == p) {
        let k = choose|k: int| 0 <= k < c[i].1@.len() && (#[trigger] c[i].1@[k])@ == p;
        if c[i].1@.len() != 1 {
            let k2: int = if k == 0 { 1 } else { 0 };
            let q = c[i].1@[k2]@;
            assert(shows(map, c[i].0, p));
            assert(shows(map, c[i].0, q));
            assert(same_view(map, T::Size::radius_spec(), p, q)) by {
                assert forall|v: (int, int)| within(v, T::Size::radius_spec()) implies #[trigger] walkable_at(map, p, v) == walkable_at(map, q, v) by {
                    assert(c[i].0.cell(v) == map.walkable((p.0 + v.0, p.1 + v.1)));
                    assert(c[i].0.cell(v) == map.walkable((q.0 + v.0, q.1 + v.1)));
                }
            }
            assert(map.walkable(q));
            if k < k2 {
                assert(row_major_before(c[i].1@[k]@, c[i].1@[k2]@));
            } else {
                assert(row_major_before(c[i].1@[k2]@, c[i].1@[k]@));
            }
        }
    }
}

/// A tile listed in a section list is walkable, and the section shows the map around it.
proof fn lemma_listed<T: MapSectionTrait>(map: TerrainMap, c: Seq<(T, Vec<GlobalPos>)>, lim: (int, int), i: int, k: int)
    requires
        chunks_before(map, c, lim),
        0 <= i < c.len(),
        0 <= k < c[i].1@.len(),
    ensures
        map.walkable(c[i].1@[k]@),
        shows(map, c[i].0, c[i].1@[k]@),
{
    reveal(chunks_before);
}

/// The sections taken around the single tiles of the section lists of a map are the sections
/// that show up around one tile only.
proof fn lemma_unique_result<T: MapSectionTrait>(
    map: TerrainMap,
    c: Seq<(T, Vec<GlobalPos>)>,
    res: Seq<(T, GlobalPos)>,
    src: Seq<int>,
)
    requires
        chunks_before(map, c, (0, map.height as int)),
        src.len() == res.len(),
        forall|k: int|
            0 <= k < src.len() ==> {
                &&& 0 <= #[trigger] src[k] < c.len()
                &&& c[src[k]].1@.len() == 1
                &&& res[k].1 == c[src[k]].1@[0]
                &&& shows(map, res[k].0, res[k].1@)
            },
        forall|j: int| 0 <= j < c.len() && (#[trigger] c[j]).1@.len() == 1 ==> exists|k: int| 0 <= k < src.len() && #[trigger] src[k] == j,
    ensures
        forall|k: int|
            0 <= k < res.len() ==> {
                let (cc, p) = #[trigger] res[k];
                &&& map.walkable(p@)
                &&& shows(map, cc, p@)
                &&& forall|q: (int, int)| map.walkable(q) && #[trigger] shows(map, cc, q) ==> q == p@
            },
        forall|p: (int, int)|
            #[trigger] alone(map, T::Size::radius_spec(), p) ==> exists|k: int| 0 <= k < res.len() && (#[trigger] res[k]).1@ == p,
{
    let h = map.height as int;
    assert forall|k: int| 0 <= k < res.len() implies {
        let (cc, p) = #[trigger] res[k];
        &&& map.walkable(p@)
        &&& shows(map, cc, p@)
        &&& forall|q: (int, int)| map.walkable(q) && #[trigger] shows(map, cc, q) ==> q == p@
    } by {
        let j = src[k];
        let p = res[k].1@;
        lemma_listed(map, c, (0, h), j, 0);
        lemma_unique_entries(map, c, j, p);
        assert forall|q: (int, int)| map.walkable(q) && #[trigger] shows(map, res[k].0, q) implies q == p by {
            assert forall|v: (int, int)| within(v, T::Size::radius_spec()) implies #[trigger] c[j].0.cell(v) == map.walkable(
                (q.0 + v.0, q.1 + v.1),
            ) by {
                assert(c[j].0.cell(v) == map.walkable((p.0 + v.0, p.1 + v.1)));
                assert(res[k].0.cell(v) == map.walkable((p.0 + v.0, p.1 + v.1)));
                assert(res[k].0.cell(v) == map.walkable((q.0 + v.0, q.1 + v.1)));
            }
            assert(shows(map, c[j].0, q));
        }
    }
    assert forall|p: (int, int)| #[trigger] alone(map, T::Size::radius_spec(), p) implies exists|k: int|
        0 <= k < res.len() && (#[trigger] res[k]).1@ == p by {
        reveal(chunks_before);
        assert(row_major_before(p, (0, h)));
        assert(map.walkable(p));
        let (i, k) = choose|i: int, k: int| 0 <= i < c.len() && 0 <= k < c[i].1@.len() && (#[trigger] c[i].1@[k])@ == p;
        lemma_unique_entries(map, c, i, p);
        let k2 = choose|k2: int| 0 <= k2 < src.len() && #[trigger] src[k2] == i;
        assert(res[k2].1 == c[i].1@[0]);
    }
}

impl TerrainMap {
    /// The sections of the map that show up around a single walkable tile, each with that tile,
    /// in no particular order; and the number of walkable tiles.
    #[verifier::spinoff_prover]
    #[verifier::rlimit(100)]
    pub fn unique_chunks<T: MapSectionTrait>(&self) -> (r: (Vec<(T, GlobalPos)>, usize))
        requires
            self.wf(),
            self.width <= 0x7000,
            self.height <= 0x7000,
        ensures
            r.1 == count_true(self.tiles@),
            forall|k: int|
                0 <= k < r.0@.len() ==> {
                    let (c, p) = #[trigger] r.0@[k];
                    &&& self.walkable(p@)
                    &&& shows(*self, c, p@)
                    &&& forall|q: (int, int)| self.walkable(q) && #[trigger] shows(*self, c, q) ==> q == p@
                },
            forall|p: (int, int)|
                #[trigger] alone(*self, T::Size::radius_spec(), p) ==> exists|k: int| 0 <= k < r.0@.len() && (#[trigger] r.0@[k]).1@ == p,
    {
        let chunks = self.get_chunks::<T>();
        let ghost c = chunks@;
        let ghost h = self.height as int;
        proof {
            lemma_count_true_bound(self.tiles@);
        }
        let n_tiles = self.tiles.len();
        let mut res: Vec<(T, GlobalPos)> = Vec::new();
        let mut n_total: usize = 0;
        let ghost mut src: Seq<int> = Seq::empty();
        let mut j: usize = 0;
        assert(c.take(0) =~= Seq::<(T, Vec<GlobalPos>)>::empty());
        while j < chunks.len()
            invariant
                self.wf(),
                self.width <= 0x7000,
                self.height <= 0x7000,
                n_tiles == self.tiles@.len(),
                chunks_before(*self, c, (0, h)),
                h == self.height,
                chunks@ == c,
                j <= c.len(),
                n_total == total_len(c.take(j as int)),
                total_len(c) == count_true(self.tiles@) <= self.tiles@.len(),
                src.len() == res@.len(),
                forall|k: int|
                    0 <= k < src.len() ==> {
                        &&& 0 <= #[trigger] src[k] < j
                        &&& c[src[k]].1@.len() == 1
                        &&& res@[k].1 == c[src[k]].1@[0]
                        &&& shows(*self, res@[k].0, res@[k].1@)
                    },
                forall|i: int| 0 <= i < j && (#[trigger] c[i]).1@.len() == 1 ==> exists|k: int| 0 <= k < src.len() && #[trigger] src[k] == i,
            decreases c.len() - j,
        {
            proof {
                assert(c.take(j + 1).drop_last() =~= c.take(j as int));
                lemma_total_len_nonneg(c.take(j as int));
                lemma_total_len_prefix(c, j + 1);
            }
            let locations = &chunks[j].1;
            n_total = n_total + locations.len();
            if locations.len() == 1 {
                let p = locations[0];
                proof {
                    lemma_listed(*self, c, (0, h), j as int, 0);
                }
                let chunk: T = self.get_chunk(p);
                proof {
                    lemma_shows(*self, chunk, p@);
                }
                let ghost old_src = src;
                res.push((chunk, p));
                proof {
                    src = src.push(j as int);
                    assert forall|i: int| 0 <= i < j + 1 && (#[trigger] c[i]).1@.len() == 1 implies exists|k: int|
                        0 <= k < src.len() && #[trigger] src[k] == i by {
                        if i == j {
                            assert(src[old_src.len() as int] == j);
                        } else {
                            let k = choose|k: int| 0 <= k < old_src.len() && #[trigger] old_src[k] == i;
                            assert(src[k] == old_src[k]);
                        }
                    }
                }
            }
            j = j + 1;
        }
        proof {
            assert(c.take(j as int) =~= c);
            lemma_unique_result(*self, c, res@, src);
        }
        let r = (res, n_total);
        proof {
            assert(r.0@ == res@);
            assert forall|p: (int, int)| #[trigger] alone(*self, T::Size::radius_spec(), p) implies exists|k: int|
                0 <= k < r.0@.len() && (#[trigger] r.0@[k]).1@ == p by {
                let k = choose|k: int| 0 <= k < res@.len() && (#[trigger] res@[k]).1@ == p;
                assert(r.0@[k] == res@[k]);
            }
        }
        r
    }
}

} // verus!
