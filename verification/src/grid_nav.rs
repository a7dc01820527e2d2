use vstd::prelude::*;

use crate::measure::{abs, manhattan, DistanceManhattan, DistanceMeasure};
use crate::direction::Direction;
use crate::navigation::{DirectionCombination, NavigationTask, NoTarget, OutOfMemory, State};
use crate::pos::nav_pos;
use crate::pos_map::PosMap;
use crate::position::{step, Position};

verus! {

broadcast use vstd::set::group_set_axioms;

/// The distance to the target that `m` holds at `q`, if any.
pub open spec fn dist_at<M: PosMap<Option<u16>>>(m: M, q: (int, int)) -> Option<int> {
    match m.lookup(q) {
        Some(Some(d)) => Some(d as int),
        _ => None,
    }
}

/// The Manhattan distance between cells `a` and `b`.
pub open spec fn mdist(a: (int, int), b: (int, int)) -> int {
    manhattan((a.0 - b.0, a.1 - b.1))
}

/// Some neighbor of `q` has a distance, and it is smaller than that of `q`.
pub open spec fn descends<M: PosMap<Option<u16>>>(m: M, q: (int, int)) -> bool {
    exists|p: (int, int)|
        mdist(p, q) == 1 && #[trigger] dist_at(m, p) is Some && dist_at(m, p).unwrap() < dist_at(
            m,
            q,
        ).unwrap()
}

/// The distances lead to `to`: it has distance zero, and every other cell with a distance has a
/// neighbor with a smaller one.
pub open spec fn descent<M: PosMap<Option<u16>>>(m: M, to: (int, int)) -> bool {
    &&& dist_at(m, to) == Some(0int)
    &&& forall|q: (int, int)| #[trigger] dist_at(m, q) is Some && q != to ==> descends(m, q)
}

/// `m` holds distances for `k` different cells.
pub open spec fn holds_cells<M: PosMap<Option<u16>>>(m: M, k: int) -> bool {
    exists|s: Seq<(int, int)>|
        #![trigger s.len(), dist_at(m, s[0])]
        s.len() == k && (forall|i: int, j: int| 0 <= i < j < s.len() ==> s[i] != s[j]) && forall|i: int|
            0 <= i < s.len() ==> #[trigger] dist_at(m, s[i]) is Some
}

/// Why a search towards `from` may run out of room: the distances `m` refuse a cell, the cost
/// of a cell with a distance reaches the limit of its counter, a cell with a distance lies at
/// the edge of the region where navigation works, or more cells have a distance than the `n`
/// cells to expand can hold.
pub open spec fn out_of_room<M: PosMap<Option<u16>>>(m: M, from: (int, int), n: int) -> bool {
    ||| exists|p: (int, int)| !#[trigger] m.accepts(p)
    ||| exists|q: (int, int)| #[trigger] dist_at(m, q) is Some && dist_at(m, q).unwrap() + mdist(q, from) >= u16::MAX
    ||| exists|q: (int, int), p: (int, int)|
        #![trigger dist_at(m, q), nav_pos(p)]
        dist_at(m, q) is Some && mdist(p, q) == 1 && !nav_pos(p)
    ||| holds_cells(m, n + 1)
}

/// Cells with a distance, all different, and one more: that many cells hold a distance.
proof fn lemma_holds_cells<M: PosMap<Option<u16>>>(m: M, cells: Seq<(int, int)>, x: (int, int))
    requires
        forall|i: int, j: int| 0 <= i < j < cells.len() ==> cells[i] != cells[j],
        forall|i: int| 0 <= i < cells.len() ==> #[trigger] dist_at(m, cells[i]) is Some,
        forall|i: int| 0 <= i < cells.len() ==> cells[i] != x,
        dist_at(m, x) is Some,
    ensures
        holds_cells(m, cells.len() as int + 1),
{
    let s = cells.push(x);
    assert forall|i: int, j: int| 0 <= i < j < s.len() implies s[i] != s[j] by {
        if j < cells.len() {
            assert(s[i] == cells[i] && s[j] == cells[j]);
        } else {
            assert(s[i] == cells[i]);
        }
    }
    assert forall|i: int| 0 <= i < s.len() implies #[trigger] dist_at(m, s[i]) is Some by {
        if i < cells.len() {
            assert(s[i] == cells[i]);
        }
    }
    assert(dist_at(m, s[0]) is Some);
}

/// Only the distance at `n` changed from `m1` to `m2`, and not upwards.
pub open spec fn lowered_at<M: PosMap<Option<u16>>>(m1: M, m2: M, n: (int, int)) -> bool {
    &&& forall|q: (int, int)| q != n ==> #[trigger] dist_at(m2, q) == dist_at(m1, q)
    &&& dist_at(m2, n) is Some
    &&& dist_at(m1, n) is Some ==> dist_at(m2, n).unwrap() < dist_at(m1, n).unwrap()
}

/// Lowering the distance of a cell other than the target, onto one more than that of a
/// neighbor, keeps the distances leading to the target.
proof fn lemma_descent_lowered<M: PosMap<Option<u16>>>(m1: M, m2: M, to: (int, int), n: (int, int), w: (
    int,
    int,
))
    requires
        descent(m1, to),
        n != to,
        lowered_at(m1, m2, n),
        mdist(w, n) == 1,
        dist_at(m2, w) is Some,
        dist_at(m2, w).unwrap() < dist_at(m2, n).unwrap(),
    ensures
        descent(m2, to),
{
    assert forall|q: (int, int)| #[trigger] dist_at(m2, q) is Some && q != to implies descends(m2, q) by {
        if q == n {
            assert(dist_at(m2, w) is Some);
        } else {
            assert(dist_at(m1, q) is Some);
            assert(descends(m1, q));
            let p = choose|p: (int, int)|
                mdist(p, q) == 1 && #[trigger] dist_at(m1, p) is Some && dist_at(m1, p).unwrap()
                    < dist_at(m1, q).unwrap();
            assert(dist_at(m2, p) is Some);
        }
    }
}

/// The distance from `a` to `b` is that of `b` to `a`, and one step changes a distance by one.
proof fn lemma_mdist(a: (int, int), b: (int, int), c: (int, int))
    requires
        mdist(b, c) == 1,
    ensures
        mdist(a, b) == mdist(b, a),
        mdist(a, b) - 1 <= mdist(a, c) <= mdist(a, b) + 1,
        (mdist(a, c) - mdist(a, b) + 1) % 2 == 0,
{
}

/// The Manhattan distances from a cell to two cells differ by an amount of the same parity for
/// every cell.
proof fn lemma_mdist_parity(q: (int, int), a: (int, int), b: (int, int))
    ensures
        (mdist(q, b) - mdist(q, a) - mdist(a, b)) % 2 == 0,
{
    assert((abs(q.0 - b.0) - (q.0 - b.0)) % 2 == 0);
    assert((abs(q.1 - b.1) - (q.1 - b.1)) % 2 == 0);
    assert((abs(q.0 - a.0) - (q.0 - a.0)) % 2 == 0);
    assert((abs(q.1 - a.1) - (q.1 - a.1)) % 2 == 0);
    assert((abs(a.0 - b.0) - (a.0 - b.0)) % 2 == 0);
    assert((abs(a.1 - b.1) - (a.1 - b.1)) % 2 == 0);
}

/// The Manhattan distance between two cells where navigation works.
fn distance_between(a: Position, b: Position) -> (r: u16)
    requires
        nav_pos(a@),
        nav_pos(b@),
    ensures
        r == mdist(a@, b@),
{
    DistanceManhattan::measure(a - b)
}

/// The distance that `distances` holds at `pos`.
fn dist_get<M: PosMap<Option<u16>>>(distances: &M, pos: Position) -> (r: Option<u16>)
    requires
        distances.valid(),
    ensures
        match r {
            Some(d) => dist_at(*distances, pos@) == Some(d as int),
            None => dist_at(*distances, pos@) is None,
        },
{
    match distances.get(pos) {
        Some(Some(d)) => Some(d),
        _ => None,
    }
}

/// Stores the distance `d` at `pos`; other distances stay as they are.
fn dist_set<M: PosMap<Option<u16>>>(distances: &mut M, pos: Position, d: u16) -> (r: Result<
    (),
    OutOfMemory,
>)
    requires
        old(distances).valid(),
        M::blank() is None,
    ensures
        final(distances).valid(),
        r is Ok ==> dist_at(*final(distances), pos@) == Some(d as int),
        forall|q: (int, int)|
            q != pos@ ==> #[trigger] dist_at(*final(distances), q) == dist_at(*old(distances), q),
        r is Err ==> dist_at(*final(distances), pos@) == dist_at(*old(distances), pos@),
        old(distances).accepts(pos@) ==> r is Ok,
        r is Err ==> !final(distances).accepts(pos@),
{
    match distances.set(pos, Some(d)) {
        Ok(()) => Ok(()),
        Err(_) => Err(OutOfMemory),
    }
}

/// The cost `cost` of `pos`, taken with the start at `old_start`, for the start at `new_start`;
/// `None` where it does not fit its counter.
fn moved_cost(cost: u16, pos: Position, old_start: Position, new_start: Position) -> (r: Option<u16>)
    requires
        nav_pos(pos@),
        nav_pos(old_start@),
        nav_pos(new_start@),
        cost >= mdist(pos@, old_start@),
    ensures
        r matches Some(c) ==> c == cost - mdist(pos@, old_start@) + mdist(pos@, new_start@),
        r is None ==> cost - mdist(pos@, old_start@) + mdist(pos@, new_start@) > u16::MAX,
{
    let d = cost - distance_between(pos, old_start);
    d.checked_add(distance_between(pos, new_start))
}

/// Whether `p` lies where navigation works with it.
fn in_nav_region(p: Position) -> (r: bool)
    ensures
        r == nav_pos(p@),
{
    let v = p.subtract_anchor();
    -16384 <= v.east() && v.east() < 16384 && -16384 <= v.south() && v.south() < 16384
}

/// The number of a cell with `i16` coordinates among all such cells.
pub open spec fn cell_code(q: (int, int)) -> u32 {
    ((q.0 + 32768) * 65536 + (q.1 + 32768)) as u32
}

/// The cell with number `k`.
pub open spec fn code_cell(k: u32) -> (int, int) {
    ((k / 65536) as int - 32768, (k % 65536) as int - 32768)
}

/// Cell numbers tell cells with `i16` coordinates apart.
proof fn lemma_cell_code(q: (int, int))
    requires
        i16::MIN <= q.0 <= i16::MAX,
        i16::MIN <= q.1 <= i16::MAX,
    ensures
        code_cell(cell_code(q)) == q,
        forall|k: u32| #[trigger] code_cell(k) == q ==> k == cell_code(q),
{
    let a = q.0 + 32768;
    let b = q.1 + 32768;
    assert(0 <= a * 65536 + b < 0x1_0000_0000) by (nonlinear_arith)
        requires
            0 <= a < 65536,
            0 <= b < 65536,
    ;
    let k = a * 65536 + b;
    assert(k / 65536 == a && k % 65536 == b) by (nonlinear_arith)
        requires
            0 <= a < 65536,
            0 <= b < 65536,
            k == a * 65536 + b,
    ;
    assert forall|k2: u32| #[trigger] code_cell(k2) == q implies k2 == cell_code(q) by {
        let kk = k2 as int;
        assert(kk == (kk / 65536) * 65536 + kk % 65536) by (nonlinear_arith);
    }
}

/// Cell `q` has its final distance for cost level `c` under distances `m`: the cost through it
/// is at most `c`.
pub open spec fn settled<M: PosMap<Option<u16>>>(m: M, from: (int, int), c: int, q: (int, int)) -> bool {
    dist_at(m, q) is Some && dist_at(m, q).unwrap() + mdist(q, from) <= c
}

/// The numbers of the cells not yet settled for cost level `c`.
pub open spec fn unsettled<M: PosMap<Option<u16>>>(m: M, from: (int, int), c: int) -> Set<u32> {
    Set::<u32>::full().filter(|k: u32| !settled(m, from, c, code_cell(k)))
}

/// There are finitely many unsettled cells.
proof fn lemma_unsettled_finite<M: PosMap<Option<u16>>>(m: M, from: (int, int), c: int)
    ensures
        unsettled(m, from, c).finite(),
{
    broadcast use vstd::set_lib::full_set_properties;

    assert(Set::<u32>::full().finite());
    vstd::set::axiom_set_intersect_finite(
        Set::<u32>::full(),
        Set::new(|k: u32| !settled(m, from, c, code_cell(k))),
    );
}

/// Settling one cell takes it out of the unsettled ones; the others stay as they were.
proof fn lemma_unsettled_step<M: PosMap<Option<u16>>>(m1: M, m2: M, from: (int, int), c: int, n: (int, int))
    requires
        forall|q: (int, int)| q != n ==> #[trigger] dist_at(m2, q) == dist_at(m1, q),
        i16::MIN <= n.0 <= i16::MAX,
        i16::MIN <= n.1 <= i16::MAX,
    ensures
        !settled(m1, from, c, n) && settled(m2, from, c, n) ==> unsettled(m2, from, c).len() + 1
            == unsettled(m1, from, c).len(),
        settled(m1, from, c, n) == settled(m2, from, c, n) ==> unsettled(m2, from, c) == unsettled(
            m1,
            from,
            c,
        ),
{
    lemma_cell_code(n);
    lemma_unsettled_finite(m1, from, c);
    lemma_unsettled_finite(m2, from, c);
    let s1 = unsettled(m1, from, c);
    let s2 = unsettled(m2, from, c);
    if !settled(m1, from, c, n) && settled(m2, from, c, n) {
        assert(s2 =~= s1.remove(cell_code(n)));
        assert(s1.contains(cell_code(n)));
    }
    if settled(m1, from, c, n) == settled(m2, from, c, n) {
        assert(s2 =~= s1);
    }
}

/// Index `j` occurs in `a` or in `b`.
spec fn placed(a: Seq<int>, b: Seq<int>, j: int) -> bool {
    (exists|k: int| 0 <= k < a.len() && #[trigger] a[k] == j) || (exists|k: int| 0 <= k < b.len() && #[trigger] b[k] == j)
}

/// Each neighbor of `q` has a distance in `m`, at most one more than that of `q`, or `can_go`
/// refused it.
pub open spec fn expanded<M: PosMap<Option<u16>>, F: Fn(Position) -> bool>(m: M, can_go: F, q: (int, int)) -> bool {
    forall|n: Position|
        #[trigger] mdist(n@, q) == 1 ==> (dist_at(m, n@) is Some && dist_at(m, n@).unwrap() <= dist_at(m, q).unwrap()
            + 1) || can_go.ensures((n,), false)
}

/// A cell whose four neighbors each have a distance or were refused is expanded.
proof fn lemma_neighbors_expanded<M: PosMap<Option<u16>>, F: Fn(Position) -> bool>(
    m: M,
    can_go: F,
    pos: Position,
    neighbors: [(Position, Direction); 4],
)
    requires
        forall|i: int| 0 <= i < 4 ==> (#[trigger] neighbors[i]).0@ == step(pos@, neighbors[i].1),
        neighbors[0].1 == Direction::East,
        neighbors[1].1 == Direction::West,
        neighbors[2].1 == Direction::North,
        neighbors[3].1 == Direction::South,
        forall|j: int|
            0 <= j < 4 ==> (dist_at(m, (#[trigger] neighbors[j]).0@) is Some && dist_at(m, neighbors[j].0@).unwrap()
                <= dist_at(m, pos@).unwrap() + 1) || can_go.ensures((neighbors[j].0,), false),
    ensures
        expanded(m, can_go, pos@),
{
    assert forall|n: Position| #[trigger] mdist(n@, pos@) == 1 implies (dist_at(m, n@) is Some && dist_at(m, n@).unwrap()
        <= dist_at(m, pos@).unwrap() + 1) || can_go.ensures((n,), false) by {
        let p = pos@;
        let j: int = if n@ == (p.0 + 1, p.1) {
            0
        } else if n@ == (p.0 - 1, p.1) {
            1
        } else if n@ == (p.0, p.1 - 1) {
            2
        } else {
            3
        };
        assert(neighbors[j].0@ == n@);
        crate::position::lemma_position_view_injective(neighbors[j].0, n);
    }
}

/// Giving more cells a distance, or a smaller one, keeps a cell with an unchanged distance
/// expanded.
proof fn lemma_expanded_grows<M: PosMap<Option<u16>>, F: Fn(Position) -> bool>(m1: M, m2: M, can_go: F, q: (int, int))
    requires
        expanded(m1, can_go, q),
        dist_at(m2, q) == dist_at(m1, q),
        forall|p: (int, int)| #[trigger] dist_at(m1, p) is Some ==> shrunk(m1, m2, p),
    ensures
        expanded(m2, can_go, q),
{
    assert forall|n: Position| #[trigger] mdist(n@, q) == 1 implies (dist_at(m2, n@) is Some && dist_at(m2, n@).unwrap()
        <= dist_at(m2, q).unwrap() + 1) || can_go.ensures((n,), false) by {
        if dist_at(m1, n@) is Some {
            assert(shrunk(m1, m2, n@));
        }
    }
}

/// The cell `p` has a distance in `m2` no greater than in `m1`.
pub open spec fn shrunk<M: PosMap<Option<u16>>>(m1: M, m2: M, p: (int, int)) -> bool {
    dist_at(m2, p) is Some && dist_at(m2, p).unwrap() <= dist_at(m1, p).unwrap()
}

/// How a search ended.
enum NavigationResult {
    Impossible,
    Success,
}

/// An ongoing search from the target `task.to` towards `task.from`, cell by cell in order of
/// cost: the distance of a cell to the target plus its Manhattan distance to `task.from`.
struct Progress<const N: usize> {
    /// Cells to expand with cost `cost_current`.
    active_current: Vec<Position>,
    /// Cells to expand later, with their cost, which is larger than `cost_current`.
    active_next: Vec<(Position, u16)>,
    cost_current: u16,
    task: NavigationTask,
}

impl<const N: usize> Progress<N> {
    /// Moving the start to `new_start` keeps the cells to expand within `N` and every cost
    /// within a `u16`.
    spec fn queue_fits<M: PosMap<Option<u16>>>(&self, m: M, new_start: (int, int)) -> bool {
        &&& self.active_current@.len() + self.active_next@.len() <= N
        &&& forall|i: int|
            0 <= i < self.active_current@.len() ==> dist_at(m, (#[trigger] self.active_current@[i])@).unwrap()
                + mdist(self.active_current@[i]@, new_start) <= u16::MAX
        &&& forall|i: int|
            0 <= i < self.active_next@.len() ==> dist_at(m, (#[trigger] self.active_next@[i]).0@).unwrap()
                + mdist(self.active_next@[i].0@, new_start) <= u16::MAX
    }

    /// `q` is among the cells to expand.
    spec fn listed(&self, q: (int, int)) -> bool {
        ||| exists|i: int| 0 <= i < self.active_current@.len() && #[trigger] self.active_current@[i]@ == q
        ||| exists|i: int| 0 <= i < self.active_next@.len() && #[trigger] self.active_next@[i].0@ == q
    }

    /// Every cell with a distance that is not among the cells to expand has been expanded.
    #[verifier::opaque]
    spec fn closed<M: PosMap<Option<u16>>, F: Fn(Position) -> bool>(&self, m: M, can_go: F) -> bool {
        forall|q: (int, int)| #[trigger] dist_at(m, q) is Some && !self.listed(q) ==> expanded(m, can_go, q)
    }

    /// Every cell with a distance, but `pos`, that is not among the cells to expand has been
    /// expanded.
    #[verifier::opaque]
    spec fn closed_but<M: PosMap<Option<u16>>, F: Fn(Position) -> bool>(&self, m: M, can_go: F, pos: (int, int)) -> bool {
        forall|q: (int, int)| #[trigger] dist_at(m, q) is Some && !self.listed(q) && q != pos ==> expanded(m, can_go, q)
    }

    /// The cost of `q` under distances `m`.
    spec fn cost_of<M: PosMap<Option<u16>>>(&self, m: M, q: (int, int)) -> int {
        dist_at(m, q).unwrap() + mdist(q, self.task.from@)
    }

    /// The search is consistent with the distances `m`.
    spec fn wf<M: PosMap<Option<u16>>>(&self, m: M) -> bool {
        &&& nav_pos(self.task.from@)
        &&& nav_pos(self.task.to@)
        &&& self.active_current@.len() <= N
        &&& self.active_next@.len() <= N
        &&& forall|i: int, j: int|
            0 <= i < j < self.active_current@.len() ==> #[trigger] self.active_current@[i]@
                != #[trigger] self.active_current@[j]@
        &&& forall|i: int, j: int|
            0 <= i < j < self.active_next@.len() ==> #[trigger] self.active_next@[i].0@
                != #[trigger] self.active_next@[j].0@
        &&& forall|i: int|
            0 <= i < self.active_current@.len() ==> {
                let p = #[trigger] self.active_current@[i]@;
                &&& nav_pos(p)
                &&& dist_at(m, p) is Some
                &&& self.cost_of(m, p) == self.cost_current
            }
        &&& forall|i: int|
            0 <= i < self.active_next@.len() ==> {
                let (p, c) = #[trigger] self.active_next@[i];
                &&& nav_pos(p@)
                &&& dist_at(m, p@) is Some
                &&& self.cost_of(m, p@) == c
                &&& c > self.cost_current
                &&& (c - self.cost_current) % 2 == 0
            }
        &&& descent(m, self.task.to@)
    }

    /// The index of `pos` among the later cells, if it is there.
    fn find_next(&self, pos: Position) -> (r: Option<usize>)
        ensures
            r matches Some(i) ==> i < self.active_next@.len() && self.active_next@[i as int].0@ == pos@,
            r is None ==> forall|i: int| 0 <= i < self.active_next@.len() ==> self.active_next@[i].0@ != pos@,
    {
        let mut i: usize = 0;
        while i < self.active_next.len()
            invariant
                i <= self.active_next@.len(),
                forall|j: int| 0 <= j < i ==> self.active_next@[j].0@ != pos@,
            decreases self.active_next@.len() - i,
        {
            if self.active_next[i].0 == pos {
                return Some(i);
            }
            i = i + 1;
        }
        None
    }

    /// Makes `cost_minimum` the current cost, moving the later cells with that cost to the
    /// current ones.
    fn set_new_current_cost<M: PosMap<Option<u16>>>(&mut self, cost_minimum: u16, Ghost(m): Ghost<M>)
        requires
            old(self).active_current@.len() == 0,
            ({
                let s = *old(self);
                &&& nav_pos(s.task.from@)
                &&& nav_pos(s.task.to@)
                &&& s.active_next@.len() <= N
                &&& forall|i: int, j: int|
                    0 <= i < j < s.active_next@.len() ==> #[trigger] s.active_next@[i].0@
                        != #[trigger] s.active_next@[j].0@
                &&& forall|i: int|
                    0 <= i < s.active_next@.len() ==> {
                        let (p, c) = #[trigger] s.active_next@[i];
                        &&& nav_pos(p@)
                        &&& dist_at(m, p@) is Some
                        &&& s.cost_of(m, p@) == c
                        &&& c >= cost_minimum
                        &&& (c - cost_minimum) % 2 == 0
                    }
                &&& descent(m, s.task.to@)
            }),
        ensures
            final(self).wf(m),
            final(self).cost_current == cost_minimum,
            final(self).task == old(self).task,
            final(self).active_current@.len() + final(self).active_next@.len() == old(self).active_next@.len(),
            forall|q: (int, int)| #[trigger] final(self).listed(q) == old(self).listed(q),
    {
        self.cost_current = cost_minimum;
        let ghost s0 = *self;
        let mut kept: Vec<(Position, u16)> = Vec::new();
        let ghost mut src_cur: Seq<int> = Seq::empty();
        let ghost mut src_kept: Seq<int> = Seq::empty();
        let mut i: usize = 0;
        while i < self.active_next.len()
            invariant
                i <= self.active_next@.len(),
                self.active_next@ == s0.active_next@,
                self.task == s0.task,
                self.cost_current == cost_minimum,
                s0.cost_current == cost_minimum,
                self.active_current@.len() + kept@.len() == i,
                src_cur.len() == self.active_current@.len(),
                src_kept.len() == kept@.len(),
                forall|a: int|
                    0 <= a < src_cur.len() ==> 0 <= #[trigger] src_cur[a] < i && s0.active_next@[src_cur[a]].1
                        == cost_minimum && self.active_current@[a] == s0.active_next@[src_cur[a]].0,
                forall|a: int|
                    0 <= a < src_kept.len() ==> 0 <= #[trigger] src_kept[a] < i && s0.active_next@[src_kept[a]].1
                        > cost_minimum && kept@[a] == s0.active_next@[src_kept[a]],
                forall|a: int, b: int| 0 <= a < b < src_kept.len() ==> #[trigger] src_kept[a] < #[trigger] src_kept[b],
                forall|a: int, b: int| 0 <= a < b < src_cur.len() ==> #[trigger] src_cur[a] < #[trigger] src_cur[b],
                forall|j: int|
                    0 <= j < s0.active_next@.len() ==> (#[trigger] s0.active_next@[j]).1 >= cost_minimum,
                forall|j: int| 0 <= j < i ==> #[trigger] placed(src_cur, src_kept, j),
            decreases self.active_next@.len() - i,
        {
            let (pos, cost) = self.active_next[i];
            let ghost cur0 = src_cur;
            let ghost kept0 = src_kept;
            if cost == cost_minimum {
                self.active_current.push(pos);
                proof {
                    src_cur = src_cur.push(i as int);
                    assert(src_cur[src_cur.len() - 1] == i);
                }
            } else {
                kept.push((pos, cost));
                proof {
                    src_kept = src_kept.push(i as int);
                    assert(src_kept[src_kept.len() - 1] == i);
                }
            }
            proof {
                assert forall|j: int| 0 <= j < i + 1 implies #[trigger] placed(src_cur, src_kept, j) by {
                    if j < i {
                        assert(placed(cur0, kept0, j));
                        if exists|a: int| 0 <= a < cur0.len() && #[trigger] cur0[a] == j {
                            let a = choose|a: int| 0 <= a < cur0.len() && #[trigger] cur0[a] == j;
                            assert(src_cur[a] == j);
                        } else {
                            let a = choose|a: int| 0 <= a < kept0.len() && #[trigger] kept0[a] == j;
                            assert(src_kept[a] == j);
                        }
                    }
                }
            }
            i = i + 1;
        }
        self.active_next = kept;
        proof {
            let s = *self;
            assert forall|q: (int, int)| #[trigger] s.listed(q) == s0.listed(q) by {
                if s.listed(q) {
                    if exists|a: int| 0 <= a < s.active_current@.len() && #[trigger] s.active_current@[a]@ == q {
                        let a = choose|a: int| 0 <= a < s.active_current@.len() && #[trigger] s.active_current@[a]@ == q;
                        assert(s0.active_next@[src_cur[a]].0@ == q);
                    } else {
                        let a = choose|a: int| 0 <= a < s.active_next@.len() && #[trigger] s.active_next@[a].0@ == q;
                        assert(s0.active_next@[src_kept[a]].0@ == q);
                    }
                }
                if s0.listed(q) {
                    let j = choose|j: int| 0 <= j < s0.active_next@.len() && #[trigger] s0.active_next@[j].0@ == q;
                    assert(placed(src_cur, src_kept, j));
                    if exists|a: int| 0 <= a < src_cur.len() && #[trigger] src_cur[a] == j {
                        let a = choose|a: int| 0 <= a < src_cur.len() && #[trigger] src_cur[a] == j;
                        assert(s.active_current@[a]@ == q);
                    } else {
                        let a = choose|a: int| 0 <= a < src_kept.len() && #[trigger] src_kept[a] == j;
                        assert(s.active_next@[a].0@ == q);
                    }
                }
            }
            assert forall|a: int, b: int|
                0 <= a < b < s.active_next@.len() implies #[trigger] s.active_next@[a].0@
                    != #[trigger] s.active_next@[b].0@ by {
                assert(src_kept[a] < src_kept[b]);
            }
            assert forall|a: int, b: int|
                0 <= a < b < s.active_current@.len() implies #[trigger] s.active_current@[a]@
                    != #[trigger] s.active_current@[b]@ by {
                assert(src_cur[a] < src_cur[b]);
            }
            assert forall|a: int| 0 <= a < s.active_current@.len() implies {
                let p = #[trigger] s.active_current@[a]@;
                &&& nav_pos(p)
                &&& dist_at(m, p) is Some
                &&& s.cost_of(m, p) == s.cost_current
            } by {
                let j = src_cur[a];
                assert(s0.active_next@[j].1 == cost_minimum);
            }
            assert forall|a: int| 0 <= a < s.active_next@.len() implies {
                let (p, c) = #[trigger] s.active_next@[a];
                &&& nav_pos(p@)
                &&& dist_at(m, p@) is Some
                &&& s.cost_of(m, p@) == c
                &&& c > s.cost_current
                &&& (c - s.cost_current) % 2 == 0
            } by {
                let j = src_kept[a];
                assert(s0.active_next@[j] == s.active_next@[a]);
            }
        }
    }

    /// The index of a later cell with the lowest cost, if there is any.
    fn min_next(&self) -> (r: Option<usize>)
        ensures
            r is None <==> self.active_next@.len() == 0,
            r matches Some(k) ==> k < self.active_next@.len() && forall|j: int|
                0 <= j < self.active_next@.len() ==> self.active_next@[k as int].1 <= (
                #[trigger] self.active_next@[j]).1,
    {
        if self.active_next.len() == 0 {
            return None;
        }
        let mut best: usize = 0;
        let mut i: usize = 1;
        while i < self.active_next.len()
            invariant
                1 <= i <= self.active_next@.len(),
                best < i,
                forall|j: int| 0 <= j < i ==> self.active_next@[best as int].1 <= (#[trigger] self.active_next@[j]).1,
            decreases self.active_next@.len() - i,
        {
            if self.active_next[i].1 < self.active_next[best].1 {
                best = i;
            }
            i = i + 1;
        }
        Some(best)
    }

    /// Moves the start of the search to `new_start`, recomputing the cost of every cell to
    /// expand; fails where the later cells run out of room or a cost does not fit its counter.
    #[verifier::spinoff_prover]
    #[verifier::rlimit(80)]
    fn change_start<M: PosMap<Option<u16>>>(&mut self, new_start: Position, Ghost(m): Ghost<M>) -> (r: Result<
        (),
        OutOfMemory,
    >)
        requires
            old(self).wf(m),
            nav_pos(new_start@),
        ensures
            final(self).task == (NavigationTask { from: new_start, to: old(self).task.to }),
            r is Ok ==> final(self).wf(m),
            old(self).queue_fits(m, new_start@) ==> r is Ok,
    {
        let ghost fits = self.queue_fits(m, new_start@);
        if new_start == self.task.from {
            proof {
                crate::position::lemma_position_view_injective(new_start, self.task.from);
            }
            return Ok(());
        }
        let old_start = self.task.from;
        let ghost s0 = *self;
        let ghost shift = mdist(old_start@, new_start@);
        self.task = NavigationTask { from: new_start, to: self.task.to };
        let mut i: usize = 0;
        while i < self.active_next.len()
            invariant
                i <= self.active_next@.len(),
                self.active_next@.len() == s0.active_next@.len(),
                self.active_current@ == s0.active_current@,
                self.cost_current == s0.cost_current,
                self.task == (NavigationTask { from: new_start, to: s0.task.to }),
                old_start == s0.task.from,
                s0 == *old(self),
                shift == mdist(old_start@, new_start@),
                s0.wf(m),
                nav_pos(new_start@),
                fits ==> forall|j: int|
                    0 <= j < s0.active_next@.len() ==> dist_at(m, (#[trigger] s0.active_next@[j]).0@).unwrap()
                        + mdist(s0.active_next@[j].0@, new_start@) <= u16::MAX,
                forall|j: int| 0 <= j < self.active_next@.len() ==> (#[trigger] self.active_next@[j]).0 == s0.active_next@[j].0,
                forall|j: int| i <= j < self.active_next@.len() ==> (#[trigger] self.active_next@[j]).1 == s0.active_next@[j].1,
                forall|j: int|
                    0 <= j < i ==> {
                        let (p, c) = #[trigger] self.active_next@[j];
                        &&& c == dist_at(m, p@).unwrap() + mdist(p@, new_start@)
                        &&& (c - s0.cost_current - shift) % 2 == 0
                    },
            decreases self.active_next@.len() - i,
        {
            let (pos, cost) = self.active_next[i];
            assert(s0.active_next@[i as int] == (pos, cost));
            match moved_cost(cost, pos, old_start, new_start) {
                Some(c) => {
                    proof {
                        lemma_mdist_parity(pos@, old_start@, new_start@);
                    }
                    self.active_next.set(i, (pos, c));
                },
                None => {
                    proof {
                        assert(s0.cost_of(m, pos@) == cost);
                        if fits {
                            assert(dist_at(m, s0.active_next@[i as int].0@).unwrap() + mdist(s0.active_next@[i as int].0@, new_start@) <= u16::MAX);
                        }
                    }
                    return Err(OutOfMemory);
                },
            }
            i = i + 1;
        }
        let ghost n_moved = self.active_next@.len();
        while self.active_current.len() > 0
            invariant
                s0 == *old(self),
                self.active_next@.len() <= N,
                fits ==> s0.active_current@.len() + s0.active_next@.len() <= N,
                fits ==> forall|j: int|
                    0 <= j < s0.active_current@.len() ==> dist_at(m, (#[trigger] s0.active_current@[j])@).unwrap()
                        + mdist(s0.active_current@[j]@, new_start@) <= u16::MAX,
                self.active_next@.len() + self.active_current@.len() <= s0.active_next@.len() + s0.active_current@.len(),
                self.active_current@.len() <= s0.active_current@.len(),
                self.active_current@ == s0.active_current@.take(self.active_current@.len() as int),
                self.cost_current == s0.cost_current,
                self.task == (NavigationTask { from: new_start, to: s0.task.to }),
                old_start == s0.task.from,
                shift == mdist(old_start@, new_start@),
                s0.wf(m),
                nav_pos(new_start@),
                forall|a: int, b: int|
                    0 <= a < b < self.active_next@.len() ==> #[trigger] self.active_next@[a].0@
                        != #[trigger] self.active_next@[b].0@,
                forall|j: int|
                    0 <= j < self.active_next@.len() ==> {
                        let (p, c) = #[trigger] self.active_next@[j];
                        &&& nav_pos(p@)
                        &&& dist_at(m, p@) is Some
                        &&& c == dist_at(m, p@).unwrap() + mdist(p@, new_start@)
                        &&& (c - s0.cost_current - shift) % 2 == 0
                    },
            decreases self.active_current@.len(),
        {
            let pos = self.active_current.pop().unwrap();
            let k = self.active_current.len();
            assert(pos == s0.active_current@[k as int]);
            let c = match moved_cost(self.cost_current, pos, old_start, new_start) {
                Some(c) => c,
                None => {
                    proof {
                        assert(s0.cost_of(m, pos@) == s0.cost_current);
                        if fits {
                            assert(dist_at(m, s0.active_current@[k as int]@).unwrap() + mdist(s0.active_current@[k as int]@, new_start@) <= u16::MAX);
                        }
                    }
                    return Err(OutOfMemory);
                },
            };
            proof {
                lemma_mdist_parity(pos@, old_start@, new_start@);
            }
            match self.find_next(pos) {
                Some(j) => {
                    self.active_next.set(j, (pos, c));
                },
                None => {
                    if self.active_next.len() >= N {
                        proof {
                            assert(!fits);
                        }
                        return Err(OutOfMemory);
                    }
                    self.active_next.push((pos, c));
                },
            }
        }
        match self.min_next() {
            Some(k) => {
                let cost_minimum = self.active_next[k].1;
                self.set_new_current_cost::<M>(cost_minimum, Ghost(m));
            },
            None => {
                assert(self.active_current@.len() == 0);
            },
        }
        Ok(())
    }

    /// How much work is left at the current cost level: the cells not yet settled and the
    /// current cells.
    spec fn pending<M: PosMap<Option<u16>>>(&self, m: M) -> nat {
        unsettled(m, self.task.from@, self.cost_current as int).len() + self.active_current@.len()
    }

    /// Stores `cost` as the cost of the later cell `pos`, adding it where it is not there yet;
    /// fails where there is no room.
    fn insert_next(&mut self, pos: Position, cost: u16) -> (r: Result<(), OutOfMemory>)
        requires
            old(self).active_next@.len() <= N,
            forall|i: int, j: int|
                0 <= i < j < old(self).active_next@.len() ==> #[trigger] old(self).active_next@[i].0@
                    != #[trigger] old(self).active_next@[j].0@,
        ensures
            final(self).task == old(self).task,
            final(self).cost_current == old(self).cost_current,
            final(self).active_current@ == old(self).active_current@,
            r is Err <==> old(self).active_next@.len() >= N && forall|i: int|
                0 <= i < old(self).active_next@.len() ==> #[trigger] old(self).active_next@[i].0@ != pos@,
            r is Err ==> *final(self) == *old(self),
            r is Ok ==> {
                &&& final(self).active_next@.len() <= N
                &&& forall|i: int, j: int|
                    0 <= i < j < final(self).active_next@.len() ==> #[trigger] final(self).active_next@[i].0@
                        != #[trigger] final(self).active_next@[j].0@
                &&& forall|e: (Position, u16)|
                    #[trigger] final(self).active_next@.contains(e) <==> (e == (pos, cost) || (
                    old(self).active_next@.contains(e) && e.0@ != pos@))
            },
    {
        proof {
            crate::position::lemma_position_view_injective(pos, pos);
        }
        match self.find_next(pos) {
            Some(j) => {
                self.active_next.set(j, (pos, cost));
                proof {
                    assert forall|e: (Position, u16)|
                        #[trigger] self.active_next@.contains(e) <==> (e == (pos, cost) || (
                        old(self).active_next@.contains(e) && e.0@ != pos@)) by {
                        if self.active_next@.contains(e) {
                            let i = choose|i: int| 0 <= i < self.active_next@.len() && self.active_next@[i] == e;
                            if i != j {
                                assert(old(self).active_next@[i] == e);
                                assert(old(self).active_next@[i].0@ != old(self).active_next@[j as int].0@);
                            }
                        }
                        if e == (pos, cost) {
                            assert(self.active_next@[j as int] == e);
                        }
                        if old(self).active_next@.contains(e) && e.0@ != pos@ {
                            let i = choose|i: int| 0 <= i < old(self).active_next@.len() && old(self).active_next@[i] == e;
                            assert(self.active_next@[i] == e);
                        }
                    }
                }
                Ok(())
            },
            None => {
                if self.active_next.len() >= N {
                    return Err(OutOfMemory);
                }
                self.active_next.push((pos, cost));
                proof {
                    let k = self.active_next@.len() - 1;
                    assert forall|e: (Position, u16)|
                        #[trigger] self.active_next@.contains(e) <==> (e == (pos, cost) || (
                        old(self).active_next@.contains(e) && e.0@ != pos@)) by {
                        if self.active_next@.contains(e) {
                            let i = choose|i: int| 0 <= i < self.active_next@.len() && self.active_next@[i] == e;
                            if i != k {
                                assert(old(self).active_next@[i] == e);
                            }
                        }
                        if e == (pos, cost) {
                            assert(self.active_next@[k] == e);
                        }
                        if old(self).active_next@.contains(e) && e.0@ != pos@ {
                            let i = choose|i: int| 0 <= i < old(self).active_next@.len() && old(self).active_next@[i] == e;
                            assert(self.active_next@[i] == e);
                        }
                    }
                }
                Ok(())
            },
        }
    }

    /// Removes the later cell `pos`, if it is there.
    fn remove_next(&mut self, pos: Position)
        requires
            forall|i: int, j: int|
                0 <= i < j < old(self).active_next@.len() ==> #[trigger] old(self).active_next@[i].0@
                    != #[trigger] old(self).active_next@[j].0@,
        ensures
            final(self).task == old(self).task,
            final(self).cost_current == old(self).cost_current,
            final(self).active_current@ == old(self).active_current@,
            final(self).active_next@.len() <= old(self).active_next@.len(),
            forall|i: int, j: int|
                0 <= i < j < final(self).active_next@.len() ==> #[trigger] final(self).active_next@[i].0@
                    != #[trigger] final(self).active_next@[j].0@,
            forall|e: (Position, u16)|
                #[trigger] final(self).active_next@.contains(e) <==> (old(self).active_next@.contains(e)
                    && e.0@ != pos@),
    {
        match self.find_next(pos) {
            Some(j) => {
                let ghost before = self.active_next@;
                self.active_next.remove(j);
                proof {
                    assert forall|a: int, b: int|
                        0 <= a < b < self.active_next@.len() implies #[trigger] self.active_next@[a].0@
                            != #[trigger] self.active_next@[b].0@ by {
                        let a2 = if a < j { a } else { a + 1 };
                        let b2 = if b < j { b } else { b + 1 };
                        assert(self.active_next@[a] == before[a2]);
                        assert(self.active_next@[b] == before[b2]);
                    }
                    assert forall|e: (Position, u16)|
                        #[trigger] self.active_next@.contains(e) <==> (before.contains(e) && e.0@ != pos@) by {
                        if self.active_next@.contains(e) {
                            let i = choose|i: int| 0 <= i < self.active_next@.len() && self.active_next@[i] == e;
                            let i2 = if i < j { i } else { i + 1 };
                            assert(before[i2] == e);
                            assert(i2 != j);
                        }
                        if before.contains(e) && e.0@ != pos@ {
                            let i = choose|i: int| 0 <= i < before.len() && before[i] == e;
                            assert(i != j);
                            let i2 = if i < j { i } else { i - 1 };
                            assert(self.active_next@[i2] == e);
                        }
                    }
                }
            },
            None => {
                assert forall|e: (Position, u16)|
                    #[trigger] self.active_next@.contains(e) implies e.0@ != pos@ by {
                    let i = choose|i: int| 0 <= i < self.active_next@.len() && self.active_next@[i] == e;
                }
            },
        }
    }

    /// Lowering the distance of a cell that is not scheduled keeps the search consistent, given
    /// a neighbor with a smaller distance.
    /// One more neighbor of `pos` visited: the cells expanded before stay expanded, and the
    /// visited neighbors have a distance or were refused.
    proof fn lemma_keep_closed<M: PosMap<Option<u16>>, F: Fn(Position) -> bool>(
        s1: Self,
        s2: Self,
        m0: M,
        m1: M,
        can_go: F,
        pos: (int, int),
        neighbors: [(Position, Direction); 4],
        k: int,
    )
        requires
            0 <= k < 4,
            forall|q: (int, int)| #[trigger] dist_at(m0, q) is Some ==> shrunk(m0, m1, q),
            forall|q: (int, int)|
                #[trigger] dist_at(m1, q) is Some && !s2.listed(q) ==> {
                    &&& dist_at(m0, q) is Some
                    &&& !s1.listed(q)
                    &&& dist_at(m1, q) == dist_at(m0, q)
                },
            dist_at(m0, pos) is Some,
            dist_at(m1, pos) == dist_at(m0, pos),
            (dist_at(m1, neighbors[k].0@) is Some && dist_at(m1, neighbors[k].0@).unwrap() <= dist_at(m1, pos).unwrap()
                + 1) || can_go.ensures((neighbors[k].0,), false),
            s1.closed_but(m0, can_go, pos),
            forall|j: int|
                0 <= j < k ==> (dist_at(m0, (#[trigger] neighbors[j]).0@) is Some && dist_at(m0, neighbors[j].0@).unwrap()
                    <= dist_at(m0, pos).unwrap() + 1) || can_go.ensures((neighbors[j].0,), false),
        ensures
            s2.closed_but(m1, can_go, pos),
            forall|j: int|
                0 <= j < k + 1 ==> (dist_at(m1, (#[trigger] neighbors[j]).0@) is Some && dist_at(m1, neighbors[j].0@).unwrap()
                    <= dist_at(m1, pos).unwrap() + 1) || can_go.ensures((neighbors[j].0,), false),
    {
        reveal(Progress::closed_but);
        assert forall|q: (int, int)| #[trigger] dist_at(m1, q) is Some && !s2.listed(q) && q != pos implies expanded(m1, can_go, q) by {
            assert(dist_at(m0, q) is Some && !s1.listed(q));
            lemma_expanded_grows(m0, m1, can_go, q);
        }
        assert forall|j: int| 0 <= j < k + 1 implies (dist_at(m1, (#[trigger] neighbors[j]).0@) is Some && dist_at(
            m1,
            neighbors[j].0@,
        ).unwrap() <= dist_at(m1, pos).unwrap() + 1) || can_go.ensures((neighbors[j].0,), false) by {
            if j < k && dist_at(m0, neighbors[j].0@) is Some && dist_at(m0, neighbors[j].0@).unwrap()
                <= dist_at(m0, pos).unwrap() + 1 {
                assert(shrunk(m0, m1, neighbors[j].0@));
            }
        }
    }

    /// Where every cell with a distance is still to be expanded, the expanded ones are.
    proof fn lemma_fresh_closed<M: PosMap<Option<u16>>, F: Fn(Position) -> bool>(s: Self, m: M, can_go: F)
        requires
            forall|q: (int, int)| #[trigger] dist_at(m, q) is Some ==> s.listed(q),
        ensures
            s.closed(m, can_go),
    {
        reveal(Progress::closed);
    }

    /// Once `pos` is expanded too, every cell that is not to be expanded has been.
    proof fn lemma_closed_from_but<M: PosMap<Option<u16>>, F: Fn(Position) -> bool>(s: Self, m: M, can_go: F, pos: (int, int))
        requires
            s.closed_but(m, can_go, pos),
            expanded(m, can_go, pos),
        ensures
            s.closed(m, can_go),
    {
        reveal(Progress::closed);
        reveal(Progress::closed_but);
    }

    /// With no cell left to expand, every cell with a distance has been expanded.
    proof fn lemma_closed_done<M: PosMap<Option<u16>>, F: Fn(Position) -> bool>(s: Self, m: M, can_go: F)
        requires
            s.closed(m, can_go),
            s.active_current@.len() == 0,
            s.active_next@.len() == 0,
        ensures
            forall|q: (int, int)| #[trigger] dist_at(m, q) is Some ==> expanded(m, can_go, q),
    {
        reveal(Progress::closed);
        assert forall|q: (int, int)| #[trigger] dist_at(m, q) is Some implies expanded(m, can_go, q) by {
            assert(!s.listed(q));
        }
    }

    /// Regrouping the cells to expand keeps the expanded ones expanded.
    proof fn lemma_closed_relisted<M: PosMap<Option<u16>>, F: Fn(Position) -> bool>(s1: Self, s2: Self, m: M, can_go: F)
        requires
            s1.closed(m, can_go),
            forall|q: (int, int)| #[trigger] s2.listed(q) == s1.listed(q),
        ensures
            s2.closed(m, can_go),
    {
        reveal(Progress::closed);
        assert forall|q: (int, int)| #[trigger] dist_at(m, q) is Some && !s2.listed(q) implies expanded(m, can_go, q) by {
            assert(!s1.listed(q));
        }
    }

    /// Scheduling `n` keeps every other scheduled cell and schedules `n`.
    proof fn lemma_listed_kept(s0: Self, s1: Self, n: Position)
        requires
            s1.active_current@.len() >= s0.active_current@.len(),
            forall|i: int| 0 <= i < s0.active_current@.len() ==> #[trigger] s1.active_current@[i] == s0.active_current@[i],
            forall|e: (Position, u16)|
                #[trigger] s0.active_next@.contains(e) && e.0@ != n@ ==> s1.active_next@.contains(e),
            (exists|i: int| 0 <= i < s1.active_current@.len() && #[trigger] s1.active_current@[i]@ == n@) || (exists|
                i: int,
            | 0 <= i < s1.active_next@.len() && #[trigger] s1.active_next@[i].0@ == n@),
        ensures
            s1.listed(n@),
            forall|q: (int, int)| #[trigger] s0.listed(q) ==> s1.listed(q),
    {
        assert forall|q: (int, int)| #[trigger] s0.listed(q) implies s1.listed(q) by {
            if exists|i: int| 0 <= i < s0.active_current@.len() && #[trigger] s0.active_current@[i]@ == q {
                let i = choose|i: int| 0 <= i < s0.active_current@.len() && #[trigger] s0.active_current@[i]@ == q;
                assert(s1.active_current@[i]@ == q);
            } else if q != n@ {
                let i = choose|i: int| 0 <= i < s0.active_next@.len() && #[trigger] s0.active_next@[i].0@ == q;
                let e = s0.active_next@[i];
                assert(s0.active_next@.contains(e));
                assert(s1.active_next@.contains(e));
                let j = choose|j: int| 0 <= j < s1.active_next@.len() && s1.active_next@[j] == e;
                assert(s1.active_next@[j].0@ == q);
            }
        }
    }

    proof fn lemma_lowered<M: PosMap<Option<u16>>>(&self, m0: M, m1: M, n: (int, int), w: (int, int))
        requires
            self.wf(m0),
            lowered_at(m0, m1, n),
            n != self.task.to@,
            mdist(w, n) == 1,
            dist_at(m1, w) is Some,
            dist_at(m1, w).unwrap() < dist_at(m1, n).unwrap(),
            forall|i: int| 0 <= i < self.active_current@.len() ==> #[trigger] self.active_current@[i]@ != n,
            forall|i: int| 0 <= i < self.active_next@.len() ==> #[trigger] self.active_next@[i].0@ != n,
        ensures
            self.wf(m1),
    {
        lemma_descent_lowered(m0, m1, self.task.to@, n, w);
        assert forall|i: int| 0 <= i < self.active_current@.len() implies {
            let p = #[trigger] self.active_current@[i]@;
            &&& nav_pos(p)
            &&& dist_at(m1, p) is Some
            &&& self.cost_of(m1, p) == self.cost_current
        } by {
            assert(dist_at(m0, self.active_current@[i]@) is Some);
        }
        assert forall|i: int| 0 <= i < self.active_next@.len() implies {
            let (p, c) = #[trigger] self.active_next@[i];
            &&& nav_pos(p@)
            &&& dist_at(m1, p@) is Some
            &&& self.cost_of(m1, p@) == c
            &&& c > self.cost_current
            &&& (c - self.cost_current) % 2 == 0
        } by {
            assert(dist_at(m0, self.active_next@[i].0@) is Some);
        }
    }

    /// Scheduling the cell `n`, whose distance was lowered onto one more than that of the
    /// current cell `w`, keeps the search consistent: with cost `c` among the current cells if
    /// that is the current cost, else among the later cells.
    proof fn lemma_scheduled<M: PosMap<Option<u16>>>(
        s0: Self,
        s1: Self,
        m0: M,
        m1: M,
        n: Position,
        w: (int, int),
        c: int,
    )
        requires
            s0.wf(m0),
            lowered_at(m0, m1, n@),
            n@ != s0.task.to@,
            nav_pos(n@),
            mdist(w, n@) == 1,
            dist_at(m0, w) is Some,
            dist_at(m1, n@) == Some(dist_at(m0, w).unwrap() + 1),
            dist_at(m0, w).unwrap() + mdist(w, s0.task.from@) == s0.cost_current,
            c == dist_at(m1, n@).unwrap() + mdist(n@, s0.task.from@),
            s1.task == s0.task,
            s1.cost_current == s0.cost_current,
            s1.active_current@.len() <= N,
            s1.active_next@.len() <= N,
            forall|i: int, j: int|
                0 <= i < j < s1.active_next@.len() ==> #[trigger] s1.active_next@[i].0@
                    != #[trigger] s1.active_next@[j].0@,
            c == s0.cost_current ==> s1.active_current@ == s0.active_current@.push(n),
            c == s0.cost_current ==> forall|e: (Position, u16)|
                #[trigger] s1.active_next@.contains(e) <==> (s0.active_next@.contains(e) && e.0@ != n@),
            c != s0.cost_current ==> s1.active_current@ == s0.active_current@,
            c != s0.cost_current ==> forall|e: (Position, u16)|
                #[trigger] s1.active_next@.contains(e) <==> (e.0 == n && e.1 == c || (
                s0.active_next@.contains(e) && e.0@ != n@)),
        ensures
            s1.wf(m1),
    {
        let from = s0.task.from@;
        lemma_mdist(from, w, n@);
        lemma_descent_lowered(m0, m1, s0.task.to@, n@, w);
        assert forall|i: int| 0 <= i < s0.active_current@.len() implies #[trigger] s0.active_current@[i]@ != n@ by {
            assert(dist_at(m0, s0.active_current@[i]@) is Some);
        }
        assert forall|i: int, j: int|
            0 <= i < j < s1.active_current@.len() implies #[trigger] s1.active_current@[i]@
                != #[trigger] s1.active_current@[j]@ by {
            if j < s0.active_current@.len() {
                assert(s1.active_current@[i] == s0.active_current@[i]);
                assert(s1.active_current@[j] == s0.active_current@[j]);
            } else {
                assert(s1.active_current@[i] == s0.active_current@[i]);
            }
        }
        assert forall|i: int| 0 <= i < s1.active_current@.len() implies {
            let p = #[trigger] s1.active_current@[i]@;
            &&& nav_pos(p)
            &&& dist_at(m1, p) is Some
            &&& s1.cost_of(m1, p) == s1.cost_current
        } by {
            if i < s0.active_current@.len() {
                assert(s1.active_current@[i] == s0.active_current@[i]);
                assert(dist_at(m0, s0.active_current@[i]@) is Some);
            }
        }
        assert forall|i: int| 0 <= i < s1.active_next@.len() implies {
            let (p, c2) = #[trigger] s1.active_next@[i];
            &&& nav_pos(p@)
            &&& dist_at(m1, p@) is Some
            &&& s1.cost_of(m1, p@) == c2
            &&& c2 > s1.cost_current
            &&& (c2 - s1.cost_current) % 2 == 0
        } by {
            let e = s1.active_next@[i];
            assert(s1.active_next@.contains(e));
            if e.0@ != n@ {
                let j = choose|j: int| 0 <= j < s0.active_next@.len() && s0.active_next@[j] == e;
                assert(dist_at(m0, e.0@) is Some);
            }
        }
    }

    /// Expands the current cell `pos`, with distance `distance_current`, towards its neighbor
    /// `neighbor`. Reaching the start ends the search; a neighbor that `can_go` admits and that
    /// gets a smaller distance this way has it stored and is scheduled for expansion. Returns
    /// whether the start was reached; fails where the distances or the later cells run out of
    /// room, or a cost does not fit its counter.
    #[verifier::spinoff_prover]
    #[verifier::rlimit(100)]
    fn visit<M: PosMap<Option<u16>>, F: Fn(Position) -> bool>(
        &mut self,
        distances: &mut M,
        can_go: &F,
        pos: Position,
        distance_current: u16,
        neighbor: Position,
    ) -> (r: Result<bool, OutOfMemory>)
        requires
            old(self).wf(*old(distances)),
            old(distances).valid(),
            M::blank() is None,
            dist_at(*old(distances), old(self).task.from@) is None,
            nav_pos(pos@),
            dist_at(*old(distances), pos@) == Some(distance_current as int),
            distance_current + mdist(pos@, old(self).task.from@) == old(self).cost_current,
            mdist(neighbor@, pos@) == 1,
            forall|p: Position| #[trigger] can_go.requires((p,)),
        ensures
            final(distances).valid(),
            final(self).task == old(self).task,
            final(self).cost_current == old(self).cost_current,
            r matches Ok(true) ==> final(self).wf(*final(distances)) && dist_at(
                *final(distances),
                final(self).task.from@,
            ) is Some,
            r matches Ok(true) ==> neighbor@ == old(self).task.from@ && dist_at(*final(distances), neighbor@) == Some(
                distance_current + 1,
            ),
            r matches Ok(false) ==> {
                &&& final(self).wf(*final(distances))
                &&& dist_at(*final(distances), final(self).task.from@) is None
                &&& dist_at(*final(distances), pos@) == Some(distance_current as int)
                &&& final(self).pending(*final(distances)) == old(self).pending(*old(distances))
                &&& forall|q: (int, int)|
                    #[trigger] dist_at(*old(distances), q) is Some ==> shrunk(*old(distances), *final(distances), q)
                &&& forall|q: (int, int)|
                    #[trigger] dist_at(*final(distances), q) is Some && !final(self).listed(q) ==> {
                        &&& dist_at(*old(distances), q) is Some
                        &&& !old(self).listed(q)
                        &&& dist_at(*final(distances), q) == dist_at(*old(distances), q)
                    }
                &&& (dist_at(*final(distances), neighbor@) is Some && dist_at(*final(distances), neighbor@).unwrap()
                    <= distance_current + 1) || can_go.ensures((neighbor,), false)
            },
            distance_current == u16::MAX ==> r is Err,
            r is Err ==> out_of_room(*final(distances), old(self).task.from@, N as int),
            forall|q: (int, int)|
                #[trigger] dist_at(*final(distances), q) is Some && q != old(self).task.from@ ==> dist_at(
                    *old(distances),
                    q,
                ) is Some || answered(*can_go, q),
            distance_current < u16::MAX && neighbor@ != old(self).task.from@ && dist_at(*old(distances), neighbor@) is Some
                && dist_at(*old(distances), neighbor@).unwrap() <= distance_current + 1 ==> (r matches Ok(false))
                && *final(distances) == *old(distances) && *final(self) == *old(self),
            distance_current < u16::MAX && neighbor@ != old(self).task.from@ && (forall|b: bool|
                can_go.ensures((neighbor,), b) ==> !b) ==> (r matches Ok(false)) && *final(distances) == *old(distances)
                && *final(self) == *old(self),
    {
        let ghost m0 = *distances;
        let ghost s0 = *self;
        let ghost from = self.task.from@;
        let ghost to = self.task.to@;
        proof {
            lemma_mdist(from, pos@, neighbor@);
            neighbor.lemma_range();
        }
        if distance_current == u16::MAX {
            proof {
                assert(dist_at(*distances, pos@) is Some);
            }
            return Err(OutOfMemory);
        }
        let distance_neighbor = distance_current + 1;
        if neighbor == self.task.from {
            match dist_set(distances, neighbor, distance_neighbor) {
                Ok(()) => {},
                Err(e) => {
                    proof {
                        assert(!distances.accepts(neighbor@));
                    }
                    return Err(e);
                },
            }
            proof {
                assert forall|i: int| 0 <= i < s0.active_current@.len() implies #[trigger] s0.active_current@[i]@ != neighbor@ by {
                    assert(dist_at(m0, s0.active_current@[i]@) is Some);
                }
                assert forall|i: int| 0 <= i < s0.active_next@.len() implies #[trigger] s0.active_next@[i].0@ != neighbor@ by {
                    assert(dist_at(m0, s0.active_next@[i].0@) is Some);
                }
                s0.lemma_lowered(m0, *distances, neighbor@, pos@);
            }
            return Ok(true);
        }
        let prev = dist_get(distances, neighbor);
        let improves = match prev {
            None => true,
            Some(p) => p > distance_neighbor,
        };
        if can_go(neighbor) && improves {
            if !in_nav_region(neighbor) {
                proof {
                    assert(dist_at(*distances, pos@) is Some && mdist(neighbor@, pos@) == 1 && !nav_pos(neighbor@));
                }
                return Err(OutOfMemory);
            }
            match dist_set(distances, neighbor, distance_neighbor) {
                Ok(()) => {},
                Err(e) => {
                    proof {
                        assert(!distances.accepts(neighbor@));
                    }
                    return Err(e);
                },
            }
            let ghost m1 = *distances;
            let cost_neighbor = match distance_neighbor.checked_add(
                distance_between(neighbor, self.task.from),
            ) {
                Some(c) => c,
                None => {
                    proof {
                        assert(dist_at(*distances, neighbor@) is Some);
                    }
                    return Err(OutOfMemory);
                },
            };
            proof {
                assert(neighbor@ != to);
                lemma_unsettled_step(m0, m1, from, s0.cost_current as int, neighbor@);
            }
            if cost_neighbor == self.cost_current {
                if self.active_current.len() >= N {
                    proof {
                        let cells = s0.active_current@.map_values(|p: Position| p@);
                        assert forall|i: int| 0 <= i < cells.len() implies cells[i] != neighbor@ by {
                            assert(cells[i] == s0.active_current@[i]@);
                            assert(dist_at(m0, s0.active_current@[i]@) is Some);
                        }
                        assert forall|i: int, j: int| 0 <= i < j < cells.len() implies cells[i] != cells[j] by {
                            assert(cells[i] == s0.active_current@[i]@ && cells[j] == s0.active_current@[j]@);
                        }
                        assert forall|i: int| 0 <= i < cells.len() implies #[trigger] dist_at(m1, cells[i]) is Some by {
                            assert(cells[i] == s0.active_current@[i]@);
                            assert(dist_at(m0, s0.active_current@[i]@) is Some);
                        }
                        lemma_holds_cells(m1, cells, neighbor@);
                    }
                    return Err(OutOfMemory);
                }
                self.active_current.push(neighbor);
                self.remove_next(neighbor);
                assert(self.active_current@[self.active_current@.len() - 1]@ == neighbor@);
            } else {
                match self.insert_next(neighbor, cost_neighbor) {
                    Ok(()) => {},
                    Err(e) => {
                        proof {
                            let cells = s0.active_next@.map_values(|e: (Position, u16)| e.0@);
                            assert forall|i: int| 0 <= i < cells.len() implies cells[i] != neighbor@ by {
                                assert(cells[i] == s0.active_next@[i].0@);
                            }
                            assert forall|i: int, j: int| 0 <= i < j < cells.len() implies cells[i] != cells[j] by {
                                assert(cells[i] == s0.active_next@[i].0@ && cells[j] == s0.active_next@[j].0@);
                            }
                            assert forall|i: int| 0 <= i < cells.len() implies #[trigger] dist_at(m1, cells[i]) is Some by {
                                assert(cells[i] == s0.active_next@[i].0@);
                                assert(dist_at(m0, s0.active_next@[i].0@) is Some);
                            }
                            lemma_holds_cells(m1, cells, neighbor@);
                        }
                        return Err(e);
                    },
                }
                assert(self.active_next@.contains((neighbor, cost_neighbor)));
                let ghost j = choose|j: int| 0 <= j < self.active_next@.len() && self.active_next@[j] == (neighbor, cost_neighbor);
                assert(self.active_next@[j].0@ == neighbor@);
            }
            proof {
                Self::lemma_scheduled(s0, *self, m0, m1, neighbor, pos@, cost_neighbor as int);
                Self::lemma_listed_kept(s0, *self, neighbor);
            }
        }
        Ok(false)
    }

    /// Runs the search until it reaches the start or finds that it cannot: the target itself
    /// must be admitted by `can_go`, and the search stops without success once no cell is left
    /// to expand. Fails only where the distances refuse a cell, the cells to expand would exceed
    /// `N`, a cost reaches the limit of its counter, or a cell lies at the edge of the region
    /// where navigation works (`out_of_room`). On success from a closed search, no admitted walk
    /// from the target to the start is shorter than the start's distance; starting from the
    /// target alone, the distances lead back from the start over cells that `can_go` admitted,
    /// in at most that many steps.
    #[verifier::spinoff_prover]
    #[verifier::rlimit(100)]
    fn run<M: PosMap<Option<u16>>, F: Fn(Position) -> bool>(&mut self, distances: &mut M, can_go: &F) -> (r: Result<
        NavigationResult,
        OutOfMemory,
    >)
        requires
            old(self).wf(*old(distances)),
            old(distances).valid(),
            M::blank() is None,
            dist_at(*old(distances), old(self).task.from@) is None,
            forall|p: Position| #[trigger] can_go.requires((p,)),
        ensures
            final(distances).valid(),
            final(self).task == old(self).task,
            r matches Ok(NavigationResult::Success) ==> final(self).wf(*final(distances)) && dist_at(
                *final(distances),
                final(self).task.from@,
            ) is Some,
            r matches Ok(NavigationResult::Impossible) ==> final(self).wf(*final(distances)) && dist_at(
                *final(distances),
                final(self).task.from@,
            ) is None,
            (forall|b: bool| can_go.ensures((old(self).task.to,), b) ==> !b) ==> r matches Ok(NavigationResult::Impossible),
            r is Err ==> out_of_room(*final(distances), old(self).task.from@, N as int),
            (forall|q: (int, int)| #[trigger] dist_at(*old(distances), q) is Some ==> q == old(self).task.to@) && (r matches Ok(
                NavigationResult::Success,
            )) ==> exists|path: Seq<Position>|
                #[trigger] answered_path(*can_go, path) && path[0]@ == old(self).task.to@ && path.last()@
                    == old(self).task.from@ && path.len() - 1 <= dist_at(*final(distances), old(self).task.from@).unwrap(),
            old(self).closed(*old(distances), *can_go) && (r matches Ok(NavigationResult::Success)) ==> paths_at_least(
                *can_go,
                final(self).task.to,
                final(self).task.from,
                dist_at(*final(distances), final(self).task.from@).unwrap(),
            ),
            old(self).closed(*old(distances), *can_go) && (r matches Ok(NavigationResult::Impossible)) ==> {
                ||| can_go.ensures((final(self).task.to,), false)
                ||| forall|q: (int, int)| #[trigger] dist_at(*final(distances), q) is Some ==> expanded(*final(distances), *can_go, q)
            },
    {
        let ghost closed0 = self.closed(*distances, *can_go);
        let ghost refuses = forall|b: bool| can_go.ensures((self.task.to,), b) ==> !b;
        let ghost only0 = forall|q: (int, int)| #[trigger] dist_at(*distances, q) is Some ==> q == self.task.to@;
        if !can_go(self.task.to) {
            return Ok(NavigationResult::Impossible);
        }
        assert(!refuses);
        assert(only0 ==> forall|q: (int, int)| #[trigger] dist_at(*distances, q) is Some && q != self.task.from@ ==> answered(
            *can_go,
            q,
        ));
        loop
            invariant
                self.wf(*distances),
                distances.valid(),
                M::blank() is None,
                dist_at(*distances, self.task.from@) is None,
                self.task == old(self).task,
                forall|p: Position| #[trigger] can_go.requires((p,)),
                closed0 ==> self.closed(*distances, *can_go),
                closed0 == old(self).closed(*old(distances), *can_go),
                !refuses,
                refuses == (forall|b: bool| can_go.ensures((old(self).task.to,), b) ==> !b),
                only0 ==> forall|q: (int, int)|
                    #[trigger] dist_at(*distances, q) is Some && q != self.task.from@ ==> answered(*can_go, q),
                only0 == (forall|q: (int, int)| #[trigger] dist_at(*old(distances), q) is Some ==> q == old(self).task.to@),
            decreases u16::MAX - self.cost_current,
        {
            let ghost c0 = self.cost_current;
            while self.active_current.len() > 0
                invariant
                    self.wf(*distances),
                    distances.valid(),
                    M::blank() is None,
                    dist_at(*distances, self.task.from@) is None,
                    self.task == old(self).task,
                    self.cost_current == c0,
                    forall|p: Position| #[trigger] can_go.requires((p,)),
                    closed0 ==> self.closed(*distances, *can_go),
                    closed0 == old(self).closed(*old(distances), *can_go),
                    !refuses,
                    refuses == (forall|b: bool| can_go.ensures((old(self).task.to,), b) ==> !b),
                    only0 ==> forall|q: (int, int)|
                        #[trigger] dist_at(*distances, q) is Some && q != self.task.from@ ==> answered(*can_go, q),
                    only0 == (forall|q: (int, int)| #[trigger] dist_at(*old(distances), q) is Some ==> q == old(self).task.to@),
                decreases self.pending(*distances),
            {
                let ghost before = self.pending(*distances);
                let ghost s0 = *self;
                proof {
                    if closed0 {
                        lemma_min_walk(*self, *distances, *can_go);
                    }
                }
                let pos = self.active_current.pop().unwrap();
                proof {
                    let k = self.active_current@.len() as int;
                    assert(pos == s0.active_current@[k]);
                    assert forall|i: int| 0 <= i < self.active_current@.len() implies {
                        let p = #[trigger] self.active_current@[i]@;
                        &&& nav_pos(p)
                        &&& dist_at(*distances, p) is Some
                        &&& self.cost_of(*distances, p) == self.cost_current
                    } by {
                        assert(self.active_current@[i] == s0.active_current@[i]);
                    }
                    lemma_unsettled_finite(*distances, self.task.from@, self.cost_current as int);
                    if closed0 {
                        reveal(Progress::closed);
                        reveal(Progress::closed_but);
                        assert forall|q: (int, int)| #[trigger] dist_at(*distances, q) is Some && !self.listed(q) && q != pos@ implies expanded(*distances, *can_go, q) by {
                            if s0.listed(q) {
                                if exists|i: int| 0 <= i < s0.active_current@.len() && #[trigger] s0.active_current@[i]@ == q {
                                    let i = choose|i: int| 0 <= i < s0.active_current@.len() && #[trigger] s0.active_current@[i]@ == q;
                                    if i < k {
                                        assert(self.active_current@[i]@ == q);
                                    }
                                } else {
                                    let i = choose|i: int| 0 <= i < s0.active_next@.len() && #[trigger] s0.active_next@[i].0@ == q;
                                    assert(self.active_next@[i].0@ == q);
                                }
                            }
                        }
                    }
                }
                let distance_current = self.cost_current - distance_between(pos, self.task.from);
                let neighbors = pos.neighbors();
                let mut k: usize = 0;
                while k < 4
                    invariant
                        k <= 4,
                        self.wf(*distances),
                        distances.valid(),
                        M::blank() is None,
                        dist_at(*distances, self.task.from@) is None,
                        self.task == old(self).task,
                        self.cost_current == c0,
                        forall|p: Position| #[trigger] can_go.requires((p,)),
                        nav_pos(pos@),
                        dist_at(*distances, pos@) == Some(distance_current as int),
                        distance_current + mdist(pos@, self.task.from@) == self.cost_current,
                        forall|i: int| 0 <= i < 4 ==> #[trigger] mdist(neighbors[i].0@, pos@) == 1,
                        forall|i: int| 0 <= i < 4 ==> (#[trigger] neighbors[i]).0@ == step(pos@, neighbors[i].1),
                        neighbors[0].1 == Direction::East,
                        neighbors[1].1 == Direction::West,
                        neighbors[2].1 == Direction::North,
                        neighbors[3].1 == Direction::South,
                        self.pending(*distances) + 1 == before,
                        closed0 == old(self).closed(*old(distances), *can_go),
                        !refuses,
                        refuses == (forall|b: bool| can_go.ensures((old(self).task.to,), b) ==> !b),
                        only0 ==> forall|q: (int, int)|
                            #[trigger] dist_at(*distances, q) is Some && q != self.task.from@ ==> answered(*can_go, q),
                        only0 == (forall|q: (int, int)| #[trigger] dist_at(*old(distances), q) is Some ==> q == old(self).task.to@),
                        closed0 ==> self.closed_but(*distances, *can_go, pos@),
                        closed0 ==> paths_at_least(*can_go, self.task.to, self.task.from, self.cost_current as int),
                        closed0 ==> forall|j: int|
                            0 <= j < k ==> (dist_at(*distances, (#[trigger] neighbors[j]).0@) is Some && dist_at(
                                *distances,
                                neighbors[j].0@,
                            ).unwrap() <= distance_current + 1) || can_go.ensures((neighbors[j].0,), false),
                    decreases 4 - k,
                {
                    let ghost m0 = *distances;
                    let ghost s1 = *self;
                    match self.visit(distances, can_go, pos, distance_current, neighbors[k].0) {
                        Ok(true) => {
                            proof {
                                lemma_mdist(self.task.from@, pos@, neighbors[k as int].0@);
                                if only0 {
                                    assert forall|q: (int, int)|
                                        #[trigger] dist_at(*distances, q) is Some && q != self.task.from@ implies answered(
                                        *can_go,
                                        q,
                                    ) by {
                                        if dist_at(m0, q) is Some {
                                            assert(q != self.task.from@);
                                        }
                                    }
                                    let path = lemma_descent_path(
                                        *distances,
                                        *can_go,
                                        self.task.to@,
                                        self.task.from@,
                                        self.task.from@,
                                        self.task.from,
                                    );
                                    assert(answered_path(*can_go, path));
                                }
                            }
                            return Ok(NavigationResult::Success);
                        },
                        Ok(false) => {},
                        Err(e) => {
                            return Err(e);
                        },
                    }
                    proof {
                        if closed0 {
                            Self::lemma_keep_closed(s1, *self, m0, *distances, *can_go, pos@, neighbors, k as int);
                        }
                    }
                    k = k + 1;
                }
                proof {
                    if closed0 {
                        lemma_neighbors_expanded(*distances, *can_go, pos, neighbors);
                        Self::lemma_closed_from_but(*self, *distances, *can_go, pos@);
                    }
                }
            }
            if self.active_next.len() == 0 {
                proof {
                    if closed0 {
                        Self::lemma_closed_done(*self, *distances, *can_go);
                    }
                }
                return Ok(NavigationResult::Impossible);
            }
            assert(self.active_next@[0].1 >= self.cost_current + 2);
            let cost_minimum = self.cost_current + 2;
            let ghost s_before = *self;
            self.set_new_current_cost::<M>(cost_minimum, Ghost(*distances));
            proof {
                if closed0 {
                    Self::lemma_closed_relisted(s_before, *self, *distances, *can_go);
                }
            }
        }
    }
}

/// `can_go` admitted the cell `q` when called with it.
pub open spec fn answered<F: Fn(Position) -> bool>(can_go: F, q: (int, int)) -> bool {
    exists|p: Position| p@ == q && #[trigger] can_go.ensures((p,), true)
}

/// `path` walks from neighbor to neighbor, and `can_go` admitted each of its cells but the last
/// when called with it.
pub open spec fn answered_path<F: Fn(Position) -> bool>(can_go: F, path: Seq<Position>) -> bool {
    &&& path.len() >= 1
    &&& forall|i: int| 0 <= i < path.len() - 1 ==> can_go.ensures((#[trigger] path[i],), true)
    &&& forall|i: int| 0 <= i < path.len() - 1 ==> #[trigger] adjacent(path, i)
}

/// Following smaller distances from cell `q` leads to the target `to` in at most the distance
/// of `q` steps, over cells that `can_go` admitted.
proof fn lemma_descent_path<M: PosMap<Option<u16>>, F: Fn(Position) -> bool>(
    m: M,
    can_go: F,
    to: (int, int),
    from: (int, int),
    q: (int, int),
    qpos: Position,
) -> (path: Seq<Position>)
    requires
        descent(m, to),
        dist_at(m, q) is Some,
        qpos@ == q,
        forall|p: (int, int)| #[trigger] dist_at(m, p) is Some && p != from ==> answered(can_go, p),
        q != from ==> can_go.ensures((qpos,), true),
        dist_at(m, from) is None || dist_at(m, q).unwrap() <= dist_at(m, from).unwrap(),
    ensures
        answered_path(can_go, path),
        path[0]@ == to,
        path.last() == qpos,
        path.len() - 1 <= dist_at(m, q).unwrap(),
    decreases dist_at(m, q).unwrap(),
{
    if q == to {
        seq![qpos]
    } else {
        assert(descends(m, q));
        let p = choose|p: (int, int)|
            mdist(p, q) == 1 && #[trigger] dist_at(m, p) is Some && dist_at(m, p).unwrap() < dist_at(m, q).unwrap();
        assert(p != from);
        assert(answered(can_go, p));
        let pp = choose|pp: Position| pp@ == p && #[trigger] can_go.ensures((pp,), true);
        let rest = lemma_descent_path(m, can_go, to, from, p, pp);
        let path = rest.push(qpos);
        assert forall|i: int| 0 <= i < path.len() - 1 implies can_go.ensures((#[trigger] path[i],), true) by {
            assert(path[i] == rest[i]);
        }
        assert forall|i: int| 0 <= i < path.len() - 1 implies #[trigger] adjacent(path, i) by {
            if i < rest.len() - 1 {
                assert(adjacent(rest, i));
                assert(path[i] == rest[i] && path[i + 1] == rest[i + 1]);
            } else {
                assert(path[i] == pp && path[i + 1] == qpos);
                lemma_mdist(q, p, q);
            }
        }
        assert(path[0] == rest[0]);
        path
    }
}

/// Where `can_go` answers each cell always the same way and admits the start, a walk that it
/// admitted when asked, of at most `d` steps, while no admitted walk takes fewer than `d`
/// steps, is an admitted walk of exactly `d` steps: the shortest one.
pub proof fn law_shortest_walk<F: Fn(Position) -> bool>(can_go: F, to: Position, from: Position, d: int, path: Seq<Position>)
    requires
        forall|p: Position, b1: bool, b2: bool| can_go.ensures((p,), b1) && can_go.ensures((p,), b2) ==> b1 == b2,
        admits(can_go, from),
        answered_path(can_go, path),
        path[0]@ == to@,
        path.last() == from,
        path.len() - 1 <= d,
        paths_at_least(can_go, to, from, d),
    ensures
        admitted_path(can_go, path),
        path.len() - 1 == d,
{
    assert forall|i: int| 0 <= i < path.len() implies admits(can_go, #[trigger] path[i]) by {
        if i < path.len() - 1 {
            assert(can_go.ensures((path[i],), true));
        }
    }
    assert(admitted_path(can_go, path));
    assert(path.last()@ == from@);
}

/// Every walk from `to` to `from` over cells that `can_go` admits takes at least `c` steps.
pub open spec fn paths_at_least<F: Fn(Position) -> bool>(can_go: F, to: Position, from: Position, c: int) -> bool {
    forall|path: Seq<Position>|
        #[trigger] admitted_path(can_go, path) && path[0]@ == to@ && path.last()@ == from@ ==> path.len() - 1 >= c
}

/// A walk that takes `k` steps ends at most `k` steps away, by Manhattan distance.
proof fn lemma_walk_mdist<F: Fn(Position) -> bool>(can_go: F, path: Seq<Position>, i: int)
    requires
        admitted_path(can_go, path),
        0 <= i < path.len(),
    ensures
        mdist(path[i]@, path.last()@) <= path.len() - 1 - i,
    decreases path.len() - i,
{
    if i < path.len() - 1 {
        lemma_walk_mdist(can_go, path, i + 1);
        assert(adjacent(path, i));
        lemma_mdist(path.last()@, path[i + 1]@, path[i]@);
    }
}

/// Along a walk from the target over admitted cells, the cells up to `j` have a distance no
/// greater than their place on the walk, up to the first one still to be expanded.
proof fn lemma_walk_listed<const N: usize, M: PosMap<Option<u16>>, F: Fn(Position) -> bool>(
    s: Progress<N>,
    m: M,
    can_go: F,
    path: Seq<Position>,
    j: int,
)
    requires
        s.wf(m),
        s.closed(m, can_go),
        admitted_path(can_go, path),
        path[0]@ == s.task.to@,
        0 <= j < path.len(),
    ensures
        (exists|i: int|
            0 <= i <= j && #[trigger] s.listed(path[i]@) && dist_at(m, path[i]@) is Some && dist_at(m, path[i]@).unwrap()
                <= i) || (dist_at(m, path[j]@) is Some && dist_at(m, path[j]@).unwrap() <= j),
    decreases j,
{
    if j > 0 {
        lemma_walk_listed(s, m, can_go, path, j - 1);
        if !(exists|i: int|
            0 <= i <= j - 1 && #[trigger] s.listed(path[i]@) && dist_at(m, path[i]@) is Some && dist_at(
                m,
                path[i]@,
            ).unwrap() <= i) {
            let q = path[j - 1]@;
            if s.listed(q) {
                assert(s.listed(path[j - 1]@));
            } else {
                reveal(Progress::closed);
                assert(expanded(m, can_go, q));
                assert(adjacent(path, j - 1));
                assert(mdist(path[j]@, q) == 1);
                assert(admits(can_go, path[j]));
            }
        }
    }
}

/// Where the search is consistent and closed and the start has no distance yet, every walk from
/// the target to the start over admitted cells takes at least the current cost.
proof fn lemma_min_walk<const N: usize, M: PosMap<Option<u16>>, F: Fn(Position) -> bool>(
    s: Progress<N>,
    m: M,
    can_go: F,
)
    requires
        s.wf(m),
        s.closed(m, can_go),
        dist_at(m, s.task.from@) is None,
    ensures
        paths_at_least(can_go, s.task.to, s.task.from, s.cost_current as int),
{
    assert forall|path: Seq<Position>|
        #[trigger] admitted_path(can_go, path) && path[0]@ == s.task.to@ && path.last()@ == s.task.from@ implies path.len()
        - 1 >= s.cost_current by {
        let k = path.len() - 1;
        lemma_walk_listed(s, m, can_go, path, k);
        let i = choose|i: int|
            0 <= i <= k && #[trigger] s.listed(path[i]@) && dist_at(m, path[i]@) is Some && dist_at(m, path[i]@).unwrap()
                <= i;
        lemma_walk_mdist(can_go, path, i);
        let q = path[i]@;
        if exists|a: int| 0 <= a < s.active_current@.len() && #[trigger] s.active_current@[a]@ == q {
            let a = choose|a: int| 0 <= a < s.active_current@.len() && #[trigger] s.active_current@[a]@ == q;
            assert(s.cost_of(m, s.active_current@[a]@) == s.cost_current);
        } else {
            let a = choose|a: int| 0 <= a < s.active_next@.len() && #[trigger] s.active_next@[a].0@ == q;
            assert(s.cost_of(m, s.active_next@[a].0@) == s.active_next@[a].1);
        }
    }
}

/// `can_go` admits `p` whenever it is called.
pub open spec fn admits<F: Fn(Position) -> bool>(can_go: F, p: Position) -> bool {
    forall|b: bool| can_go.ensures((p,), b) ==> b
}

/// Cells `i` and `i + 1` of `path` are neighbors.
pub open spec fn adjacent(path: Seq<Position>, i: int) -> bool {
    mdist(path[i + 1]@, path[i]@) == 1
}

/// `path` walks from neighbor to neighbor over cells that `can_go` admits.
pub open spec fn admitted_path<F: Fn(Position) -> bool>(can_go: F, path: Seq<Position>) -> bool {
    &&& path.len() >= 1
    &&& forall|i: int| 0 <= i < path.len() ==> admits(can_go, #[trigger] path[i])
    &&& forall|i: int| 0 <= i < path.len() - 1 ==> #[trigger] adjacent(path, i)
}

/// No walk over cells that `can_go` admits leads from `to` to `from`.
pub open spec fn no_admitted_path<F: Fn(Position) -> bool>(can_go: F, to: Position, from: Position) -> bool {
    forall|path: Seq<Position>| #[trigger] admitted_path(can_go, path) && path[0]@ == to@ ==> path.last()@ != from@
}

/// Where every cell with a distance is expanded, a walk over admitted cells that starts at a
/// cell with a distance keeps to cells with a distance.
proof fn lemma_walk_stays<M: PosMap<Option<u16>>, F: Fn(Position) -> bool>(m: M, can_go: F, path: Seq<Position>, i: int)
    requires
        forall|q: (int, int)| #[trigger] dist_at(m, q) is Some ==> expanded(m, can_go, q),
        admitted_path(can_go, path),
        dist_at(m, path[0]@) is Some,
        0 <= i < path.len(),
    ensures
        dist_at(m, path[i]@) is Some,
    decreases i,
{
    if i > 0 {
        lemma_walk_stays(m, can_go, path, i - 1);
        assert(adjacent(path, i - 1));
        assert(expanded(m, can_go, path[i - 1]@));
        assert(mdist(path[i]@, path[i - 1]@) == 1);
        if !(dist_at(m, path[i]@) is Some) {
            assert(can_go.ensures((path[i],), false));
            assert(admits(can_go, path[i]));
        }
    }
}

/// A finished search that found the start unreachable: no admitted walk leads from the target to
/// the start.
proof fn lemma_no_path<M: PosMap<Option<u16>>, F: Fn(Position) -> bool>(m: M, can_go: F, to: Position, from: Position)
    requires
        can_go.ensures((to,), false) || forall|q: (int, int)| #[trigger] dist_at(m, q) is Some ==> expanded(m, can_go, q),
        dist_at(m, to@) is Some,
        dist_at(m, from@) is None,
    ensures
        no_admitted_path(can_go, to, from),
{
    assert forall|path: Seq<Position>| #[trigger] admitted_path(can_go, path) && path[0]@ == to@ implies path.last()@ != from@ by {
        crate::position::lemma_position_view_injective(path[0], to);
        if can_go.ensures((to,), false) {
            assert(admits(can_go, path[0]));
        } else {
            lemma_walk_stays(m, can_go, path, path.len() - 1);
        }
    }
}

/// The task of a navigation state, if it has one.
pub open spec fn task_of(state: State<NavigationTask>) -> Option<NavigationTask> {
    match state {
        State::Running(t) => Some(t),
        State::Success(t) => Some(t),
        State::Impossible(t) => Some(t),
        _ => None,
    }
}

/// A navigation towards a fixed target that can be interrupted and resumed: a search from the
/// target outwards that stores, in `T`, the distance to the target of every cell it reaches,
/// until it reaches the start. The search holds at most `N` cells to expand at each moment.
pub struct Navigation<T: PosMap<Option<u16>>, const N: usize> {
    distances: T,
    state: State<Progress<N>>,
}

impl<T: PosMap<Option<u16>>, const N: usize> Navigation<T, N> {
    /// The stored distances.
    pub closed spec fn distances_of(&self) -> T {
        self.distances
    }

    /// The state, with the task in place of the search.
    pub closed spec fn state_of(&self) -> State<NavigationTask> {
        match self.state {
            State::Ready => State::Ready,
            State::Running(p) => State::Running(p.task),
            State::Success(p) => State::Success(p.task),
            State::Error(e) => State::Error(e),
            State::Impossible(p) => State::Impossible(p.task),
        }
    }

    /// The distance stored at `q`.
    pub open spec fn dist(&self, q: (int, int)) -> Option<int> {
        dist_at(self.distances_of(), q)
    }

    /// The numbers of current and later cells to expand, where there is a search.
    pub closed spec fn active_counts(&self) -> Option<(int, int)> {
        match self.state {
            State::Running(p) => Some((p.active_current@.len() as int, p.active_next@.len() as int)),
            State::Success(p) => Some((p.active_current@.len() as int, p.active_next@.len() as int)),
            State::Impossible(p) => Some((p.active_current@.len() as int, p.active_next@.len() as int)),
            _ => None,
        }
    }

    /// The navigation is consistent: the distances are, and a search agrees with them; while
    /// the search runs, the start has no distance yet, and once it succeeded, it has one.
    pub closed spec fn inv(&self) -> bool {
        &&& self.distances.valid()
        &&& T::blank() is None
        &&& match self.state {
            State::Running(p) => p.wf(self.distances) && dist_at(self.distances, p.task.from@) is None,
            State::Success(p) => p.wf(self.distances) && dist_at(self.distances, p.task.from@) is Some,
            State::Impossible(p) => p.wf(self.distances),
            _ => true,
        }
    }

    /// Moving the start of the search to `new_start` keeps the cells to expand within `N` and
    /// every cost (distance plus Manhattan distance to the start) within a `u16`.
    pub closed spec fn requeue_fits(&self, new_start: (int, int)) -> bool {
        match self.state {
            State::Running(p) => p.queue_fits(self.distances, new_start),
            State::Success(p) => p.queue_fits(self.distances, new_start),
            State::Impossible(p) => p.queue_fits(self.distances, new_start),
            _ => true,
        }
    }

    /// A search that has not expanded any cell yet: every cell with a distance is still to be
    /// expanded.
    pub closed spec fn fresh(&self) -> bool {
        match self.state {
            State::Running(p) => forall|q: (int, int)| #[trigger] dist_at(self.distances, q) is Some ==> p.listed(q),
            _ => false,
        }
    }

    /// Where there is a task, its cells lie where navigation works, the target has distance
    /// zero, and every other cell with a distance has a neighbor with a smaller one.
    pub proof fn lemma_inv(&self)
        requires
            self.inv(),
        ensures
            self.distances_of().valid(),
            T::blank() is None,
            task_of(self.state_of()) matches Some(t) ==> {
                &&& nav_pos(t.from@)
                &&& nav_pos(t.to@)
                &&& descent(self.distances_of(), t.to@)
            },
            self.state_of() is Running ==> self.dist(task_of(self.state_of()).unwrap().from@) is None,
            self.state_of() is Success ==> self.dist(task_of(self.state_of()).unwrap().from@) is Some,
    {
    }

    /// A navigation without a task that stores distances in `distances`.
    pub fn new(distances: T) -> (r: Self)
        requires
            N >= 1,
            distances.valid(),
            T::blank() is None,
        ensures
            r.inv(),
            r.state_of() == State::<NavigationTask>::Ready,
            r.distances_of() == distances,
    {
        Self { distances, state: State::Ready }
    }

    /// Starts a new navigation from `from` to `to`: every stored distance is forgotten but the
    /// target's, which is zero. The navigation has succeeded at once where `from` is `to`, and
    /// fails where the distances have no room even for the target, which a map that accepts a
    /// value anywhere once cleared always has.
    pub fn initialize(&mut self, from: Position, to: Position)
        requires
            old(self).inv(),
            N >= 1,
            nav_pos(from@),
            nav_pos(to@),
        ensures
            final(self).inv(),
            final(self).state_of() == State::<NavigationTask>::Error(OutOfMemory) || final(self).state_of() == (
            if from@ == to@ {
                State::Success(NavigationTask { from, to })
            } else {
                State::Running(NavigationTask { from, to })
            }),
            final(self).state_of() is Error ==> forall|q: (int, int)| #[trigger] final(self).dist(q) is None,
            !(final(self).state_of() is Error) ==> forall|q: (int, int)|
                #[trigger] final(self).dist(q) == if q == to@ {
                    Some(0int)
                } else {
                    None
                },
            final(self).state_of() is Running ==> final(self).fresh(),
            T::accepts_when_clear() ==> !(final(self).state_of() is Error),
    {
        let task = NavigationTask { from, to };
        let mut active_current: Vec<Position> = Vec::new();
        active_current.push(to);
        let progress: Progress<N> = Progress {
            active_current,
            active_next: Vec::new(),
            cost_current: distance_between(from, to),
            task,
        };
        self.distances.clear();
        assert(self.distances.accepts(to@) == T::accepts_when_clear());
        match dist_set(&mut self.distances, to, 0) {
            Ok(()) => {},
            Err(e) => {
                self.state = State::Error(e);
                return;
            },
        }
        proof {
            let m = self.distances;
            assert(descent(m, to@)) by {
                assert forall|q: (int, int)| #[trigger] dist_at(m, q) is Some && q != to@ implies descends(m, q) by {
                    assert(dist_at(m, q) is None);
                }
            }
            assert(progress.active_current@[0] == to);
            assert(mdist(to@, from@) == mdist(from@, to@));
            if from@ != to@ {
                assert(dist_at(m, from@) is None);
            } else {
                crate::position::lemma_position_view_injective(from, to);
            }
        }
        if from == to {
            self.state = State::Success(progress);
        } else {
            self.state = State::Running(progress);
            proof {
                assert forall|q: (int, int)| #[trigger] dist_at(self.distances, q) is Some implies progress.listed(q) by {
                    assert(progress.active_current@[0]@ == to@);
                }
            }
        }
    }

    /// The state, with the task in place of the search.
    pub fn get_state(&self) -> (r: State<NavigationTask>)
        ensures
            r == self.state_of(),
    {
        match &self.state {
            State::Ready => State::Ready,
            State::Running(progress) => State::Running(progress.task),
            State::Success(progress) => State::Success(progress.task),
            State::Error(err) => State::Error(*err),
            State::Impossible(progress) => State::Impossible(progress.task),
        }
    }

    /// Moves the start of the task to `new_start`. The navigation has succeeded where
    /// `new_start` already has a distance, and runs on otherwise; it fails where the cells to
    /// expand run out of room or a cost does not fit its counter. Without a task there is
    /// nothing to move.
    pub fn update_start(&mut self, new_start: Position) -> (r: Result<(), NoTarget>)
        requires
            old(self).inv(),
            nav_pos(new_start@),
        ensures
            final(self).inv(),
            final(self).distances_of() == old(self).distances_of(),
            task_of(old(self).state_of()) is None <==> r is Err,
            r is Err ==> final(self).state_of() == old(self).state_of(),
            task_of(old(self).state_of()) matches Some(t) ==> {
                let moved = NavigationTask { from: new_start, to: t.to };
                ||| final(self).state_of() == State::<NavigationTask>::Error(OutOfMemory)
                ||| final(self).state_of() == (if old(self).dist(new_start@) is Some {
                    State::Success(moved)
                } else {
                    State::Running(moved)
                })
            },
            task_of(old(self).state_of()) matches Some(t) ==> (old(self).requeue_fits(new_start@)
                ==> final(self).state_of() == (if old(self).dist(new_start@) is Some {
                State::Success(NavigationTask { from: new_start, to: t.to })
            } else {
                State::Running(NavigationTask { from: new_start, to: t.to })
            })),
    {
        let mut state = State::Ready;
        core::mem::swap(&mut state, &mut self.state);
        let mut progress = match state {
            State::Running(progress) => progress,
            State::Success(progress) => progress,
            State::Impossible(progress) => progress,
            other => {
                self.state = other;
                return Err(NoTarget);
            },
        };
        match progress.change_start::<T>(new_start, Ghost(self.distances)) {
            Ok(()) => {
                match self.distances.get(new_start) {
                    Some(Some(_)) => {
                        self.state = State::Success(progress);
                    },
                    _ => {
                        self.state = State::Running(progress);
                    },
                }
            },
            Err(err) => {
                self.state = State::Error(err);
            },
        }
        Ok(())
    }

    /// The numbers of current and later cells to expand, where there is a search; for
    /// debugging.
    pub fn n_active(&self) -> (r: Option<(usize, usize)>)
        ensures
            match r {
                Some((a, b)) => self.active_counts() == Some((a as int, b as int)),
                None => self.active_counts() is None,
            },
    {
        match &self.state {
            State::Ready => None,
            State::Running(progress) => Some((progress.active_current.len(), progress.active_next.len())),
            State::Success(progress) => Some((progress.active_current.len(), progress.active_next.len())),
            State::Error(_) => None,
            State::Impossible(progress) => Some((progress.active_current.len(), progress.active_next.len())),
        }
    }

    /// Runs a running navigation until it reaches the start, or finds that it cannot: where
    /// `can_go` refuses the target, or no cell is left to expand. Cells that `can_go` refuses
    /// are not entered, except the start. Fails only where the distances refuse a cell, the
    /// cells to expand would exceed `N`, a cost reaches the limit of its counter, or a cell lies
    /// at the edge of the region where navigation works (`out_of_room`). A navigation started
    /// afresh that succeeds gives the start the length of a shortest walk from the target over
    /// admitted cells (see `law_shortest_walk`). In any other state nothing happens.
    pub fn run<F: Fn(Position) -> bool>(&mut self, can_go: F)
        requires
            old(self).inv(),
            forall|p: Position| #[trigger] can_go.requires((p,)),
        ensures
            final(self).inv(),
            !(old(self).state_of() is Running) ==> *final(self) == *old(self),
            old(self).state_of() matches State::Running(t) ==> {
                ||| final(self).state_of() == State::<NavigationTask>::Error(OutOfMemory)
                ||| final(self).state_of() == State::Success(t)
                ||| final(self).state_of() == State::Impossible(t)
            },
            final(self).state_of() is Success ==> final(self).dist(
                task_of(final(self).state_of()).unwrap().from@,
            ) is Some,
            old(self).fresh() ==> (final(self).state_of() matches State::Impossible(t) ==> no_admitted_path(
                can_go,
                t.to,
                t.from,
            )),
            old(self).state_of() matches State::Running(t) ==> ((forall|b: bool| can_go.ensures((t.to,), b) ==> !b)
                ==> final(self).state_of() == State::Impossible(t)),
            old(self).state_of() matches State::Running(t) ==> ((forall|q: (int, int)|
                #[trigger] old(self).dist(q) is Some ==> q == t.to@) && final(self).state_of() is Success ==> exists|
                path: Seq<Position>,
            |
                #[trigger] answered_path(can_go, path) && path[0]@ == t.to@ && path.last()@ == t.from@ && path.len() - 1
                    <= final(self).dist(t.from@).unwrap()),
            old(self).fresh() ==> (final(self).state_of() matches State::Success(t) ==> paths_at_least(
                can_go,
                t.to,
                t.from,
                final(self).dist(t.from@).unwrap(),
            )),
            old(self).state_of() matches State::Running(t) ==> (final(self).state_of() is Error ==> out_of_room(
                final(self).distances_of(),
                t.from@,
                N as int,
            )),
    {
        if let State::Running(_) = &self.state {
            let mut state = State::Ready;
        core::mem::swap(&mut state, &mut self.state);
            let mut progress = match state {
                State::Running(progress) => progress,
                other => {
                    self.state = other;
                    return;
                },
            };
            let ghost m0 = self.distances;
            proof {
                if old(self).fresh() {
                    Progress::<N>::lemma_fresh_closed(progress, m0, can_go);
                }
                if forall|q: (int, int)| #[trigger] old(self).dist(q) is Some ==> q == progress.task.to@ {
                    assert forall|q: (int, int)| #[trigger] dist_at(m0, q) is Some implies q == progress.task.to@ by {
                        assert(old(self).dist(q) is Some);
                    }
                }
            }
            match progress.run(&mut self.distances, &can_go) {
                Ok(NavigationResult::Impossible) => {
                    proof {
                        if old(self).fresh() {
                            lemma_no_path(self.distances, can_go, progress.task.to, progress.task.from);
                        }
                    }
                    self.state = State::Impossible(progress);
                },
                Ok(NavigationResult::Success) => {
                    self.state = State::Success(progress);
                },
                Err(err) => {
                    self.state = State::Error(err);
                },
            }
        }
    }

    /// The directions from `pos` to neighbors with a smaller distance than that of `pos`; none
    /// where `pos` has no distance.
    pub fn next_step(&self, pos: Position) -> (r: DirectionCombination)
        requires
            self.inv(),
            crate::position::inner_pos(pos@),
        ensures
            forall|d: Direction| #[trigger] r.has(d) <==> (self.dist(pos@) is Some && self.dist(
                step(pos@, d),
            ) is Some && self.dist(step(pos@, d)).unwrap() < self.dist(pos@).unwrap()),
    {
        let mut ret = DirectionCombination { north: false, east: false, south: false, west: false };
        let dist_at_pos = dist_get(&self.distances, pos);
        if let Some(dist_here) = dist_at_pos {
            let neighbors = pos.neighbors();
            let mut k: usize = 0;
            while k < 4
                invariant
                    k <= 4,
                    self.inv(),
                    dist_at(self.distances, pos@) == Some(dist_here as int),
                    neighbors[0].1 == Direction::East,
                    neighbors[1].1 == Direction::West,
                    neighbors[2].1 == Direction::North,
                    neighbors[3].1 == Direction::South,
                    forall|i: int| 0 <= i < 4 ==> (#[trigger] neighbors[i]).0@ == step(pos@, neighbors[i].1),
                    forall|i: int| 0 <= i < k ==> #[trigger] ret.has(neighbors[i].1) == (
                        dist_at(self.distances, neighbors[i].0@) is Some && dist_at(self.distances, neighbors[i].0@).unwrap()
                            < dist_here),
                    forall|i: int| k <= i < 4 ==> !#[trigger] ret.has(neighbors[i].1),
                decreases 4 - k,
            {
                let (neighbor, dir) = neighbors[k];
                if let Some(dist_neighbor) = dist_get(&self.distances, neighbor) {
                    if dist_neighbor < dist_here {
                        ret.set(dir, true);
                    }
                }
                k = k + 1;
            }
            proof {
                assert forall|d: Direction| #[trigger] ret.has(d) <==> (dist_at(self.distances, step(pos@, d)) is Some
                    && dist_at(self.distances, step(pos@, d)).unwrap() < dist_here) by {
                    let i: int = match d {
                        Direction::East => 0,
                        Direction::West => 1,
                        Direction::North => 2,
                        Direction::South => 3,
                    };
                    assert(neighbors[i].1 == d);
                }
            }
        }
        ret
    }

    /// The distance stored at `pos`.
    pub fn get_dist_at(&self, pos: Position) -> (r: Option<u16>)
        requires
            self.inv(),
        ensures
            match r {
                Some(d) => self.dist(pos@) == Some(d as int),
                None => self.dist(pos@) is None,
            },
    {
        dist_get(&self.distances, pos)
    }
}

/// A cell that descends has a neighbor, one step away in some direction, with a smaller
/// distance.
pub proof fn lemma_descends_step<M: PosMap<Option<u16>>>(m: M, pos: (int, int))
    requires
        dist_at(m, pos) is Some,
        descends(m, pos),
    ensures
        exists|d: Direction|
            #![trigger step(pos, d)]
            dist_at(m, step(pos, d)) is Some && dist_at(m, step(pos, d)).unwrap() < dist_at(m, pos).unwrap(),
{
    let p = choose|p: (int, int)|
        mdist(p, pos) == 1 && #[trigger] dist_at(m, p) is Some && dist_at(m, p).unwrap() < dist_at(
            m,
            pos,
        ).unwrap();
    assert(abs(p.0 - pos.0) + abs(p.1 - pos.1) == 1);
    if p.0 > pos.0 {
        assert(step(pos, Direction::East) == p);
    } else if p.0 < pos.0 {
        assert(step(pos, Direction::West) == p);
    } else if p.1 < pos.1 {
        assert(step(pos, Direction::North) == p);
    } else {
        assert(step(pos, Direction::South) == p);
    }
}

} // verus!
