use vstd::prelude::*;

use crate::direction::Direction;
use crate::measure::abs;
use crate::pos::GlobalPos;
use crate::terrain_map::{lemma_cell_index, TerrainMap};
use crate::trivial_nav::{active, along, can_step_on, rect_pos, trivially_navigable, walk};
use crate::true_map::TrueMap;
use crate::vec2::{local_to_global, Vec2};

verus! {

/// One step from `x` towards `target`.
pub open spec fn step_toward(x: int, target: int) -> int {
    if x < target {
        x + 1
    } else if x > target {
        x - 1
    } else {
        x
    }
}

/// From `p`, a bot reaches `dest` by trivial navigation on `map`: `p` is walkable, and either
/// `p` is `dest`, or every walkable neighbor one step closer to `dest` reaches it trivially and
/// at least one such neighbor does.
pub open spec fn triv_to(map: &TerrainMap, dest: (int, int), p: (int, int)) -> bool
    decreases abs(p.0 - dest.0) + abs(p.1 - dest.1),
{
    if !map.walkable(p) {
        false
    } else if p == dest {
        true
    } else if p.0 == dest.0 {
        triv_to(map, dest, (p.0, step_toward(p.1, dest.1)))
    } else if p.1 == dest.1 {
        triv_to(map, dest, (step_toward(p.0, dest.0), p.1))
    } else {
        let pe = (step_toward(p.0, dest.0), p.1);
        let pn = (p.0, step_toward(p.1, dest.1));
        &&& map.walkable(pe) ==> triv_to(map, dest, pe)
        &&& map.walkable(pn) ==> triv_to(map, dest, pn)
        &&& triv_to(map, dest, pe) || triv_to(map, dest, pn)
    }
}

/// The unit vector in direction `d`.
pub open spec fn unit(d: Direction) -> (int, int) {
    local_to_global((1, 0), d)
}

/// The cell `j` steps from `dest` in direction `d`.
pub open spec fn axis_cell(dest: (int, int), d: Direction, j: int) -> (int, int) {
    rect_pos(dest, unit(d), j, j)
}

/// `v` points into one of the four quadrants.
pub open spec fn diagonal(v: (int, int)) -> bool {
    (v.0 == 1 || v.0 == -1) && (v.1 == 1 || v.1 == -1)
}

proof fn lemma_triv_axis(map: &TerrainMap, dest: (int, int), d: Direction, j: int)
    requires
        j >= 1,
    ensures
        triv_to(map, dest, axis_cell(dest, d, j)) == (map.walkable(axis_cell(dest, d, j))
            && triv_to(map, dest, axis_cell(dest, d, j - 1))),
{
    let p = axis_cell(dest, d, j);
    assert(p != dest);
    assert(axis_cell(dest, d, j - 1) == match d {
        Direction::North | Direction::South => (p.0, step_toward(p.1, dest.1)),
        _ => (step_toward(p.0, dest.0), p.1),
    });
}

proof fn lemma_triv_quadrant(map: &TerrainMap, dest: (int, int), v: (int, int), a: int, b: int)
    requires
        diagonal(v),
        a >= 1,
        b >= 1,
    ensures
        ({
            let p = rect_pos(dest, v, a, b);
            let pe = rect_pos(dest, v, a - 1, b);
            let pn = rect_pos(dest, v, a, b - 1);
            triv_to(map, dest, p) == (map.walkable(p) && (map.walkable(pe) ==> triv_to(
                map,
                dest,
                pe,
            )) && (map.walkable(pn) ==> triv_to(map, dest, pn)) && (triv_to(map, dest, pe)
                || triv_to(map, dest, pn)))
        }),
{
    let p = rect_pos(dest, v, a, b);
    assert(p.0 != dest.0 && p.1 != dest.1);
    assert(rect_pos(dest, v, a - 1, b) == (step_toward(p.0, dest.0), p.1));
    assert(rect_pos(dest, v, a, b - 1) == (p.0, step_toward(p.1, dest.1)));
}

/// The cells of a quadrant next to the axes: along the first axis of the quadrant, and along
/// the second.
proof fn lemma_quadrant_edges(dest: (int, int), v: (int, int), ew: Direction, ns: Direction, j: int)
    requires
        diagonal(v),
        unit(ew) == (v.0, 0int),
        unit(ns) == (0int, v.1),
    ensures
        rect_pos(dest, v, j, 0) == axis_cell(dest, ew, j),
        rect_pos(dest, v, 0, j) == axis_cell(dest, ns, j),
{
}

/// Once the cells of a quadrant, its edges included, at Manhattan distance `i` from `dest` are
/// all unreachable by trivial navigation, so are those farther away.
proof fn lemma_no_triv_beyond(map: &TerrainMap, dest: (int, int), v: (int, int), i: int, j: int)
    requires
        diagonal(v),
        0 <= i <= j,
        forall|a: int, b: int|
            a >= 0 && b >= 0 && a + b == i ==> !#[trigger] triv_to(map, dest, rect_pos(dest, v, a, b)),
    ensures
        forall|a: int, b: int|
            a >= 0 && b >= 0 && a + b == j ==> !#[trigger] triv_to(map, dest, rect_pos(dest, v, a, b)),
    decreases j - i,
{
    if j > i {
        lemma_no_triv_beyond(map, dest, v, i, j - 1);
        assert forall|a: int, b: int| a >= 0 && b >= 0 && a + b == j implies !#[trigger] triv_to(
            map,
            dest,
            rect_pos(dest, v, a, b),
        ) by {
            let p = rect_pos(dest, v, a, b);
            if a >= 1 && b >= 1 {
                lemma_triv_quadrant(map, dest, v, a, b);
                assert(!triv_to(map, dest, rect_pos(dest, v, a - 1, b)));
                assert(!triv_to(map, dest, rect_pos(dest, v, a, b - 1)));
            } else if a == 0 {
                assert(p.0 == dest.0 && p != dest);
                assert(rect_pos(dest, v, 0, b - 1) == (p.0, step_toward(p.1, dest.1)));
                assert(!triv_to(map, dest, rect_pos(dest, v, 0, b - 1)));
            } else {
                assert(p.1 == dest.1 && p != dest);
                assert(rect_pos(dest, v, a - 1, 0) == (step_toward(p.0, dest.0), p.1));
                assert(!triv_to(map, dest, rect_pos(dest, v, a - 1, 0)));
            }
        }
    }
}

/// Past a cell that is not walkable, no cell farther along an axis is reachable by trivial
/// navigation.
proof fn lemma_axis_blocked(map: &TerrainMap, dest: (int, int), d: Direction, i: int, j: int)
    requires
        1 <= i <= j,
        !map.walkable(axis_cell(dest, d, i)),
    ensures
        !triv_to(map, dest, axis_cell(dest, d, j)),
    decreases j - i,
{
    lemma_triv_axis(map, dest, d, j);
    if j > i {
        lemma_axis_blocked(map, dest, d, i, j - 1);
    }
}


/// Trivial navigation reaches the destination, so it is walkable.
pub(crate) proof fn lemma_triv_dest_walkable(map: &TerrainMap, dest: (int, int), p: (int, int))
    requires
        triv_to(map, dest, p),
    ensures
        map.walkable(dest),
    decreases abs(p.0 - dest.0) + abs(p.1 - dest.1),
{
    if p != dest {
        if p.0 == dest.0 {
            lemma_triv_dest_walkable(map, dest, (p.0, step_toward(p.1, dest.1)));
        } else if p.1 == dest.1 {
            lemma_triv_dest_walkable(map, dest, (step_toward(p.0, dest.0), p.1));
        } else if triv_to(map, dest, (step_toward(p.0, dest.0), p.1)) {
            lemma_triv_dest_walkable(map, dest, (step_toward(p.0, dest.0), p.1));
        } else {
            lemma_triv_dest_walkable(map, dest, (p.0, step_toward(p.1, dest.1)));
        }
    }
}

/// The quadrant between directions `ew` and `ns`.
pub open spec fn quad_vec(ew: Direction, ns: Direction) -> (int, int) {
    (unit(ew).0, unit(ns).1)
}

/// `start` marks exactly positions from which `dest` is trivially navigable on `map`, each of
/// them listed in `ret`, and `dest` among them.
pub open spec fn marks_ok(map: &TerrainMap, start: &TerrainMap, ret: Seq<GlobalPos>, dest: (int, int)) -> bool {
    &&& start.wf()
    &&& start.width == map.width
    &&& start.height == map.height
    &&& forall|k: int| 0 <= k < ret.len() ==> triv_to(map, dest, #[trigger] ret[k]@)
    &&& forall|p: (int, int)|
        #[trigger] start.walkable(p) ==> triv_to(map, dest, p) && exists|k: int|
            0 <= k < ret.len() && ret[k]@ == p
    &&& start.walkable(dest)
    &&& forall|k: int| 0 <= k < ret.len() ==> start.walkable(#[trigger] ret[k]@)
    &&& forall|i: int, j: int| 0 <= i < j < ret.len() ==> (#[trigger] ret[i])@ != (#[trigger] ret[j])@
    &&& ret.len() >= 1
    &&& ret[0]@ == dest
}

/// Every cell on the axis in direction `d` from which `dest` is trivially navigable is marked.
pub open spec fn axis_done(map: &TerrainMap, start: &TerrainMap, dest: (int, int), d: Direction) -> bool {
    forall|j: int|
        j >= 1 && #[trigger] triv_to(map, dest, axis_cell(dest, d, j)) ==> start.walkable(
            axis_cell(dest, d, j),
        )
}

/// Every cell of the quadrant `v` from which `dest` is trivially navigable is marked.
pub open spec fn quad_done(map: &TerrainMap, start: &TerrainMap, dest: (int, int), v: (int, int)) -> bool {
    forall|a: int, b: int|
        a >= 1 && b >= 1 && #[trigger] triv_to(map, dest, rect_pos(dest, v, a, b)) ==> start.walkable(
            rect_pos(dest, v, a, b),
        )
}

/// Marks `pos`, reachable by trivial navigation, and lists it.
fn mark(
    map: &TerrainMap,
    start: &mut TerrainMap,
    ret: &mut Vec<GlobalPos>,
    pos: GlobalPos,
    Ghost(dest): Ghost<(int, int)>,
)
    requires
        marks_ok(map, old(start), old(ret)@, dest),
        triv_to(map, dest, pos@),
    ensures
        marks_ok(map, final(start), final(ret)@, dest),
        forall|p: (int, int)| #[trigger] final(start).walkable(p) == (old(start).walkable(p) || p == pos@),
{
    let ghost r0 = ret@;
    assert(map.walkable(pos@));
    if start.get(pos) {
        return;
    }
    let _ = start.set(pos, true);
    ret.push(pos);
    proof {
        assert forall|i: int, j: int| 0 <= i < j < ret@.len() implies (#[trigger] ret@[i])@ != (#[trigger] ret@[j])@ by {
            if j == r0.len() {
                assert(old(start).walkable(r0[i]@));
            } else {
                assert(ret@[i] == r0[i] && ret@[j] == r0[j]);
            }
        }
        assert forall|k: int| 0 <= k < ret@.len() implies start.walkable(#[trigger] ret@[k]@) by {
            if k < r0.len() {
                assert(ret@[k] == r0[k]);
                assert(old(start).walkable(r0[k]@));
            }
        }
        assert(ret@[0] == r0[0]);
        assert forall|p: (int, int)| #[trigger] start.walkable(p) implies triv_to(map, dest, p)
            && exists|k: int| 0 <= k < ret@.len() && ret@[k]@ == p by {
            if p == pos@ {
                assert(ret@[r0.len() as int] == pos);
            } else {
                assert(old(start).walkable(p));
                let k = choose|k: int| 0 <= k < r0.len() && r0[k]@ == p;
                assert(ret@[k] == r0[k]);
            }
        }
        assert forall|k: int| 0 <= k < ret@.len() implies triv_to(map, dest, #[trigger] ret@[k]@) by {
            if k < r0.len() {
                assert(ret@[k] == r0[k]);
            }
        }
    }
}

/// Every position that the search looks at, up to the width plus the height of the map away
/// from a position on it, has coordinates that fit an `i16`.
pub open spec fn search_fits(map: &TerrainMap) -> bool {
    &&& 2 * map.width + map.height <= 0x7fff
    &&& map.width + 2 * map.height <= 0x7fff
}

/// Fills the axis in direction `dir` from `destination` as far as it is walkable.
fn fill_axis(
    map: &TerrainMap,
    start: &mut TerrainMap,
    ret: &mut Vec<GlobalPos>,
    destination: GlobalPos,
    dir: Direction,
)
    requires
        map.wf(),
        search_fits(map),
        map.walkable(destination@),
        marks_ok(map, old(start), old(ret)@, destination@),
    ensures
        marks_ok(map, final(start), final(ret)@, destination@),
        axis_done(map, final(start), destination@, dir),
        forall|p: (int, int)| #[trigger] old(start).walkable(p) ==> final(start).walkable(p),
{
    let ghost d = destination@;
    let mut i: i16 = 1;
    loop
        invariant
            map.wf(),
            search_fits(map),
            map.walkable(d),
            d == destination@,
            marks_ok(map, start, ret@, d),
            1 <= i <= map.width + map.height + 1,
            triv_to(map, d, axis_cell(d, dir, i - 1)),
            forall|j: int| 1 <= j < i ==> start.walkable(#[trigger] axis_cell(d, dir, j)),
            forall|p: (int, int)| #[trigger] old(start).walkable(p) ==> start.walkable(p),
        ensures
            marks_ok(map, start, ret@, d),
            axis_done(map, start, d, dir),
            forall|p: (int, int)| #[trigger] old(start).walkable(p) ==> start.walkable(p),
        decreases map.width + map.height + 2 - i,
    {
        let pos = destination + Vec2::new_in_direction(dir, i);
        assert(pos@ == axis_cell(d, dir, i as int));
        if map.get(pos) {
            proof {
                lemma_triv_axis(map, d, dir, i as int);
            }
            let ghost s0 = *start;
            mark(map, start, ret, pos, Ghost(d));
            proof {
                assert forall|j: int| 1 <= j < i + 1 implies start.walkable(
                    #[trigger] axis_cell(d, dir, j),
                ) by {
                    if j < i {
                        assert(s0.walkable(axis_cell(d, dir, j)));
                    }
                }
                assert forall|p: (int, int)| #[trigger] old(start).walkable(p) implies start.walkable(p) by {
                    assert(s0.walkable(p));
                }
            }
            i = i + 1;
        } else {
            proof {
                assert forall|j: int|
                    j >= 1 && #[trigger] triv_to(map, d, axis_cell(d, dir, j)) implies start.walkable(
                    axis_cell(d, dir, j),
                ) by {
                    if j >= i {
                        lemma_axis_blocked(map, d, dir, i as int, j);
                    }
                }
            }
            break;
        }
    }
}


/// Fills the quadrant between directions `dir_ew` and `dir_ns`, diagonal by diagonal with
/// growing Manhattan distance from `destination`, until a diagonal holds no position from which
/// `destination` is trivially navigable.
fn fill_quadrant(
    map: &TerrainMap,
    start: &mut TerrainMap,
    ret: &mut Vec<GlobalPos>,
    destination: GlobalPos,
    dir_ew: Direction,
    dir_ns: Direction,
)
    requires
        map.wf(),
        search_fits(map),
        map.walkable(destination@),
        dir_ew == Direction::East || dir_ew == Direction::West,
        dir_ns == Direction::North || dir_ns == Direction::South,
        marks_ok(map, old(start), old(ret)@, destination@),
        forall|d: Direction| #[trigger] axis_done(map, old(start), destination@, d),
    ensures
        marks_ok(map, final(start), final(ret)@, destination@),
        quad_done(map, final(start), destination@, quad_vec(dir_ew, dir_ns)),
        forall|p: (int, int)| #[trigger] old(start).walkable(p) ==> final(start).walkable(p),
{
    let ghost d = destination@;
    let ghost v = quad_vec(dir_ew, dir_ns);
    let ghost w = map.width as int;
    let ghost h = map.height as int;
    assert(diagonal(v));
    let mut i_manhattan: i16 = 2;
    loop
        invariant
            map.wf(),
            search_fits(map),
            map.walkable(d),
            d == destination@,
            w == map.width,
            h == map.height,
            dir_ew == Direction::East || dir_ew == Direction::West,
            dir_ns == Direction::North || dir_ns == Direction::South,
            v == quad_vec(dir_ew, dir_ns),
            diagonal(v),
            marks_ok(map, start, ret@, d),
            forall|dd: Direction| #[trigger] axis_done(map, start, d, dd),
            2 <= i_manhattan <= w + h + 1,
            forall|a: int, b: int|
                a >= 1 && b >= 1 && a + b < i_manhattan && #[trigger] triv_to(
                    map,
                    d,
                    rect_pos(d, v, a, b),
                ) ==> start.walkable(rect_pos(d, v, a, b)),
            forall|p: (int, int)| #[trigger] old(start).walkable(p) ==> start.walkable(p),
        ensures
            marks_ok(map, start, ret@, d),
            quad_done(map, start, d, v),
            forall|p: (int, int)| #[trigger] old(start).walkable(p) ==> start.walkable(p),
        decreases w + h + 1 - i_manhattan,
    {
        let i = i_manhattan;
        let mut any: bool = false;
        proof {
            lemma_quadrant_edges(d, v, dir_ew, dir_ns, i as int);
            assert(axis_done(map, start, d, dir_ew));
            assert(axis_done(map, start, d, dir_ns));
        }
        any = any || start.get(destination + Vec2::new_in_direction(dir_ew, i_manhattan));
        any = any || start.get(destination + Vec2::new_in_direction(dir_ns, i_manhattan));
        assert(any == (triv_to(map, d, rect_pos(d, v, i as int, 0)) || triv_to(
            map,
            d,
            rect_pos(d, v, 0, i as int),
        )));
        let mut i_ew: i16 = 1;
        while i_ew <= i_manhattan - 1
            invariant
                map.wf(),
                search_fits(map),
                map.walkable(d),
                d == destination@,
                w == map.width,
                h == map.height,
                dir_ew == Direction::East || dir_ew == Direction::West,
                dir_ns == Direction::North || dir_ns == Direction::South,
                v == quad_vec(dir_ew, dir_ns),
                diagonal(v),
                marks_ok(map, start, ret@, d),
                forall|dd: Direction| #[trigger] axis_done(map, start, d, dd),
                i == i_manhattan,
                2 <= i <= w + h + 1,
                1 <= i_ew <= i,
                forall|a: int, b: int|
                    a >= 1 && b >= 1 && a + b < i && #[trigger] triv_to(map, d, rect_pos(d, v, a, b))
                        ==> start.walkable(rect_pos(d, v, a, b)),
                forall|a: int|
                    1 <= a < i_ew && #[trigger] triv_to(map, d, rect_pos(d, v, a, i - a))
                        ==> start.walkable(rect_pos(d, v, a, i - a)),
                any == (triv_to(map, d, rect_pos(d, v, i as int, 0)) || triv_to(
                    map,
                    d,
                    rect_pos(d, v, 0, i as int),
                ) || exists|a: int| 1 <= a < i_ew && #[trigger] triv_to(map, d, rect_pos(d, v, a, i - a))),
                forall|p: (int, int)| #[trigger] old(start).walkable(p) ==> start.walkable(p),
            decreases i - i_ew,
        {
            let i_ns = i_manhattan - i_ew;
            let ghost a = i_ew as int;
            let ghost b = i_ns as int;
            let pos = destination + Vec2::new_in_direction(dir_ew, i_ew) + Vec2::new_in_direction(
                dir_ns,
                i_ns,
            );
            assert(pos@ == rect_pos(d, v, a, b));
            let neighbor_ew = pos - Vec2::new_in_direction(dir_ew, 1);
            let neighbor_ns = pos - Vec2::new_in_direction(dir_ns, 1);
            assert(neighbor_ew@ == rect_pos(d, v, a - 1, b));
            assert(neighbor_ns@ == rect_pos(d, v, a, b - 1));
            proof {
                // the neighbors lie on an edge of the quadrant or on the previous diagonal
                if a - 1 == 0 {
                    lemma_quadrant_edges(d, v, dir_ew, dir_ns, b);
                    assert(axis_done(map, start, d, dir_ns));
                    assert(triv_to(map, d, axis_cell(d, dir_ns, b)) ==> start.walkable(
                        axis_cell(d, dir_ns, b),
                    ));
                } else {
                    assert(triv_to(map, d, rect_pos(d, v, a - 1, b)) ==> start.walkable(
                        rect_pos(d, v, a - 1, b),
                    ));
                }
                if b - 1 == 0 {
                    lemma_quadrant_edges(d, v, dir_ew, dir_ns, a);
                    assert(axis_done(map, start, d, dir_ew));
                    assert(triv_to(map, d, axis_cell(d, dir_ew, a)) ==> start.walkable(
                        axis_cell(d, dir_ew, a),
                    ));
                } else {
                    assert(triv_to(map, d, rect_pos(d, v, a, b - 1)) ==> start.walkable(
                        rect_pos(d, v, a, b - 1),
                    ));
                }
                lemma_triv_quadrant(map, d, v, a, b);
            }
            let walk = map.get(pos);
            let triv_ns = start.get(neighbor_ns);
            let triv_ew = start.get(neighbor_ew);
            let wall_ns = !map.get(neighbor_ns);
            let wall_ew = !map.get(neighbor_ew);
            assert(triv_ns == triv_to(map, d, rect_pos(d, v, a, b - 1)));
            assert(triv_ew == triv_to(map, d, rect_pos(d, v, a - 1, b)));
            let ghost s0 = *start;
            if walk && (triv_ns || wall_ns) && (triv_ew || wall_ew) && (triv_ew || triv_ns) {
                mark(map, start, ret, pos, Ghost(d));
                any = true;
                proof {
                    assert forall|dd: Direction| #[trigger] axis_done(map, start, d, dd) by {
                        assert(axis_done(map, &s0, d, dd));
                        assert forall|j: int|
                            j >= 1 && #[trigger] triv_to(map, d, axis_cell(d, dd, j)) implies start.walkable(
                            axis_cell(d, dd, j),
                        ) by {
                            assert(s0.walkable(axis_cell(d, dd, j)));
                        }
                    }
                    assert forall|aa: int, bb: int|
                        aa >= 1 && bb >= 1 && aa + bb < i && #[trigger] triv_to(
                            map,
                            d,
                            rect_pos(d, v, aa, bb),
                        ) implies start.walkable(rect_pos(d, v, aa, bb)) by {
                        assert(s0.walkable(rect_pos(d, v, aa, bb)));
                    }
                    assert forall|aa: int|
                        1 <= aa < i_ew + 1 && #[trigger] triv_to(map, d, rect_pos(d, v, aa, i - aa))
                            implies start.walkable(rect_pos(d, v, aa, i - aa)) by {
                        if aa < i_ew {
                            assert(s0.walkable(rect_pos(d, v, aa, i - aa)));
                        }
                    }
                    assert forall|p: (int, int)| #[trigger] old(start).walkable(p) implies start.walkable(
                        p,
                    ) by {
                        assert(s0.walkable(p));
                    }
                    assert(triv_to(map, d, rect_pos(d, v, a, i - a)));
                }
            } else {
                proof {
                    assert(!triv_to(map, d, rect_pos(d, v, a, i - a)));
                    assert forall|aa: int|
                        1 <= aa < i_ew + 1 && #[trigger] triv_to(map, d, rect_pos(d, v, aa, i - aa))
                            implies start.walkable(rect_pos(d, v, aa, i - aa)) by {
                        if aa == a {
                            assert(false);
                        }
                    }
                    if exists|aa: int|
                        1 <= aa < i_ew + 1 && #[trigger] triv_to(map, d, rect_pos(d, v, aa, i - aa)) {
                        let aa = choose|aa: int|
                            1 <= aa < i_ew + 1 && #[trigger] triv_to(map, d, rect_pos(d, v, aa, i - aa));
                        assert(aa != a);
                    }
                }
            }
            i_ew = i_ew + 1;
        }
        if !any {
            proof {
                assert forall|aa: int, bb: int|
                    aa >= 0 && bb >= 0 && aa + bb == i implies !#[trigger] triv_to(
                    map,
                    d,
                    rect_pos(d, v, aa, bb),
                ) by {
                    if aa >= 1 && bb >= 1 {
                        assert(bb == i - aa);
                    }
                }
                assert forall|aa: int, bb: int|
                    aa >= 1 && bb >= 1 && #[trigger] triv_to(map, d, rect_pos(d, v, aa, bb))
                        implies start.walkable(rect_pos(d, v, aa, bb)) by {
                    if aa + bb >= i {
                        lemma_no_triv_beyond(map, d, v, i as int, aa + bb);
                    }
                }
            }
            break;
        }
        proof {
            // a position at distance `i` from which the destination is trivially navigable lies
            // on the map, so the distance is bounded by the size of the map
            let (aa, bb) = if triv_to(map, d, rect_pos(d, v, i as int, 0)) {
                (i as int, 0int)
            } else if triv_to(map, d, rect_pos(d, v, 0, i as int)) {
                (0int, i as int)
            } else {
                let aa = choose|aa: int| 1 <= aa < i && #[trigger] triv_to(map, d, rect_pos(d, v, aa, i - aa));
                (aa, i - aa)
            };
            assert(triv_to(map, d, rect_pos(d, v, aa, bb)));
            assert(map.walkable(rect_pos(d, v, aa, bb)));
            assert(aa + bb == i);
            assert(i <= w + h - 2);
            assert forall|a: int, b: int|
                a >= 1 && b >= 1 && a + b < i + 1 && #[trigger] triv_to(map, d, rect_pos(d, v, a, b))
                    implies start.walkable(rect_pos(d, v, a, b)) by {
                if a + b == i {
                    assert(1 <= a < i_ew);
                    assert(b == i - a);
                }
            }
        }
        i_manhattan = i_manhattan + 1;
    }
}


proof fn lemma_done_monotone(map: &TerrainMap, s1: &TerrainMap, s2: &TerrainMap, dest: (int, int))
    requires
        forall|p: (int, int)| #[trigger] s1.walkable(p) ==> s2.walkable(p),
    ensures
        forall|d: Direction| #[trigger] axis_done(map, s1, dest, d) ==> axis_done(map, s2, dest, d),
        forall|v: (int, int)| #[trigger] quad_done(map, s1, dest, v) ==> quad_done(map, s2, dest, v),
{
    assert forall|d: Direction| #[trigger] axis_done(map, s1, dest, d) implies axis_done(
        map,
        s2,
        dest,
        d,
    ) by {
        assert forall|j: int|
            j >= 1 && #[trigger] triv_to(map, dest, axis_cell(dest, d, j)) implies s2.walkable(
            axis_cell(dest, d, j),
        ) by {
            assert(s1.walkable(axis_cell(dest, d, j)));
        }
    }
    assert forall|v: (int, int)| #[trigger] quad_done(map, s1, dest, v) implies quad_done(
        map,
        s2,
        dest,
        v,
    ) by {
        assert forall|a: int, b: int|
            a >= 1 && b >= 1 && #[trigger] triv_to(map, dest, rect_pos(dest, v, a, b))
                implies s2.walkable(rect_pos(dest, v, a, b)) by {
            assert(s1.walkable(rect_pos(dest, v, a, b)));
        }
    }
}

/// The positions from which `destination` is trivially navigable on `map`: no matter where a
/// bot goes, as long as each step goes in a general direction towards `destination` and onto
/// walkable terrain, it reaches `destination`.
pub fn get_trivial_navigables(map: &TerrainMap, destination: GlobalPos) -> (r: Vec<GlobalPos>)
    requires
        map.wf(),
        search_fits(map),
    ensures
        forall|k: int| 0 <= k < r@.len() ==> triv_to(map, destination@, #[trigger] r@[k]@),
        forall|p: (int, int)| #[trigger]
            triv_to(map, destination@, p) ==> exists|k: int| 0 <= k < r@.len() && r@[k]@ == p,
        forall|i: int, j: int| 0 <= i < j < r@.len() ==> (#[trigger] r@[i])@ != (#[trigger] r@[j])@,
        r@.len() == 0 <==> !map.walkable(destination@),
        r@.len() > 0 ==> r@[0] == destination,
{
    let ghost d = destination@;
    assert(map.width * map.height <= 0x4000 * 0x4000) by (nonlinear_arith)
        requires
            map.width <= 0x4000,
            map.height <= 0x4000,
    ;
    let mut start = map.new_like();
    let mut ret: Vec<GlobalPos> = Vec::new();
    if !map.get(destination) {
        proof {
            assert forall|p: (int, int)| #[trigger] triv_to(map, d, p) implies exists|k: int|
                0 <= k < ret@.len() && ret@[k]@ == p by {
                lemma_triv_dest_walkable(map, d, p);
            }
        }
        return ret;
    }
    let ghost s_empty = start;
    let _ = start.set(destination, true);
    ret.push(destination);
    proof {
        assert forall|p: (int, int)| #[trigger] start.walkable(p) implies triv_to(map, d, p)
            && exists|k: int| 0 <= k < ret@.len() && ret@[k]@ == p by {
            if p != d {
                assert(s_empty.walkable(p));
                lemma_cell_index(p.0, p.1, s_empty.width as int, s_empty.height as int);
                assert(!s_empty.tiles@[p.1 * s_empty.width + p.0]);
            }
            assert(ret@[0] == destination);
        }
    }
    let dirs = Direction::all();
    let mut k: usize = 0;
    while k < 4
        invariant
            map.wf(),
            search_fits(map),
            map.walkable(d),
            d == destination@,
            dirs@ == seq![Direction::North, Direction::South, Direction::East, Direction::West],
            k <= 4,
            marks_ok(map, &start, ret@, d),
            forall|m: int| 0 <= m < k ==> #[trigger] axis_done(map, &start, d, dirs@[m]),
        decreases 4 - k,
    {
        let ghost s0 = start;
        fill_axis(map, &mut start, &mut ret, destination, dirs[k]);
        proof {
            lemma_done_monotone(map, &s0, &start, d);
            assert forall|m: int| 0 <= m < k + 1 implies #[trigger] axis_done(map, &start, d, dirs@[m]) by {
                if m < k {
                    assert(axis_done(map, &s0, d, dirs@[m]));
                }
            }
        }
        k = k + 1;
    }
    proof {
        assert forall|dd: Direction| #[trigger] axis_done(map, &start, d, dd) by {
            match dd {
                Direction::North => assert(axis_done(map, &start, d, dirs@[0])),
                Direction::South => assert(axis_done(map, &start, d, dirs@[1])),
                Direction::East => assert(axis_done(map, &start, d, dirs@[2])),
                Direction::West => assert(axis_done(map, &start, d, dirs@[3])),
            }
        }
    }
    let ews = [Direction::East, Direction::West];
    let nss = [Direction::North, Direction::South];
    let mut e: usize = 0;
    while e < 2
        invariant
            map.wf(),
            search_fits(map),
            map.walkable(d),
            d == destination@,
            ews@ == seq![Direction::East, Direction::West],
            nss@ == seq![Direction::North, Direction::South],
            e <= 2,
            marks_ok(map, &start, ret@, d),
            forall|dd: Direction| #[trigger] axis_done(map, &start, d, dd),
            forall|e2: int, n2: int|
                0 <= e2 < e && 0 <= n2 < 2 ==> #[trigger] quad_done(
                    map,
                    &start,
                    d,
                    quad_vec(ews@[e2], nss@[n2]),
                ),
        decreases 2 - e,
    {
        let mut n: usize = 0;
        while n < 2
            invariant
                map.wf(),
                search_fits(map),
                map.walkable(d),
                d == destination@,
                ews@ == seq![Direction::East, Direction::West],
                nss@ == seq![Direction::North, Direction::South],
                e < 2,
                n <= 2,
                marks_ok(map, &start, ret@, d),
                forall|dd: Direction| #[trigger] axis_done(map, &start, d, dd),
                forall|e2: int, n2: int|
                    (0 <= e2 < e && 0 <= n2 < 2) || (e2 == e && 0 <= n2 < n) ==> #[trigger] quad_done(
                        map,
                        &start,
                        d,
                        quad_vec(ews@[e2], nss@[n2]),
                    ),
            decreases 2 - n,
        {
            let ghost s0 = start;
            fill_quadrant(map, &mut start, &mut ret, destination, ews[e], nss[n]);
            proof {
                lemma_done_monotone(map, &s0, &start, d);
                assert forall|dd: Direction| #[trigger] axis_done(map, &start, d, dd) by {
                    assert(axis_done(map, &s0, d, dd));
                }
                assert forall|e2: int, n2: int|
                    (0 <= e2 < e && 0 <= n2 < 2) || (e2 == e && 0 <= n2 < n + 1) implies #[trigger] quad_done(
                        map,
                        &start,
                        d,
                        quad_vec(ews@[e2], nss@[n2]),
                    ) by {
                    if !(e2 == e && n2 == n) {
                        assert(quad_done(map, &s0, d, quad_vec(ews@[e2], nss@[n2])));
                    }
                }
            }
            n = n + 1;
        }
        e = e + 1;
    }
    proof {
        assert forall|p: (int, int)| #[trigger] triv_to(map, d, p) implies exists|k: int|
            0 <= k < ret@.len() && ret@[k]@ == p by {
            if p == d {
            } else if p.0 == d.0 {
                if p.1 < d.1 {
                    assert(axis_cell(d, Direction::North, d.1 - p.1) == p);
                    assert(axis_done(map, &start, d, Direction::North));
                } else {
                    assert(axis_cell(d, Direction::South, p.1 - d.1) == p);
                    assert(axis_done(map, &start, d, Direction::South));
                }
            } else if p.1 == d.1 {
                if p.0 > d.0 {
                    assert(axis_cell(d, Direction::East, p.0 - d.0) == p);
                    assert(axis_done(map, &start, d, Direction::East));
                } else {
                    assert(axis_cell(d, Direction::West, d.0 - p.0) == p);
                    assert(axis_done(map, &start, d, Direction::West));
                }
            } else {
                let e2: int = if p.0 > d.0 { 0 } else { 1 };
                let n2: int = if p.1 < d.1 { 0 } else { 1 };
                let v = quad_vec(ews@[e2], nss@[n2]);
                assert(quad_done(map, &start, d, v));
                assert(rect_pos(d, v, abs(p.0 - d.0), abs(p.1 - d.1)) == p);
            }
            assert(start.walkable(p));
        }
        crate::position::lemma_position_view_injective(ret@[0], destination);
    }
    ret
}

/// Cell (a, b) of the rectangle spanned from `p` towards `dest` reaches `dest` trivially on `m`.
pub open spec fn tcell(m: &TerrainMap, p: (int, int), dest: (int, int), a: int, b: int) -> bool {
    triv_to(m, dest, rect_pos(p, (dest.0 - p.0, dest.1 - p.1), a, b))
}

/// The cells of the rectangle from `p` to `dest`: the far corner is `dest`, and one step towards
/// `dest` along either axis is the next cell.
proof fn lemma_rect_step(p: (int, int), dest: (int, int), a: int, b: int)
    requires
        0 <= a <= abs(dest.0 - p.0),
        0 <= b <= abs(dest.1 - p.1),
    ensures
        ({
            let v = (dest.0 - p.0, dest.1 - p.1);
            let r = rect_pos(p, v, a, b);
            &&& (r.0 == dest.0) <==> a == abs(v.0)
            &&& (r.1 == dest.1) <==> b == abs(v.1)
            &&& a < abs(v.0) ==> step_toward(r.0, dest.0) == rect_pos(p, v, a + 1, b).0 && rect_pos(
                p,
                v,
                a + 1,
                b,
            ).1 == r.1
            &&& b < abs(v.1) ==> step_toward(r.1, dest.1) == rect_pos(p, v, a, b + 1).1 && rect_pos(
                p,
                v,
                a,
                b + 1,
            ).0 == r.0
            &&& rect_pos(p, v, 0, 0) == p
        }),
{
}

/// One step of the recursion of `triv_to` inside the rectangle from `p` to `dest`.
proof fn lemma_tcell_unfold(m: &TerrainMap, p: (int, int), dest: (int, int), a: int, b: int)
    requires
        0 <= a <= abs(dest.0 - p.0),
        0 <= b <= abs(dest.1 - p.1),
    ensures
        ({
            let v = (dest.0 - p.0, dest.1 - p.1);
            let big_a = abs(v.0);
            let big_b = abs(v.1);
            tcell(m, p, dest, a, b) == (m.walkable(rect_pos(p, v, a, b)) && if a == big_a && b == big_b {
                true
            } else if a == big_a {
                tcell(m, p, dest, a, b + 1)
            } else if b == big_b {
                tcell(m, p, dest, a + 1, b)
            } else {
                &&& m.walkable(rect_pos(p, v, a + 1, b)) ==> tcell(m, p, dest, a + 1, b)
                &&& m.walkable(rect_pos(p, v, a, b + 1)) ==> tcell(m, p, dest, a, b + 1)
                &&& tcell(m, p, dest, a + 1, b) || tcell(m, p, dest, a, b + 1)
            })
        }),
{
    lemma_rect_step(p, dest, a, b);
    let v = (dest.0 - p.0, dest.1 - p.1);
    let r = rect_pos(p, v, a, b);
    assert(triv_to(m, dest, r) == tcell(m, p, dest, a, b));
}

/// From a cell that a bot can reach from `p`, on a map where navigation from `p` is trivial,
/// `dest` is reached trivially.
proof fn lemma_tcell_back<M: TrueMap>(m: &TerrainMap, t: &M, p: (int, int), dest: (int, int), a: int, b: int)
    requires
        forall|q: (int, int)| #[trigger] t.walkable(q) == m.walkable(q),
        trivially_navigable(t, p, dest),
        0 <= a <= abs(dest.0 - p.0),
        0 <= b <= abs(dest.1 - p.1),
        active(t, p, (dest.0 - p.0, dest.1 - p.1), a, b),
        m.walkable(rect_pos(p, (dest.0 - p.0, dest.1 - p.1), a, b)),
    ensures
        tcell(m, p, dest, a, b),
    decreases abs(dest.0 - p.0) + abs(dest.1 - p.1) - a - b,
{
    let v = (dest.0 - p.0, dest.1 - p.1);
    let big_a = abs(v.0);
    let big_b = abs(v.1);
    lemma_tcell_unfold(m, p, dest, a, b);
    if !(a == big_a && b == big_b) {
        assert(can_step_on(t, p, v, a, b));
        if a < big_a && m.walkable(rect_pos(p, v, a + 1, b)) {
            assert(t.walkable(rect_pos(p, v, a + 1, b)));
            assert(active(t, p, v, a + 1, b));
            lemma_tcell_back(m, t, p, dest, a + 1, b);
        }
        if b < big_b && m.walkable(rect_pos(p, v, a, b + 1)) {
            assert(t.walkable(rect_pos(p, v, a, b + 1)));
            assert(active(t, p, v, a, b + 1));
            lemma_tcell_back(m, t, p, dest, a, b + 1);
        }
        if a < big_a && t.walkable(rect_pos(p, v, a + 1, b)) {
            assert(m.walkable(rect_pos(p, v, a + 1, b)));
        }
        if b < big_b && t.walkable(rect_pos(p, v, a, b + 1)) {
            assert(m.walkable(rect_pos(p, v, a, b + 1)));
        }
    }
}

/// Where `dest` is reached trivially from `p`, it is from every cell a bot can reach from `p`.
proof fn lemma_tcell_fwd<M: TrueMap>(m: &TerrainMap, t: &M, p: (int, int), dest: (int, int), a: int, b: int)
    requires
        forall|q: (int, int)| #[trigger] t.walkable(q) == m.walkable(q),
        triv_to(m, dest, p),
        0 <= a <= abs(dest.0 - p.0),
        0 <= b <= abs(dest.1 - p.1),
        active(t, p, (dest.0 - p.0, dest.1 - p.1), a, b),
    ensures
        tcell(m, p, dest, a, b),
    decreases a + b,
{
    let v = (dest.0 - p.0, dest.1 - p.1);
    lemma_rect_step(p, dest, a, b);
    if a == 0 && b == 0 {
        assert(tcell(m, p, dest, 0, 0));
    } else {
        assert(active(t, p, v, a, b) == (walk(t, p, v, a, b) && (active(t, p, v, a - 1, b) || active(
            t,
            p,
            v,
            a,
            b - 1,
        ))));
        assert(t.walkable(rect_pos(p, v, a, b)));
        if a >= 1 && active(t, p, v, a - 1, b) {
            lemma_tcell_fwd(m, t, p, dest, a - 1, b);
            lemma_tcell_unfold(m, p, dest, a - 1, b);
        } else {
            assert(b >= 1 && active(t, p, v, a, b - 1));
            lemma_tcell_fwd(m, t, p, dest, a, b - 1);
            lemma_tcell_unfold(m, p, dest, a, b - 1);
        }
    }
}

/// The two ways of deciding trivial navigation agree: on a map `t` of the same terrain as the
/// map `m`, `dest` is trivially navigable from `p` by `get_trivial_navigables`' measure exactly
/// where `p` is walkable and navigation from `p` to `dest` is trivial by
/// `is_navigation_trivial`'s.
pub proof fn law_trivial_predicates_agree<M: TrueMap>(m: &TerrainMap, t: &M, p: (int, int), dest: (int, int))
    requires
        forall|q: (int, int)| #[trigger] t.walkable(q) == m.walkable(q),
    ensures
        triv_to(m, dest, p) <==> (m.walkable(p) && trivially_navigable(t, p, dest)),
{
    let v = (dest.0 - p.0, dest.1 - p.1);
    let big_a = abs(v.0);
    let big_b = abs(v.1);
    lemma_rect_step(p, dest, 0, 0);
    if triv_to(m, dest, p) {
        assert forall|a: int, b: int|
            0 <= a <= big_a && 0 <= b <= big_b && a + b < big_a + big_b && #[trigger] active(t, p, v, a, b)
                implies can_step_on(t, p, v, a, b) by {
            lemma_tcell_fwd(m, t, p, dest, a, b);
            lemma_tcell_unfold(m, p, dest, a, b);
            if a < big_a && tcell(m, p, dest, a + 1, b) {
                lemma_tcell_unfold(m, p, dest, a + 1, b);
                assert(t.walkable(rect_pos(p, v, a + 1, b)));
            } else if b < big_b && tcell(m, p, dest, a, b + 1) {
                lemma_tcell_unfold(m, p, dest, a, b + 1);
                assert(t.walkable(rect_pos(p, v, a, b + 1)));
            }
        }
    }
    if m.walkable(p) && trivially_navigable(t, p, dest) {
        lemma_tcell_back(m, t, p, dest, 0, 0);
    }
}

} // verus!
