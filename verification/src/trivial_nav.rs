use vstd::prelude::*;

use crate::beacon::{Buffer, NavigatorError};
use crate::direction::Direction;
use crate::measure::{abs, min, DistanceManhattan, DistanceMeasure, DistanceMin};
use crate::pos::{nav_pos, GlobalPos};
use crate::true_map::TrueMap;
use crate::vec2::{directions_spec, lemma_directions_spec, local_to_global, Vec2};

verus! {

/// `n` steps along the sign of `x`: `n` if `x` is positive, `-n` if it is negative, else 0.
pub open spec fn along(x: int, n: int) -> int {
    if x > 0 {
        n
    } else if x < 0 {
        -n
    } else {
        0
    }
}

/// The position `a` steps along the east-west part and `b` steps along the north-south part of
/// `v` away from `start`.
pub open spec fn rect_pos(start: (int, int), v: (int, int), a: int, b: int) -> (int, int) {
    (start.0 + along(v.0, a), start.1 + along(v.1, b))
}

/// Whether the cell (a, b) of the rectangle spanned by `v` from `start` is walkable.
pub open spec fn walk<M: TrueMap>(map: &M, start: (int, int), v: (int, int), a: int, b: int) -> bool {
    map.walkable(rect_pos(start, v, a, b))
}

/// Whether a bot that starts at `start` and only ever steps towards `start + v` can reach the
/// cell (a, b) of the rectangle; the start itself always counts as reached.
pub open spec fn active<M: TrueMap>(map: &M, start: (int, int), v: (int, int), a: int, b: int) -> bool
    decreases a + b,
{
    if a < 0 || b < 0 {
        false
    } else if a == 0 && b == 0 {
        true
    } else {
        walk(map, start, v, a, b) && (active(map, start, v, a - 1, b) || active(
            map,
            start,
            v,
            a,
            b - 1,
        ))
    }
}

/// Whether from cell (a, b) a bot can step on towards the far corner of the rectangle.
pub open spec fn can_step_on<M: TrueMap>(map: &M, start: (int, int), v: (int, int), a: int, b: int) -> bool {
    (a < abs(v.0) && walk(map, start, v, a + 1, b)) || (b < abs(v.1) && walk(map, start, v, a, b + 1))
}

/// Trivial navigation from `start` to `dest`: no matter how a bot walks, as long as each step
/// goes in a general direction towards `dest` and onto walkable terrain, it never gets stuck
/// before reaching `dest`.
pub open spec fn trivially_navigable<M: TrueMap>(map: &M, start: (int, int), dest: (int, int)) -> bool {
    let v = (dest.0 - start.0, dest.1 - start.1);
    forall|a: int, b: int|
        0 <= a <= abs(v.0) && 0 <= b <= abs(v.1) && a + b < abs(v.0) + abs(v.1) && #[trigger] active(
            map,
            start,
            v,
            a,
            b,
        ) ==> can_step_on(map, start, v, a, b)
}

/// The east-west steps of cell `k` on diagonal `i` (cells with `a + b == i`), counted from the
/// cell with the most east-west steps.
pub open spec fn cell_a(big_a: int, i: int, k: int) -> int {
    min(i, big_a) - k
}

/// The number of cells of the rectangle `0..=big_a` by `0..=big_b` on diagonal `i`.
pub open spec fn diag_count(big_a: int, big_b: int, i: int) -> int {
    min(min(min(big_a, big_b), i), big_a + big_b - i) + 1
}

/// A cell of the rectangle on diagonal `i` has an index in `0..diag_count`, and that index
/// gives the cell back.
proof fn lemma_diag_index(big_a: int, big_b: int, i: int, x: int)
    requires
        0 <= x <= big_a,
        0 <= i - x <= big_b,
    ensures
        0 <= min(i, big_a) - x < diag_count(big_a, big_b, i),
        cell_a(big_a, i, min(i, big_a) - x) == x,
{
}

/// The cell with index `j` on diagonal `i` lies in the rectangle.
proof fn lemma_diag_cell(big_a: int, big_b: int, i: int, j: int)
    requires
        0 <= i <= big_a + big_b,
        0 <= j < diag_count(big_a, big_b, i),
        big_a >= 0,
        big_b >= 0,
    ensures
        0 <= cell_a(big_a, i, j) <= big_a,
        0 <= i - cell_a(big_a, i, j) <= big_b,
{
}

/// Processing cell `k` of diagonal `i` adds exactly its walkable successors to the cells of
/// diagonal `i + 1` reached so far.
proof fn lemma_next_reached_step<M: TrueMap>(
    map: &M,
    start: (int, int),
    v: (int, int),
    i: int,
    k: int,
    j: int,
)
    requires
        abs(v.0) > 0,
        abs(v.1) > 0,
        0 <= i < abs(v.0) + abs(v.1),
        0 <= k < diag_count(abs(v.0), abs(v.1), i),
        0 <= j < diag_count(abs(v.0), abs(v.1), i + 1),
    ensures
        ({
            let big_a = abs(v.0);
            let big_b = abs(v.1);
            let a = cell_a(big_a, i, k);
            let b = i - a;
            let off = if i >= big_a { 1int } else { 0int };
            next_reached(map, start, v, i, j, k + 1) == (next_reached(map, start, v, i, j, k) || (
            active(map, start, v, a, b) && ((j == k - off && a < big_a && walk(
                map,
                start,
                v,
                a + 1,
                b,
            )) || (j == k + 1 - off && b < big_b && walk(map, start, v, a, b + 1)))))
        }),
{
    let big_a = abs(v.0);
    let big_b = abs(v.1);
    lemma_diag_cell(big_a, big_b, i, k);
    lemma_diag_cell(big_a, big_b, i + 1, j);
}

/// On a line (one side of the rectangle has length zero) a cell is reached exactly when all the
/// cells up to it are walkable.
proof fn lemma_active_line<M: TrueMap>(map: &M, start: (int, int), v: (int, int), a: int, b: int)
    requires
        a >= 0,
        b >= 0,
        a == 0 || b == 0,
        a == 0 ==> forall|j: int| 1 <= j <= b ==> walk(map, start, v, 0, j),
        b == 0 ==> forall|j: int| 1 <= j <= a ==> walk(map, start, v, j, 0),
    ensures
        active(map, start, v, a, b),
    decreases a + b,
{
    if a == 0 && b == 0 {
    } else if a == 0 {
        lemma_active_line(map, start, v, 0, b - 1);
    } else {
        lemma_active_line(map, start, v, a - 1, 0);
    }
}

/// Whether the trivial navigation from `start` to `destination` holds, checked by walking the
/// diagonals of the rectangle between them and tracking which cells a bot can reach. Fails with
/// `OutOfMemory(TrivialNav)` when the rectangle is two-dimensional and its shorter side plus one
/// exceeds `BUFFER_SIZE`. The start is assumed walkable.
#[verifier::rlimit(50)]
pub fn is_navigation_trivial<const BUFFER_SIZE: usize, M: TrueMap>(
    map: &M,
    start: GlobalPos,
    destination: GlobalPos,
) -> (r: Result<bool, NavigatorError>)
    requires
        map.valid(),
        nav_pos(start@),
        nav_pos(destination@),
    ensures
        ({
            let v = (destination@.0 - start@.0, destination@.1 - start@.1);
            &&& r is Err <==> (v.0 != 0 && v.1 != 0 && min(abs(v.0), abs(v.1)) + 1 > BUFFER_SIZE)
            &&& r is Err ==> r == Err::<bool, NavigatorError>(
                NavigatorError::OutOfMemory(Buffer::TrivialNav),
            )
            &&& r matches Ok(b) ==> b == trivially_navigable(map, start@, destination@)
        }),
{
    let ghost s = start@;
    let vector = destination - start;
    let ghost v = vector@;
    let ghost big_a = abs(v.0);
    let ghost big_b = abs(v.1);
    let dirs = vector.directions();
    let dist_man = DistanceManhattan::measure(vector);
    let dist_min = DistanceMin::measure(vector);
    if dirs.len() == 0 {
        // start == destination
        assert(v == (0int, 0int));
        return Ok(true);
    } else if dirs.len() == 1 {
        // straight line
        let dir = dirs[0];
        let end = dist_man as i32;
        proof {
            lemma_directions_spec(v);
        }
        let mut i: i32 = 1;
        while i <= end
            invariant
                1 <= i <= end + 1,
                end == big_a + big_b,
                end <= 32767,
                big_a == 0 || big_b == 0,
                big_a + big_b > 0,
                v == (destination@.0 - start@.0, destination@.1 - start@.1),
                s == start@,
                big_a == abs(v.0),
                big_b == abs(v.1),
                dir == directions_spec(v)[0],
                map.valid(),
                nav_pos(start@),
                nav_pos(destination@),
                big_b == 0 ==> forall|j: int| 1 <= j < i ==> walk(map, s, v, j, 0),
                big_a == 0 ==> forall|j: int| 1 <= j < i ==> walk(map, s, v, 0, j),
            decreases end + 1 - i,
        {
            let step = Vec2::new_in_direction(dir, i as i16);
            let pos = start + step;
            assert(big_b == 0 ==> pos@ == rect_pos(s, v, i as int, 0));
            assert(big_a == 0 ==> pos@ == rect_pos(s, v, 0, i as int));
            if !map.get(pos) {
                proof {
                    if big_b == 0 {
                        lemma_active_line(map, s, v, i - 1, 0);
                        assert(!can_step_on(map, s, v, i - 1, 0));
                    } else {
                        lemma_active_line(map, s, v, 0, i - 1);
                        assert(!can_step_on(map, s, v, 0, i - 1));
                    }
                }
                return Ok(false);
            }
            i = i + 1;
        }
        proof {
            assert forall|a: int, b: int|
                0 <= a <= big_a && 0 <= b <= big_b && a + b < big_a + big_b && #[trigger] active(
                    map,
                    s,
                    v,
                    a,
                    b,
                ) implies can_step_on(map, s, v, a, b) by {
                if big_b == 0 {
                    assert(walk(map, s, v, a + 1, 0));
                } else {
                    assert(walk(map, s, v, 0, b + 1));
                }
            }
        }
        return Ok(true);
    } else {
        assert(v.0 != 0 && v.1 != 0);
        proof {
            lemma_directions_spec(v);
        }
        let dir0 = dirs[0];
        let dir1 = dirs[1];
        let max_dir_0: u16 = vector.in_direction(dir0) as u16;
        let max_dir_1: u16 = dist_man - max_dir_0;
        assert(max_dir_0 == big_a && max_dir_1 == big_b);
        // out of bounds
        if dist_min as usize + 1 > BUFFER_SIZE {
            return Err(NavigatorError::OutOfMemory(Buffer::TrivialNav));
        }
        let mut actives_next: Vec<bool> = Vec::new();
        let mut fill: usize = 0;
        while fill < BUFFER_SIZE
            invariant
                fill <= BUFFER_SIZE,
                actives_next@.len() == fill,
            decreases BUFFER_SIZE - fill,
        {
            actives_next.push(false);
            fill = fill + 1;
        }
        actives_next.set(0, true);
        let mut i_manhattan: u16 = 0;
        while i_manhattan < dist_man
            invariant
                0 <= i_manhattan <= dist_man,
                dist_man == big_a + big_b,
                dist_min == min(big_a, big_b),
                big_a == max_dir_0,
                big_b == max_dir_1,
                big_a > 0,
                big_b > 0,
                dist_min + 1 <= BUFFER_SIZE,
                v == (destination@.0 - start@.0, destination@.1 - start@.1),
                s == start@,
                big_a == abs(v.0),
                big_b == abs(v.1),
                dir0 == (if v.0 > 0 { Direction::East } else { Direction::West }),
                dir1 == (if v.1 > 0 { Direction::South } else { Direction::North }),
                map.valid(),
                nav_pos(start@),
                nav_pos(destination@),
                actives_next@.len() == BUFFER_SIZE,
                forall|k: int|
                    0 <= k < diag_count(big_a, big_b, i_manhattan as int) ==> #[trigger] actives_next@[k]
                        == active(
                        map,
                        s,
                        v,
                        cell_a(big_a, i_manhattan as int, k),
                        i_manhattan - cell_a(big_a, i_manhattan as int, k),
                    ),
                forall|a: int, b: int|
                    0 <= a <= big_a && 0 <= b <= big_b && a + b < i_manhattan && #[trigger] active(
                        map,
                        s,
                        v,
                        a,
                        b,
                    ) ==> can_step_on(map, s, v, a, b),
            decreases dist_man - i_manhattan,
        {
            let i = i_manhattan;
            let ghost gi = i as int;
            let actives = actives_next;
            actives_next = Vec::new();
            let mut fill: usize = 0;
            while fill < BUFFER_SIZE
                invariant
                    fill <= BUFFER_SIZE,
                    actives_next@.len() == fill,
                    forall|j: int| 0 <= j < fill ==> !#[trigger] actives_next@[j],
                decreases BUFFER_SIZE - fill,
            {
                actives_next.push(false);
                fill = fill + 1;
            }
            // number of locations on this diagonal that might be active
            let top: u16 = if i < max_dir_0 {
                i
            } else {
                max_dir_0
            };
            let index_offset: u16 = if i >= max_dir_0 {
                1
            } else {
                0
            };
            let m1 = if dist_min < i {
                dist_min
            } else {
                i
            };
            let n_to_check = (if m1 < dist_man - i {
                m1
            } else {
                dist_man - i
            }) + 1;
            assert(n_to_check == diag_count(big_a, big_b, gi));
            let mut index_to_check: u16 = 0;
            while index_to_check < n_to_check
                invariant
                    0 <= index_to_check <= n_to_check,
                    n_to_check == diag_count(big_a, big_b, gi),
                    gi == i,
                    i < dist_man,
                    top == min(gi, big_a),
                    index_offset == (if gi >= big_a { 1int } else { 0int }),
                    dist_man == big_a + big_b,
                    dist_min == min(big_a, big_b),
                    big_a == max_dir_0,
                    big_b == max_dir_1,
                    big_a > 0,
                    big_b > 0,
                    dist_min + 1 <= BUFFER_SIZE,
                    v == (destination@.0 - start@.0, destination@.1 - start@.1),
                    s == start@,
                    big_a == abs(v.0),
                    big_b == abs(v.1),
                    dir0 == (if v.0 > 0 { Direction::East } else { Direction::West }),
                    dir1 == (if v.1 > 0 { Direction::South } else { Direction::North }),
                    map.valid(),
                    nav_pos(start@),
                    nav_pos(destination@),
                    actives@.len() == BUFFER_SIZE,
                    actives_next@.len() == BUFFER_SIZE,
                    forall|k: int|
                        0 <= k < diag_count(big_a, big_b, gi) ==> #[trigger] actives@[k] == active(
                            map,
                            s,
                            v,
                            cell_a(big_a, gi, k),
                            gi - cell_a(big_a, gi, k),
                        ),
                    forall|a: int, b: int|
                        0 <= a <= big_a && 0 <= b <= big_b && a + b < gi && #[trigger] active(
                            map,
                            s,
                            v,
                            a,
                            b,
                        ) ==> can_step_on(map, s, v, a, b),
                    forall|k: int|
                        0 <= k < index_to_check && #[trigger] actives@[k] ==> can_step_on(
                            map,
                            s,
                            v,
                            cell_a(big_a, gi, k),
                            gi - cell_a(big_a, gi, k),
                        ),
                    forall|j: int|
                        0 <= j < diag_count(big_a, big_b, gi + 1) ==> #[trigger] actives_next@[j]
                            == next_reached(
                            map,
                            s,
                            v,
                            gi,
                            j,
                            index_to_check as int,
                        ),
                decreases n_to_check - index_to_check,
            {
                let k = index_to_check;
                let ghost a = cell_a(big_a, gi, k as int);
                let ghost b = gi - a;
                let ghost before = actives_next@;
                proof {
                    lemma_diag_cell(big_a, big_b, gi, k as int);
                }
                if actives[k as usize] {
                    let i_0 = top - k;
                    let i_1 = i - i_0;
                    assert(i_0 == a && i_1 == b);
                    let mut any = false;
                    if i_0 < max_dir_0 {
                        let j = k - index_offset;
                        let pos = start + Vec2::new_in_direction(dir0, (i_0 + 1) as i16)
                            + Vec2::new_in_direction(dir1, i_1 as i16);
                        assert(pos@ == rect_pos(s, v, a + 1, b));
                        if map.get(pos) {
                            actives_next.set(j as usize, true);
                            any = true;
                        }
                    }
                    if i_1 < max_dir_1 {
                        let j = k + 1 - index_offset;
                        let pos = start + Vec2::new_in_direction(dir0, i_0 as i16)
                            + Vec2::new_in_direction(dir1, (i_1 + 1) as i16);
                        assert(pos@ == rect_pos(s, v, a, b + 1));
                        if map.get(pos) {
                            actives_next.set(j as usize, true);
                            any = true;
                        }
                    }
                    if !any {
                        // we reached a dead end
                        proof {
                            assert(!can_step_on(map, s, v, a, b));
                            assert(active(map, s, v, a, b));
                        }
                        return Ok(false);
                    }
                }
                proof {
                    assert forall|j: int|
                        0 <= j < diag_count(big_a, big_b, gi + 1) implies #[trigger] actives_next@[j]
                            == next_reached(map, s, v, gi, j, k + 1) by {
                        lemma_next_reached_step(map, s, v, gi, k as int, j);
                    }
                }
                index_to_check = index_to_check + 1;
            }
            proof {
                assert forall|j: int|
                    0 <= j < diag_count(big_a, big_b, gi + 1) implies #[trigger] actives_next@[j]
                        == active(
                        map,
                        s,
                        v,
                        cell_a(big_a, gi + 1, j),
                        gi + 1 - cell_a(big_a, gi + 1, j),
                    ) by {
                    let a = cell_a(big_a, gi + 1, j);
                    let b = gi + 1 - a;
                    lemma_diag_cell(big_a, big_b, gi + 1, j);
                    if a >= 1 {
                        lemma_diag_index(big_a, big_b, gi, a - 1);
                    }
                    if b >= 1 {
                        lemma_diag_index(big_a, big_b, gi, a);
                    }
                    assert(!active(map, s, v, a - 1, b) || a >= 1);
                    assert(!active(map, s, v, a, b - 1) || b >= 1);
                    assert(active(map, s, v, a, b) == (walk(map, s, v, a, b) && (active(
                        map,
                        s,
                        v,
                        a - 1,
                        b,
                    ) || active(map, s, v, a, b - 1))));
                    assert(actives_next@[j] == next_reached(
                        map,
                        s,
                        v,
                        gi,
                        j,
                        diag_count(big_a, big_b, gi),
                    ));
                }
                assert forall|a: int, b: int|
                    0 <= a <= big_a && 0 <= b <= big_b && a + b < gi + 1 && #[trigger] active(
                        map,
                        s,
                        v,
                        a,
                        b,
                    ) implies can_step_on(map, s, v, a, b) by {
                    if a + b == gi {
                        let k = min(gi, big_a) - a;
                        lemma_diag_index(big_a, big_b, gi, a);
                        assert(actives@[k]);
                    }
                }
            }
            i_manhattan = i_manhattan + 1;
        }
        Ok(true)
    }
}

/// Whether cell `j` of diagonal `i + 1` is walkable and reached from one of the first `done`
/// cells of diagonal `i`.
pub open spec fn next_reached<M: TrueMap>(
    map: &M,
    start: (int, int),
    v: (int, int),
    i: int,
    j: int,
    done: int,
) -> bool {
    let big_a = abs(v.0);
    let a = cell_a(big_a, i + 1, j);
    let b = i + 1 - a;
    let k2 = min(i, big_a) - a;
    &&& walk(map, start, v, a, b)
    &&& ((a >= 1 && k2 + 1 < done && active(map, start, v, a - 1, b)) || (b >= 1 && k2 < done
        && active(map, start, v, a, b - 1)))
}

/// Two maps that agree on the rectangle spanned by `v` from `start` agree on which of its cells
/// a bot can reach.
proof fn lemma_active_local<M1: TrueMap, M2: TrueMap>(m1: &M1, m2: &M2, start: (int, int), v: (int, int), a: int, b: int)
    requires
        forall|x: int, y: int|
            0 <= x <= abs(v.0) && 0 <= y <= abs(v.1) ==> #[trigger] m1.walkable(rect_pos(start, v, x, y))
                == m2.walkable(rect_pos(start, v, x, y)),
        a <= abs(v.0),
        b <= abs(v.1),
    ensures
        active(m1, start, v, a, b) == active(m2, start, v, a, b),
    decreases a + b,
{
    if a >= 0 && b >= 0 && !(a == 0 && b == 0) {
        lemma_active_local(m1, m2, start, v, a - 1, b);
        lemma_active_local(m1, m2, start, v, a, b - 1);
        assert(m1.walkable(rect_pos(start, v, a, b)) == m2.walkable(rect_pos(start, v, a, b)));
    }
}

/// Whether a navigation is trivial depends only on the terrain of the rectangle spanned by the
/// start and the destination: two maps that agree there agree on it.
pub proof fn law_trivial_nav_local<M1: TrueMap, M2: TrueMap>(m1: &M1, m2: &M2, start: (int, int), dest: (int, int))
    requires
        forall|x: int, y: int|
            0 <= x <= abs(dest.0 - start.0) && 0 <= y <= abs(dest.1 - start.1) ==> #[trigger] m1.walkable(
                rect_pos(start, (dest.0 - start.0, dest.1 - start.1), x, y),
            ) == m2.walkable(rect_pos(start, (dest.0 - start.0, dest.1 - start.1), x, y)),
    ensures
        trivially_navigable(m1, start, dest) == trivially_navigable(m2, start, dest),
{
    let v = (dest.0 - start.0, dest.1 - start.1);
    assert forall|a: int, b: int|
        0 <= a <= abs(v.0) && 0 <= b <= abs(v.1) && a + b < abs(v.0) + abs(v.1) implies #[trigger] active(
        m1,
        start,
        v,
        a,
        b,
    ) == active(m2, start, v, a, b) && can_step_on(m1, start, v, a, b) == can_step_on(m2, start, v, a, b) by {
        lemma_active_local(m1, m2, start, v, a, b);
        if a < abs(v.0) {
            assert(m1.walkable(rect_pos(start, v, a + 1, b)) == m2.walkable(rect_pos(start, v, a + 1, b)));
        }
        if b < abs(v.1) {
            assert(m1.walkable(rect_pos(start, v, a, b + 1)) == m2.walkable(rect_pos(start, v, a, b + 1)));
        }
    }
    if trivially_navigable(m1, start, dest) {
        assert forall|a: int, b: int|
            0 <= a <= abs(v.0) && 0 <= b <= abs(v.1) && a + b < abs(v.0) + abs(v.1) && #[trigger] active(
                m2,
                start,
                v,
                a,
                b,
            ) implies can_step_on(m2, start, v, a, b) by {
            assert(active(m1, start, v, a, b));
        }
    }
    if trivially_navigable(m2, start, dest) {
        assert forall|a: int, b: int|
            0 <= a <= abs(v.0) && 0 <= b <= abs(v.1) && a + b < abs(v.0) + abs(v.1) && #[trigger] active(
                m1,
                start,
                v,
                a,
                b,
            ) implies can_step_on(m1, start, v, a, b) by {
            assert(active(m2, start, v, a, b));
        }
    }
}

} // verus!
