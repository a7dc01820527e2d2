use vstd::prelude::*;
use vstd::set_lib::{lemma_int_range, lemma_len_subset, set_int_range};

use crate::beacon::{dist, Buffer, NavigatorError, ScheduledUpdate, UpdateType};
use crate::clock::{div_ceil_spec, div_ceil_u32};
use crate::navigator::NavigatorResources;
use crate::const_graph::Graph;
use crate::measure::{abs, min, DistanceManhattan, DistanceMeasure};
use crate::pos::{nav_pos, GlobalPos};
use crate::trivial_nav::{is_navigation_trivial, trivially_navigable};
use crate::true_map::TrueMap;

verus! {

/// A node of the search graph: a beacon, or the start or the destination of the navigation.
#[derive(Debug, Eq, PartialEq, Clone, Copy, Hash, Structural)]
pub enum Node {
    Beacon(u16),
    Start,
    Destination,
}

/// An entry of the queue of nodes still to expand.
#[derive(PartialEq, Eq, Debug, Clone, Copy, Structural)]
pub struct NavActiveEntry {
    pub estimated_cost: u16,
    pub past_cost: u16,
    pub node: Node,
}

/// The rank of a node in the order in which ties are broken: beacons by index, then the start,
/// then the destination.
pub open spec fn node_rank(n: Node) -> int {
    match n {
        Node::Beacon(i) => i as int,
        Node::Start => 0x10000,
        Node::Destination => 0x10001,
    }
}

/// Whether entry `a` is expanded before entry `b`: lower estimated cost first, then the larger
/// cost so far (paths that already crossed more distance), then the lower node.
pub open spec fn precedes(a: NavActiveEntry, b: NavActiveEntry) -> bool {
    ||| a.estimated_cost < b.estimated_cost
    ||| a.estimated_cost == b.estimated_cost && a.past_cost > b.past_cost
    ||| a.estimated_cost == b.estimated_cost && a.past_cost == b.past_cost && node_rank(a.node)
        < node_rank(b.node)
}

impl Node {
    fn rank(&self) -> (r: u32)
        ensures
            r == node_rank(*self),
    {
        match self {
            Node::Beacon(i) => *i as u32,
            Node::Start => 0x10000,
            Node::Destination => 0x10001,
        }
    }
}

impl NavActiveEntry {
    /// Whether `self` is expanded before `other`.
    pub fn precedes(&self, other: &Self) -> (r: bool)
        ensures
            r == precedes(*self, *other),
    {
        if self.estimated_cost != other.estimated_cost {
            self.estimated_cost < other.estimated_cost
        } else if self.past_cost != other.past_cost {
            self.past_cost > other.past_cost
        } else {
            self.node.rank() < other.node.rank()
        }
    }
}

/// The index of the entry of `active` that is expanded first.
fn min_index(active: &Vec<NavActiveEntry>) -> (k: usize)
    requires
        active@.len() > 0,
    ensures
        k < active@.len(),
        forall|j: int| 0 <= j < active@.len() ==> !precedes(#[trigger] active@[j], active@[k as int]),
{
    let mut best: usize = 0;
    let mut j: usize = 1;
    while j < active.len()
        invariant
            1 <= j <= active@.len(),
            best < j,
            forall|i: int| 0 <= i < j ==> !precedes(#[trigger] active@[i], active@[best as int]),
        decreases active@.len() - j,
    {
        if active[j].precedes(&active[best]) {
            best = j;
        }
        j = j + 1;
    }
    best
}

/// Whether a buffer of `b` cells suffices to decide trivial navigation along `v`.
pub open spec fn triv_buffer_ok(v: (int, int), b: int) -> bool {
    !(v.0 != 0 && v.1 != 0 && min(abs(v.0), abs(v.1)) + 1 > b)
}

/// The vector from `a` to `b`.
pub open spec fn diff(a: (int, int), b: (int, int)) -> (int, int) {
    (b.0 - a.0, b.1 - a.1)
}

/// Whether all beacons lie where navigation works and can be numbered by `u16`.
pub open spec fn beacons_ok(beacons: Seq<GlobalPos>) -> bool {
    &&& beacons.len() <= 0x10000
    &&& forall|i: int| 0 <= i < beacons.len() ==> nav_pos(#[trigger] beacons[i]@)
}

/// Beacon `i` is an entry of a navigation from `start`: close enough, and trivially navigable
/// from `start`, found with a buffer of `b` cells.
pub open spec fn is_entry<M: TrueMap>(
    map: &M,
    beacons: Seq<GlobalPos>,
    start: (int, int),
    max_dist: int,
    b: int,
    i: int,
) -> bool {
    &&& 0 <= i < beacons.len()
    &&& dist(beacons[i]@, start) <= max_dist
    &&& triv_buffer_ok(diff(start, beacons[i]@), b)
    &&& trivially_navigable(map, start, beacons[i]@)
}

/// Beacon `i` is an exit of a navigation to `dest`: close enough, and `dest` is trivially
/// navigable from it.
pub open spec fn is_exit<M: TrueMap>(
    map: &M,
    beacons: Seq<GlobalPos>,
    dest: (int, int),
    max_dist: int,
    i: int,
) -> bool {
    &&& 0 <= i < beacons.len()
    &&& dist(dest, beacons[i]@) <= max_dist
    &&& trivially_navigable(map, beacons[i]@, dest)
}

/// A buffer of `b` cells does not suffice to check some beacon close to `dest` as an exit.
pub open spec fn exit_buffer_fails(beacons: Seq<GlobalPos>, dest: (int, int), max_dist: int, b: int) -> bool {
    exists|i: int|
        0 <= i < beacons.len() && dist(dest, #[trigger] beacons[i]@) <= max_dist && !triv_buffer_ok(
            diff(beacons[i]@, dest),
            b,
        )
}

/// Step `k` of the reversed beacon route `rr` follows an edge of the graph: `rr[k]` is a
/// successor of `rr[k + 1]`.
pub open spec fn linked<G: Graph>(g: &G, rr: Seq<u16>, k: int) -> bool {
    g.successors(rr[k + 1] as int).contains(rr[k])
}

/// `rr` is a route through the beacon graph in reverse order: it ends (at index 0) in a beacon
/// from which `exits` are reached, and starts (at its last index) in one of the `entries`.
pub open spec fn beacon_route<G: Graph>(g: &G, entries: Set<int>, exits: Set<int>, rr: Seq<u16>) -> bool {
    &&& rr.len() >= 1
    &&& exits.contains(rr[0] as int)
    &&& entries.contains(rr.last() as int)
    &&& forall|k: int| 0 <= k < rr.len() - 1 ==> #[trigger] linked(g, rr, k)
}

/// `p` with `b` pushed, unless `b` is already its last element.
pub open spec fn push_dedup(p: Seq<u16>, b: u16) -> Seq<u16> {
    if p.len() > 0 && p.last() == b {
        p
    } else {
        p.push(b)
    }
}

/// `p` with the elements of `rr` pushed in order, each only where it differs from the last.
pub open spec fn push_route(p: Seq<u16>, rr: Seq<u16>) -> Seq<u16>
    decreases rr.len(),
{
    if rr.len() == 0 {
        p
    } else {
        push_dedup(push_route(p, rr.drop_last()), rr.last())
    }
}

/// The entries of a navigation from `start`.
pub open spec fn entry_set<M: TrueMap>(
    map: &M,
    beacons: Seq<GlobalPos>,
    start: (int, int),
    max_dist: int,
    b: int,
) -> Set<int> {
    Set::new(|i: int| is_entry(map, beacons, start, max_dist, b, i))
}

/// The exits of a navigation to `dest`.
pub open spec fn exit_set<M: TrueMap>(
    map: &M,
    beacons: Seq<GlobalPos>,
    dest: (int, int),
    max_dist: int,
) -> Set<int> {
    Set::new(|i: int| is_exit(map, beacons, dest, max_dist, i))
}

/// The Manhattan length of the steps between the beacons of the reversed route `rr`, from its
/// last element (the entry) to its first (the exit).
pub open spec fn edges_cost(beacons: Seq<GlobalPos>, rr: Seq<u16>) -> int
    decreases rr.len(),
{
    if rr.len() <= 1 {
        0
    } else {
        dist(beacons[rr[0] as int]@, beacons[rr[1] as int]@) + edges_cost(beacons, rr.drop_first())
    }
}

/// The Manhattan length of the way from `start` to the entry of the reversed route `rr` and on
/// through its beacons to its exit.
pub open spec fn walk_cost(beacons: Seq<GlobalPos>, start: (int, int), rr: Seq<u16>) -> int {
    dist(beacons[rr.last() as int]@, start) + edges_cost(beacons, rr)
}

/// The Manhattan length of the way from `start` through the reversed route `rr` to `dest`: the
/// cost by which routes are compared.
pub open spec fn route_cost(beacons: Seq<GlobalPos>, start: (int, int), dest: (int, int), rr: Seq<u16>) -> int {
    walk_cost(beacons, start, rr) + dist(dest, beacons[rr[0] as int]@)
}

/// Bounds on the Manhattan lengths that the search adds up: at most `s` from the start to a
/// beacon, at most `h` from a beacon to the destination, and at most `d` for a step of the
/// beacon graph.
pub open spec fn lengths_within<G: Graph>(
    g: &G,
    beacons: Seq<GlobalPos>,
    start: (int, int),
    dest: (int, int),
    s: int,
    d: int,
    h: int,
) -> bool {
    &&& 0 <= d
    &&& forall|i: int| 0 <= i < beacons.len() ==> dist(#[trigger] beacons[i]@, start) <= s
    &&& forall|i: int| 0 <= i < beacons.len() ==> dist(dest, #[trigger] beacons[i]@) <= h
    &&& forall|i: int, k: int|
        0 <= i < beacons.len() && 0 <= k < g.successors(i).len() ==> dist(
            beacons[#[trigger] g.successors(i)[k] as int]@,
            beacons[i]@,
        ) <= d
}

/// The costs that the search adds up fit a `u16`: the way from the start to a beacon, on through
/// as many steps of the beacon graph as there are beacons, and to the destination.
pub open spec fn costs_fit<G: Graph>(g: &G, beacons: Seq<GlobalPos>, start: (int, int), dest: (int, int)) -> bool {
    exists|s: int, d: int, h: int|
        #[trigger] lengths_within(g, beacons, start, dest, s, d, h) && s + d * beacons.len() + h <= 0xffff
}

/// The number of the first `n` beacons that have a cost.
pub open spec fn n_reached(info: Seq<Option<(u16, Node)>>, n: int) -> int
    decreases n,
{
    if n <= 0 {
        0
    } else {
        n_reached(info, n - 1) + if info[n - 1] is Some {
            1int
        } else {
            0int
        }
    }
}

/// Every cost recorded for the first `n` beacons is at most that of a way from the start over
/// one step fewer than the beacons reached so far.
pub open spec fn cost_bound(info: Seq<Option<(u16, Node)>>, n: int, s: int, d: int) -> bool {
    forall|i: int| 0 <= i < n && (#[trigger] info[i]) is Some ==> cost_of(info[i]) <= s + d * (n_reached(info, n) - 1)
}

proof fn lemma_n_reached_update(info: Seq<Option<(u16, Node)>>, n: int, j: int, v: Option<(u16, Node)>)
    requires
        0 <= j < n <= info.len(),
    ensures
        n_reached(info.update(j, v), n) == n_reached(info, n) - (if info[j] is Some {
            1int
        } else {
            0int
        }) + (if v is Some {
            1int
        } else {
            0int
        }),
    decreases n,
{
    if j < n - 1 {
        lemma_n_reached_update(info, n - 1, j, v);
    } else {
        lemma_n_reached_same(info, info.update(j, v), n - 1);
    }
}

proof fn lemma_n_reached_same(a: Seq<Option<(u16, Node)>>, b: Seq<Option<(u16, Node)>>, n: int)
    requires
        n <= a.len(),
        n <= b.len(),
        forall|i: int| 0 <= i < n ==> a[i] == b[i],
    ensures
        n_reached(a, n) == n_reached(b, n),
    decreases n,
{
    if n > 0 {
        lemma_n_reached_same(a, b, n - 1);
    }
}

proof fn lemma_n_reached_bounds(info: Seq<Option<(u16, Node)>>, n: int, j: int)
    requires
        0 <= n <= info.len(),
    ensures
        0 <= n_reached(info, n) <= n,
        0 <= j < n && info[j] is None ==> n_reached(info, n) <= n - 1,
        0 <= j < n && info[j] is Some ==> n_reached(info, n) >= 1,
    decreases n,
{
    if n > 0 {
        lemma_n_reached_bounds(info, n - 1, j);
    }
}

/// Improving the cost of beacon `j` to `c2`, a step of at most `d` beyond a cost within the bound,
/// keeps the costs within the bound.
proof fn lemma_cost_bound_improve(info: Seq<Option<(u16, Node)>>, n: int, s: int, d: int, j: int, c2: int, v: Option<(u16, Node)>)
    requires
        0 <= j < n <= info.len(),
        0 <= d,
        cost_bound(info, n, s, d),
        v is Some,
        cost_of(v) == c2,
        info[j] is None ==> c2 <= s + d * n_reached(info, n),
        info[j] is Some ==> c2 <= cost_of(info[j]),
    ensures
        cost_bound(info.update(j, v), n, s, d),
{
    let info2 = info.update(j, v);
    lemma_n_reached_update(info, n, j, v);
    let c = n_reached(info, n);
    let c_2 = n_reached(info2, n);
    assert(d * (c - 1) <= d * (c_2 - 1)) by (nonlinear_arith)
        requires
            0 <= d,
            c <= c_2,
    ;
    assert(d * c == d * (c - 1) + d) by (nonlinear_arith);
    assert forall|i: int| 0 <= i < n && (#[trigger] info2[i]) is Some implies cost_of(info2[i]) <= s + d * (
    c_2 - 1) by {
        if i != j {
            assert(info2[i] == info[i]);
        }
    }
}

/// Where the costs are within their bound, one more step from a reached beacon stays within the
/// bound on the number of beacons reached, and that bound within the one for all beacons, or all
/// but the unreached beacon `j`.
proof fn lemma_cost_within(info: Seq<Option<(u16, Node)>>, n: int, s: int, d: int, u: int, j: int)
    requires
        cost_bound(info, n, s, d),
        0 <= u < n <= info.len(),
        info[u] is Some,
        0 <= d,
    ensures
        cost_of(info[u]) + d <= s + d * n_reached(info, n),
        s + d * n_reached(info, n) <= s + d * n,
        0 <= j < n && info[j] is None ==> s + d * n_reached(info, n) + d <= s + d * n,
{
    lemma_n_reached_bounds(info, n, u);
    lemma_n_reached_bounds(info, n, j);
    let c = n_reached(info, n);
    assert(d * c == d * (c - 1) + d) by (nonlinear_arith);
    assert(d * c <= d * n) by (nonlinear_arith)
        requires
            0 <= d,
            c <= n,
    ;
    if 0 <= j < n && info[j] is None {
        assert(d * c + d <= d * n) by (nonlinear_arith)
            requires
                0 <= d,
                c <= n - 1,
        ;
    }
}

/// The Manhattan distance between `a` and `b`.
fn pos_dist(a: GlobalPos, b: GlobalPos) -> (r: u16)
    requires
        nav_pos(a@),
        nav_pos(b@),
    ensures
        r == dist(a@, b@),
{
    DistanceManhattan::measure(a - b)
}

proof fn lemma_push_contains(s: Seq<u16>, v: u16, x: u16)
    ensures
        s.push(v).contains(x) <==> (s.contains(x) || v == x),
{
    if s.contains(x) {
        let k = choose|k: int| 0 <= k < s.len() && s[k] == x;
        assert(s.push(v)[k] == x);
    }
    if v == x {
        assert(s.push(v)[s.len() as int] == x);
    }
    if s.push(v).contains(x) {
        let k = choose|k: int| 0 <= k < s.len() + 1 && s.push(v)[k] == x;
        if k < s.len() {
            assert(s[k] == x);
        }
    }
}

/// The indices of the beacons that are entries of a navigation from `start`.
fn collect_entries<const TRIV_BUFFER: usize, T: TrueMap>(
    map: &T,
    beacons: &[GlobalPos],
    start: GlobalPos,
    max_dist: u16,
) -> (r: Vec<u16>)
    requires
        map.valid(),
        nav_pos(start@),
        beacons_ok(beacons@),
    ensures
        r@.len() <= beacons@.len(),
        forall|a: int, b: int| 0 <= a < b < r@.len() ==> #[trigger] r@[a] < #[trigger] r@[b],
        forall|k: int| 0 <= k < r@.len() ==> (#[trigger] r@[k] as int) < beacons@.len(),
        forall|i: int|
            0 <= i < beacons@.len() ==> (#[trigger] is_entry(
                map,
                beacons@,
                start@,
                max_dist as int,
                TRIV_BUFFER as int,
                i,
            ) <==> r@.contains(i as u16)),
{
    let mut r: Vec<u16> = Vec::new();
    let mut i: usize = 0;
    while i < beacons.len()
        invariant
            i <= beacons@.len(),
            map.valid(),
            nav_pos(start@),
            beacons_ok(beacons@),
            r@.len() <= i,
            forall|a: int, b: int| 0 <= a < b < r@.len() ==> #[trigger] r@[a] < #[trigger] r@[b],
            forall|k: int| 0 <= k < r@.len() ==> (#[trigger] r@[k] as int) < i,
            forall|j: int|
                0 <= j < i ==> (#[trigger] is_entry(
                    map,
                    beacons@,
                    start@,
                    max_dist as int,
                    TRIV_BUFFER as int,
                    j,
                ) <==> r@.contains(j as u16)),
        decreases beacons@.len() - i,
    {
        let pos = beacons[i];
        assert(nav_pos(beacons@[i as int]@));
        let ghost old_r = r@;
        let d = pos_dist(pos, start);
        let mut take = false;
        if d <= max_dist {
            match is_navigation_trivial::<TRIV_BUFFER, T>(map, start, pos) {
                Ok(b) => {
                    take = b;
                },
                Err(_) => {},
            }
        }
        assert(take == is_entry(map, beacons@, start@, max_dist as int, TRIV_BUFFER as int, i as int));
        if take {
            r.push(i as u16);
        }
        proof {
            assert forall|j: int| 0 <= j <= i implies (#[trigger] is_entry(
                map,
                beacons@,
                start@,
                max_dist as int,
                TRIV_BUFFER as int,
                j,
            ) <==> r@.contains(j as u16)) by {
                if take {
                    lemma_push_contains(old_r, i as u16, j as u16);
                }
                if j < i {
                    assert((j as u16) != (i as u16));
                    if old_r.contains(j as u16) {
                        let k = choose|k: int| 0 <= k < old_r.len() && old_r[k] == j as u16;
                        assert(r@[k] == old_r[k]);
                    }
                } else {
                    if !take && old_r.contains(j as u16) {
                        let k = choose|k: int| 0 <= k < old_r.len() && old_r[k] == j as u16;
                        assert((old_r[k] as int) < i);
                    }
                }
            }
        }
        i = i + 1;
    }
    r
}

/// The indices of the beacons that are exits of a navigation to `dest`, or an error where the
/// buffer of `TRIV_BUFFER` cells does not suffice to check one.
fn collect_exits<const TRIV_BUFFER: usize, T: TrueMap>(
    map: &T,
    beacons: &[GlobalPos],
    dest: GlobalPos,
    max_dist: u16,
) -> (r: Result<Vec<u16>, NavigatorError>)
    requires
        map.valid(),
        nav_pos(dest@),
        beacons_ok(beacons@),
    ensures
        r is Err <==> exit_buffer_fails(beacons@, dest@, max_dist as int, TRIV_BUFFER as int),
        r is Err ==> r == Err::<Vec<u16>, NavigatorError>(NavigatorError::OutOfMemory(Buffer::TrivialNav)),
        r matches Ok(v) ==> forall|k: int| 0 <= k < v@.len() ==> (#[trigger] v@[k] as int) < beacons@.len(),
        r matches Ok(v) ==> forall|i: int|
            0 <= i < beacons@.len() ==> (#[trigger] is_exit(map, beacons@, dest@, max_dist as int, i)
                <==> v@.contains(i as u16)),
{
    let mut r: Vec<u16> = Vec::new();
    let mut i: usize = 0;
    while i < beacons.len()
        invariant
            i <= beacons@.len(),
            map.valid(),
            nav_pos(dest@),
            beacons_ok(beacons@),
            forall|k: int| 0 <= k < r@.len() ==> (#[trigger] r@[k] as int) < i,
            forall|j: int|
                0 <= j < i ==> (#[trigger] is_exit(map, beacons@, dest@, max_dist as int, j) <==> r@.contains(
                    j as u16,
                )),
            forall|j: int|
                0 <= j < i ==> !(dist(dest@, #[trigger] beacons@[j]@) <= max_dist && !triv_buffer_ok(
                    diff(beacons@[j]@, dest@),
                    TRIV_BUFFER as int,
                )),
        decreases beacons@.len() - i,
    {
        let pos = beacons[i];
        assert(nav_pos(beacons@[i as int]@));
        let ghost old_r = r@;
        let d = pos_dist(dest, pos);
        let mut take = false;
        if d <= max_dist {
            match is_navigation_trivial::<TRIV_BUFFER, T>(map, pos, dest) {
                Ok(b) => {
                    take = b;
                },
                Err(e) => {
                    assert(exit_buffer_fails(beacons@, dest@, max_dist as int, TRIV_BUFFER as int)) by {
                        assert(dist(dest@, beacons@[i as int]@) <= max_dist);
                    }
                    return Err(e);
                },
            }
        }
        assert(take == is_exit(map, beacons@, dest@, max_dist as int, i as int));
        if take {
            r.push(i as u16);
        }
        proof {
            assert forall|j: int| 0 <= j <= i implies (#[trigger] is_exit(
                map,
                beacons@,
                dest@,
                max_dist as int,
                j,
            ) <==> r@.contains(j as u16)) by {
                if take {
                    lemma_push_contains(old_r, i as u16, j as u16);
                }
                if j < i {
                    assert((j as u16) != (i as u16));
                    if old_r.contains(j as u16) {
                        let k = choose|k: int| 0 <= k < old_r.len() && old_r[k] == j as u16;
                        assert(r@[k] == old_r[k]);
                    }
                } else {
                    if !take && old_r.contains(j as u16) {
                        let k = choose|k: int| 0 <= k < old_r.len() && old_r[k] == j as u16;
                        assert((old_r[k] as int) < i);
                    }
                }
            }
        }
        i = i + 1;
    }
    Ok(r)
}


/// The cost found so far for a node that has one.
pub open spec fn cost_of(o: Option<(u16, Node)>) -> int {
    match o {
        Some((c, _)) => c as int,
        None => 0,
    }
}

/// Node `q` lies below node `i` in the order in which parents precede their children: by the
/// cost found so far, then by the time of the last update.
pub open spec fn below(info: Seq<Option<(u16, Node)>>, stamps: Seq<int>, q: int, i: int) -> bool {
    ||| cost_of(info[q]) < cost_of(info[i])
    ||| cost_of(info[q]) == cost_of(info[i]) && stamps[q] < stamps[i]
}

/// The parent recorded for node `i` is consistent: the start for an entry, otherwise a beacon
/// with a cost that precedes `i`'s and an edge to `i`.
pub open spec fn parent_ok<G: Graph>(
    g: &G,
    entries: Set<int>,
    n: int,
    info: Seq<Option<(u16, Node)>>,
    stamps: Seq<int>,
    i: int,
) -> bool {
    match info[i] {
        None => true,
        Some((_, p)) => match p {
            Node::Start => entries.contains(i),
            Node::Beacon(q) => {
                &&& (q as int) < n
                &&& info[q as int] is Some
                &&& g.successors(q as int).contains(i as u16)
                &&& below(info, stamps, q as int, i)
            },
            Node::Destination => false,
        },
    }
}

/// `active` holds an entry for beacon `i` with cost `c`.
pub open spec fn has_entry(active: Seq<NavActiveEntry>, i: int, c: int) -> bool {
    exists|k: int|
        0 <= k < active.len() && (#[trigger] active[k]).node == Node::Beacon(i as u16)
            && active[k].past_cost as int == c
}

/// The state of the search: costs and parents found so far (`info`), the queue (`active`), the
/// cost and parent found for the destination (`dinfo`), and the nodes expanded so far.
pub open spec fn search_inv<G: Graph>(
    g: &G,
    n: int,
    entries: Set<int>,
    exits: Set<int>,
    info: Seq<Option<(u16, Node)>>,
    active: Seq<NavActiveEntry>,
    dinfo: Option<(u16, Node)>,
    processed: Seq<bool>,
    stamps: Seq<int>,
    t: int,
    except: int,
) -> bool {
    &&& 0 <= n <= info.len()
    &&& n <= 0x10000
    &&& g.valid()
    &&& g.n_nodes() == n
    &&& stamps.len() == info.len()
    &&& processed.len() == info.len()
    &&& forall|i: int| 0 <= i < info.len() ==> 0 <= #[trigger] stamps[i] <= t
    &&& forall|i: int| 0 <= i < n ==> #[trigger] parent_ok(g, entries, n, info, stamps, i)
    &&& forall|i: int| #[trigger] entries.contains(i) ==> 0 <= i < n && info[i] is Some
    &&& forall|i: int| #[trigger] exits.contains(i) ==> 0 <= i < n
    &&& dinfo matches Some((_, p)) ==> (p matches Node::Beacon(q) && exits.contains(q as int)
        && info[q as int] is Some)
    &&& forall|i: int|
        0 <= i < n && i != except && (#[trigger] info[i]) is Some ==> processed[i] || has_entry(
            active,
            i,
            cost_of(info[i]),
        )
    &&& forall|i: int|
        0 <= i < n && #[trigger] processed[i] ==> {
            &&& info[i] is Some
            &&& exits.contains(i) ==> dinfo is Some
            &&& forall|k: int|
                0 <= k < g.successors(i).len() ==> (#[trigger] g.successors(i)[k] as int) < n
                    && info[g.successors(i)[k] as int] is Some
        }
    &&& forall|k: int|
        0 <= k < active.len() ==> match (#[trigger] active[k]).node {
            Node::Beacon(i) => (i as int) < n && info[i as int] is Some,
            Node::Start => false,
            Node::Destination => dinfo is Some,
        }
}

/// The potential of a node's cost: it falls with every improvement.
pub open spec fn pot(o: Option<(u16, Node)>) -> int {
    match o {
        Some((c, _)) => c as int,
        None => 0x10000,
    }
}

/// The sum of the potentials of all nodes.
pub open spec fn sum_pot(s: Seq<Option<(u16, Node)>>) -> int
    decreases s.len(),
{
    if s.len() == 0 {
        0
    } else {
        sum_pot(s.drop_last()) + pot(s.last())
    }
}

/// The weight of a queue entry.
pub open spec fn weight(e: NavActiveEntry) -> int {
    match e.node {
        Node::Destination => 1,
        _ => 2,
    }
}

/// The sum of the weights of the queue's entries.
pub open spec fn wsum(s: Seq<NavActiveEntry>) -> int
    decreases s.len(),
{
    if s.len() == 0 {
        0
    } else {
        wsum(s.drop_last()) + weight(s.last())
    }
}

/// A measure that every step of the search decreases.
pub open spec fn potential(info: Seq<Option<(u16, Node)>>, active: Seq<NavActiveEntry>) -> int {
    3 * sum_pot(info) + wsum(active)
}

proof fn lemma_sum_pot_update(s: Seq<Option<(u16, Node)>>, i: int, v: Option<(u16, Node)>)
    requires
        0 <= i < s.len(),
    ensures
        sum_pot(s.update(i, v)) == sum_pot(s) - pot(s[i]) + pot(v),
    decreases s.len(),
{
    let u = s.update(i, v);
    if i == s.len() - 1 {
        assert(u.drop_last() =~= s.drop_last());
    } else {
        assert(u.drop_last() =~= s.drop_last().update(i, v));
        lemma_sum_pot_update(s.drop_last(), i, v);
    }
}

proof fn lemma_sum_pot_nonneg(s: Seq<Option<(u16, Node)>>)
    ensures
        sum_pot(s) >= 0,
    decreases s.len(),
{
    if s.len() > 0 {
        lemma_sum_pot_nonneg(s.drop_last());
    }
}

proof fn lemma_wsum_nonneg(s: Seq<NavActiveEntry>)
    ensures
        wsum(s) >= 0,
    decreases s.len(),
{
    if s.len() > 0 {
        lemma_wsum_nonneg(s.drop_last());
    }
}

proof fn lemma_wsum_push(s: Seq<NavActiveEntry>, e: NavActiveEntry)
    ensures
        wsum(s.push(e)) == wsum(s) + weight(e),
{
    assert(s.push(e).drop_last() =~= s);
}

proof fn lemma_wsum_remove(s: Seq<NavActiveEntry>, i: int)
    requires
        0 <= i < s.len(),
    ensures
        wsum(s.remove(i)) == wsum(s) - weight(s[i]),
    decreases s.len(),
{
    if i == s.len() - 1 {
        assert(s.remove(i) =~= s.drop_last());
    } else {
        assert(s.remove(i).drop_last() =~= s.drop_last().remove(i));
        assert(s.remove(i).last() == s.last());
        lemma_wsum_remove(s.drop_last(), i);
    }
}

proof fn lemma_has_entry_push(active: Seq<NavActiveEntry>, e: NavActiveEntry, i: int, c: int)
    requires
        has_entry(active, i, c),
    ensures
        has_entry(active.push(e), i, c),
{
    let k = choose|k: int|
        0 <= k < active.len() && (#[trigger] active[k]).node == Node::Beacon(i as u16)
            && active[k].past_cost as int == c;
    assert(active.push(e)[k] == active[k]);
}

proof fn lemma_has_entry_remove(active: Seq<NavActiveEntry>, r: int, i: int, c: int)
    requires
        0 <= r < active.len(),
        has_entry(active, i, c),
        !(active[r].node == Node::Beacon(i as u16) && active[r].past_cost as int == c),
    ensures
        has_entry(active.remove(r), i, c),
{
    let k = choose|k: int|
        0 <= k < active.len() && (#[trigger] active[k]).node == Node::Beacon(i as u16)
            && active[k].past_cost as int == c;
    active.remove_ensures(r);
    if k < r {
        assert(active.remove(r)[k] == active[k]);
    } else {
        assert(k > r);
        assert(active.remove(r)[k - 1] == active[k]);
    }
}

/// Whether `v` holds `x`.
fn contains_u16(v: &Vec<u16>, x: u16) -> (r: bool)
    ensures
        r == v@.contains(x),
{
    let mut i: usize = 0;
    while i < v.len()
        invariant
            i <= v@.len(),
            forall|j: int| 0 <= j < i ==> v@[j] != x,
        decreases v@.len() - i,
    {
        if v[i] == x {
            assert(v@[i as int] == x);
            return true;
        }
        i = i + 1;
    }
    false
}


/// Improving the cost of beacon `j` to `c2` through beacon `u`, and queueing `j` again, keeps
/// the search state consistent and lowers the potential.
proof fn lemma_improve<G: Graph>(
    g: &G,
    n: int,
    entries: Set<int>,
    exits: Set<int>,
    info: Seq<Option<(u16, Node)>>,
    active: Seq<NavActiveEntry>,
    dinfo: Option<(u16, Node)>,
    processed: Seq<bool>,
    stamps: Seq<int>,
    t: int,
    uu: u16,
    jj: u16,
    c2: u16,
    est: u16,
)
    requires
        search_inv(g, n, entries, exits, info, active, dinfo, processed, stamps, t, uu as int),
        (uu as int) < n,
        (jj as int) < n,
        jj != uu,
        info[uu as int] is Some,
        cost_of(info[uu as int]) <= c2,
        g.successors(uu as int).contains(jj),
        info[jj as int] is None || c2 < cost_of(info[jj as int]),
    ensures
        ({
            let info2 = info.update(jj as int, Some((c2, Node::Beacon(uu))));
            let active2 = active.push(
                NavActiveEntry { estimated_cost: est, past_cost: c2, node: Node::Beacon(jj) },
            );
            let stamps2 = stamps.update(jj as int, t + 1);
            &&& search_inv(g, n, entries, exits, info2, active2, dinfo, processed, stamps2, t + 1, uu as int)
            &&& potential(info2, active2) < potential(info, active)
            &&& info2[uu as int] == info[uu as int]
        }),
{
    let u = uu as int;
    let j = jj as int;
    let e = NavActiveEntry { estimated_cost: est, past_cost: c2, node: Node::Beacon(jj) };
    let info2 = info.update(j, Some((c2, Node::Beacon(uu))));
    let active2 = active.push(e);
    let stamps2 = stamps.update(j, t + 1);
    assert forall|i: int| 0 <= i < info2.len() implies 0 <= #[trigger] stamps2[i] <= t + 1 by {
        assert(0 <= stamps[j] <= t);
        if i != j {
            assert(stamps2[i] == stamps[i]);
            assert(0 <= stamps[i] <= t);
        } else {
            assert(stamps2[j] == t + 1);
        }
    }
    assert forall|i: int| 0 <= i < n implies #[trigger] parent_ok(
        g,
        entries,
        n,
        info2,
        stamps2,
        i,
    ) by {
        assert(parent_ok(g, entries, n, info, stamps, i));
        if i == j {
            assert(info2[u] == info[u]);
            assert(stamps2[u] == stamps[u]);
            assert(below(info2, stamps2, u, j));
        } else {
            assert(info2[i] == info[i]);
            assert(stamps2[i] == stamps[i]);
            match info[i] {
                Some((_, p)) => match p {
                    Node::Beacon(q) => {
                        if q as int == j {
                            assert(below(info2, stamps2, q as int, i));
                        } else {
                            assert(info2[q as int] == info[q as int]);
                            assert(stamps2[q as int] == stamps[q as int]);
                        }
                    },
                    _ => {},
                },
                None => {},
            }
        }
    }
    assert forall|i: int| #[trigger] entries.contains(i) implies 0 <= i < n && info2[i] is Some by {
        if i != j {
            assert(info2[i] == info[i]);
        }
    }
    match dinfo {
        Some((_, p)) => match p {
            Node::Beacon(q) => {
                if q as int != j {
                    assert(info2[q as int] == info[q as int]);
                }
            },
            _ => {},
        },
        None => {},
    }
    assert forall|i: int|
        0 <= i < n && i != u && (#[trigger] info2[i]) is Some implies processed[i] || has_entry(
        active2,
        i,
        cost_of(info2[i]),
    ) by {
        if i == j {
            assert(active2[active.len() as int] == e);
        } else {
            assert(info2[i] == info[i]);
            if !processed[i] {
                lemma_has_entry_push(active, e, i, cost_of(info[i]));
            }
        }
    }
    assert forall|i: int| 0 <= i < n && #[trigger] processed[i] implies {
        &&& info2[i] is Some
        &&& exits.contains(i) ==> dinfo is Some
        &&& forall|k: int|
            0 <= k < g.successors(i).len() ==> (#[trigger] g.successors(i)[k] as int) < n
                && info2[g.successors(i)[k] as int] is Some
    } by {
        if i != j {
            assert(info2[i] == info[i]);
        }
        assert forall|k: int| 0 <= k < g.successors(i).len() implies (#[trigger] g.successors(
            i,
        )[k] as int) < n && info2[g.successors(i)[k] as int] is Some by {
            let s = g.successors(i)[k] as int;
            if s != j {
                assert(info2[s] == info[s]);
            }
        }
    }
    assert forall|k: int| 0 <= k < active2.len() implies match (#[trigger] active2[k]).node {
        Node::Beacon(i) => (i as int) < n && info2[i as int] is Some,
        Node::Start => false,
        Node::Destination => dinfo is Some,
    } by {
        if k < active.len() {
            assert(active2[k] == active[k]);
            match active[k].node {
                Node::Beacon(i) => {
                    if i as int != j {
                        assert(info2[i as int] == info[i as int]);
                    }
                },
                _ => {},
            }
        } else {
            assert(active2[k] == e);
        }
    }
    lemma_sum_pot_update(info, j, Some((c2, Node::Beacon(uu))));
    lemma_wsum_push(active, e);
    assert(info2[u] == info[u]);
}

/// Expands beacon `u`, popped from the queue with its current cost `past_cost`: records the
/// destination as reached if `u` is an exit, and improves and queues the beacons reached from `u`.
/// Fails where a cost does not fit a `u16` or the queue is full.
fn expand<const ACTIVE_BUFFER: usize, G: Graph>(
    graph: &G,
    beacons: &[GlobalPos],
    destination: GlobalPos,
    exit_nodes: &Vec<u16>,
    info: &mut Vec<Option<(u16, Node)>>,
    active: &mut Vec<NavActiveEntry>,
    dinfo: &mut Option<(u16, Node)>,
    u: u16,
    past_cost: u16,
    Ghost(entries): Ghost<Set<int>>,
    Ghost(exits): Ghost<Set<int>>,
    Ghost(processed): Ghost<Seq<bool>>,
    Ghost(stamps): Ghost<Seq<int>>,
    Ghost(t): Ghost<int>,
    Ghost(phi0): Ghost<int>,
    Ghost(start): Ghost<(int, int)>,
    Ghost(bounds): Ghost<Option<(int, int, int)>>,
    Ghost(p_once): Ghost<Seq<bool>>,
    Ghost(cap): Ghost<int>,
) -> (r: (Result<(), NavigatorError>, Ghost<Seq<int>>, Ghost<int>))
    requires
        once_inv(graph, beacons@, start, entries, old(info)@, old(active)@, p_once),
        p_once.len() == old(info)@.len(),
        p_once[u as int],
        old(active)@.len() <= cap,
        bounds matches Some((s, d, h)) ==> {
            &&& lengths_within(graph, beacons@, start, destination@, s, d, h)
            &&& s + d * beacons@.len() + h <= 0xffff
            &&& cost_bound(old(info)@, beacons@.len() as int, s, d)
        },
        astar_inv(
            graph,
            beacons@,
            start,
            destination@,
            entries,
            exits,
            old(info)@,
            old(active)@,
            *old(dinfo),
            u as int,
        ),
        search_inv(
            graph,
            beacons@.len() as int,
            entries,
            exits,
            old(info)@,
            old(active)@,
            *old(dinfo),
            processed,
            stamps,
            t,
            u as int,
        ),
        beacons_ok(beacons@),
        nav_pos(destination@),
        (u as int) < beacons@.len(),
        old(info)@[u as int] is Some,
        cost_of(old(info)@[u as int]) == past_cost,
        forall|i: int| 0 <= i < beacons@.len() ==> (#[trigger] exits.contains(i) <==> exit_nodes@.contains(i as u16)),
        potential(old(info)@, old(active)@) + 2 <= phi0,
    ensures
        final(info)@.len() == old(info)@.len(),
        r.0 is Ok ==> search_inv(
            graph,
            beacons@.len() as int,
            entries,
            exits,
            final(info)@,
            final(active)@,
            *final(dinfo),
            processed.update(u as int, true),
            r.1@,
            r.2@,
            -1,
        ),
        r.0 is Ok ==> potential(final(info)@, final(active)@) < phi0,
        r.0 is Ok ==> astar_inv(
            graph,
            beacons@,
            start,
            destination@,
            entries,
            exits,
            final(info)@,
            final(active)@,
            *final(dinfo),
            -1,
        ),
        r.0 is Ok ==> (bounds matches Some((s, d, h)) ==> cost_bound(
            final(info)@,
            beacons@.len() as int,
            s,
            d,
        )),
        r.0 == Err::<(), NavigatorError>(NavigatorError::CostOverflow) ==> bounds is None,
        r.0 is Ok ==> once_inv(graph, beacons@, start, entries, final(info)@, final(active)@, p_once),
        r.0 is Ok ==> final(active)@.len() <= cap + graph.successors(u as int).len() + 1,
        r.0 == Err::<(), NavigatorError>(NavigatorError::OutOfMemory(Buffer::Active)) ==> ACTIVE_BUFFER <= cap
            + graph.successors(u as int).len(),
        r.0 is Err ==> r.0 == Err::<(), NavigatorError>(NavigatorError::OutOfMemory(Buffer::Active))
            || r.0 == Err::<(), NavigatorError>(NavigatorError::CostOverflow),
{
    let ghost n = beacons@.len() as int;
    let ghost ui = u as int;
    let pos = beacons[u as usize];
    assert(nav_pos(beacons@[ui]@));
    proof {
        lemma_sum_pot_nonneg(info@);
        lemma_wsum_nonneg(active@);
    }
    // the destination is a neighbor of the exits
    if contains_u16(exit_nodes, u) {
        assert(exits.contains(ui));
        let total = match past_cost.checked_add(pos_dist(destination, pos)) {
            Some(x) => x,
            None => {
                proof {
                    if let Some((s, d, h)) = bounds {
                        lemma_cost_within(info@, n, s, d, ui, ui);
                    }
                }
                return (Err(NavigatorError::CostOverflow), Ghost(stamps), Ghost(t));
            },
        };
        let improve = match *dinfo {
            Some((total_old, _)) => total < total_old,
            None => true,
        };
        let ghost dinfo_before = *dinfo;
        if improve {
            *dinfo = Some((total, Node::Beacon(u)));
        }
        if active.len() >= ACTIVE_BUFFER {
            return (Err(NavigatorError::OutOfMemory(Buffer::Active)), Ghost(stamps), Ghost(t));
        }
        let ghost active_before = active@;
        let e = NavActiveEntry { estimated_cost: total, past_cost: total, node: Node::Destination };
        active.push(e);
        proof {
            lemma_dest_astar(
                graph,
                beacons@,
                start,
                destination@,
                entries,
                exits,
                info@,
                active_before,
                dinfo_before,
                *dinfo,
                e,
                ui,
            );
            lemma_once_push_dest(graph, beacons@, start, entries, info@, active_before, p_once, e);
            lemma_wsum_push(active_before, e);
            assert forall|i: int|
                0 <= i < n && i != ui && (#[trigger] info@[i]) is Some implies processed[i]
                || has_entry(active@, i, cost_of(info@[i])) by {
                if !processed[i] {
                    lemma_has_entry_push(active_before, e, i, cost_of(info@[i]));
                }
            }
            assert forall|k: int| 0 <= k < active@.len() implies match (#[trigger] active@[k]).node {
                Node::Beacon(i) => (i as int) < n && info@[i as int] is Some,
                Node::Start => false,
                Node::Destination => (*dinfo) is Some,
            } by {
                if k < active_before.len() {
                    assert(active@[k] == active_before[k]);
                }
            }
        }
    }
    assert(exits.contains(ui) ==> (*dinfo) is Some);
    let neighbors = graph.after(u);
    let ghost mut st = stamps;
    let ghost mut tt = t;
    let mut k: usize = 0;
    while k < neighbors.len()
        invariant
            search_inv(graph, n, entries, exits, info@, active@, *dinfo, processed, st, tt, ui),
            info@.len() == old(info)@.len(),
            n == beacons@.len(),
            beacons_ok(beacons@),
            nav_pos(destination@),
            0 <= ui < n,
            ui == u as int,
            pos == beacons@[ui],
            info@[ui] is Some,
            cost_of(info@[ui]) == past_cost,
            exits.contains(ui) ==> (*dinfo) is Some,
            neighbors@ == graph.successors(ui),
            forall|m: int| 0 <= m < neighbors@.len() ==> (#[trigger] neighbors@[m] as int) < n,
            k <= neighbors@.len(),
            forall|m: int| 0 <= m < k ==> info@[(#[trigger] neighbors@[m]) as int] is Some,
            potential(info@, active@) + 1 <= phi0,
            astar_inv(graph, beacons@, start, destination@, entries, exits, info@, active@, *dinfo, ui),
            forall|m: int|
                0 <= m < k ==> cost_of(info@[(#[trigger] neighbors@[m]) as int]) <= past_cost + dist(
                    beacons@[neighbors@[m] as int]@,
                    pos@,
                ),
            exits.contains(ui) ==> cost_of(*dinfo) <= past_cost + dist(destination@, pos@),
            bounds matches Some((s, d, h)) ==> {
                &&& lengths_within(graph, beacons@, start, destination@, s, d, h)
                &&& s + d * n + h <= 0xffff
                &&& cost_bound(info@, n, s, d)
            },
            once_inv(graph, beacons@, start, entries, info@, active@, p_once),
            p_once.len() == info@.len(),
            p_once[ui],
            active@.len() <= cap + 1 + k,
        decreases neighbors@.len() - k,
    {
        let j = neighbors[k];
        let ghost info_loop = info@;
        let ghost ji = j as int;
        let pos_neighbor = beacons[j as usize];
        assert(nav_pos(beacons@[ji]@));
        proof {
            if let Some((s, d, h)) = bounds {
                lemma_cost_within(info@, n, s, d, ui, ji);
                assert(graph.successors(ui)[k as int] == j);
                assert(dist(beacons@[ji]@, pos@) <= d);
            }
        }
        let c2 = match past_cost.checked_add(pos_dist(pos_neighbor, pos)) {
            Some(x) => x,
            None => {
                return (Err(NavigatorError::CostOverflow), Ghost(st), Ghost(tt));
            },
        };
        let improve = match info[j as usize] {
            Some((c_old, _)) => c2 < c_old,
            None => true,
        };
        if improve {
            assert(ji != ui);
            let est = match c2.checked_add(pos_dist(destination, pos_neighbor)) {
                Some(x) => x,
                None => {
                    proof {
                        if let Some((s, d, h)) = bounds {
                            lemma_n_reached_bounds(info@, n, ji);
                        }
                    }
                    return (Err(NavigatorError::CostOverflow), Ghost(st), Ghost(tt));
                },
            };
            if active.len() >= ACTIVE_BUFFER {
                return (Err(NavigatorError::OutOfMemory(Buffer::Active)), Ghost(st), Ghost(tt));
            }
            proof {
                assert(graph.successors(ui)[k as int] == j);
                assert(graph.successors(ui).contains(j));
                lemma_improve(
                    graph,
                    n,
                    entries,
                    exits,
                    info@,
                    active@,
                    *dinfo,
                    processed,
                    st,
                    tt,
                    u,
                    j,
                    c2,
                    est,
                );
                lemma_improve_astar(
                    graph,
                    beacons@,
                    start,
                    destination@,
                    entries,
                    exits,
                    info@,
                    active@,
                    *dinfo,
                    processed,
                    st,
                    tt,
                    u,
                    j,
                    c2,
                    est,
                );
                lemma_improve_once(
                    graph,
                    beacons@,
                    start,
                    entries,
                    exits,
                    info@,
                    active@,
                    *dinfo,
                    processed,
                    st,
                    tt,
                    p_once,
                    u,
                    j,
                    c2,
                    est,
                );
            }
            let ghost info_before = info@;
            proof {
                if let Some((s, d, h)) = bounds {
                    lemma_cost_bound_improve(info@, n, s, d, ji, c2 as int, Some((c2, Node::Beacon(u))));
                }
            }
            info.set(j as usize, Some((c2, Node::Beacon(u))));
            active.push(NavActiveEntry { estimated_cost: est, past_cost: c2, node: Node::Beacon(j) });
            proof {
                assert(info@ == info_before.update(ji, Some((c2, Node::Beacon(u)))));
                st = st.update(ji, tt + 1);
                tt = tt + 1;
            }
        }
        proof {
            assert forall|m: int| 0 <= m < k + 1 implies cost_of(
                info@[(#[trigger] neighbors@[m]) as int],
            ) <= past_cost + dist(beacons@[neighbors@[m] as int]@, pos@) by {
                if m < k {
                    assert(neighbors@[m] as int != ji ==> info@[neighbors@[m] as int] == info_loop[neighbors@[m] as int]);
                }
            }
        }
        k = k + 1;
    }
    proof {
        assert(closed(graph, beacons@, destination@, exits, info@, *dinfo, ui)) by {
            assert forall|m: int| 0 <= m < graph.successors(ui).len() implies {
                &&& 0 <= (#[trigger] graph.successors(ui)[m] as int) < beacons@.len()
                &&& info@[graph.successors(ui)[m] as int] is Some
                &&& cost_of(info@[graph.successors(ui)[m] as int]) <= cost_of(info@[ui]) + dist(
                    beacons@[graph.successors(ui)[m] as int]@,
                    beacons@[ui]@,
                )
            } by {
                assert(neighbors@[m] == graph.successors(ui)[m]);
            }
        }
        let p2 = processed.update(ui, true);
        assert forall|i: int|
            0 <= i < n && (#[trigger] info@[i]) is Some implies p2[i] || has_entry(
            active@,
            i,
            cost_of(info@[i]),
        ) by {
            if i != ui {
                assert(p2[i] == processed[i]);
            }
        }
        assert forall|i: int| 0 <= i < n && #[trigger] p2[i] implies {
            &&& info@[i] is Some
            &&& exits.contains(i) ==> (*dinfo) is Some
            &&& forall|m: int|
                0 <= m < graph.successors(i).len() ==> (#[trigger] graph.successors(i)[m] as int) < n
                    && info@[graph.successors(i)[m] as int] is Some
        } by {
            if i != ui {
                assert(p2[i] == processed[i]);
            } else {
                assert forall|m: int| 0 <= m < graph.successors(i).len() implies (
                #[trigger] graph.successors(i)[m] as int) < n && info@[graph.successors(i)[m] as int] is Some by {
                    assert(neighbors@[m] == graph.successors(i)[m]);
                }
            }
        }
    }
    (Ok(()), Ghost(st), Ghost(tt))
}


/// The parent structure of a finished search: every recorded parent is consistent, and the
/// destination, if reached, has an exit as parent.
pub open spec fn parents_inv<G: Graph>(
    g: &G,
    n: int,
    entries: Set<int>,
    exits: Set<int>,
    info: Seq<Option<(u16, Node)>>,
    stamps: Seq<int>,
    dinfo: Option<(u16, Node)>,
) -> bool {
    &&& 0 <= n <= info.len()
    &&& g.n_nodes() == n
    &&& stamps.len() == info.len()
    &&& forall|i: int| 0 <= i < info.len() ==> 0 <= #[trigger] stamps[i]
    &&& forall|i: int| 0 <= i < n ==> #[trigger] parent_ok(g, entries, n, info, stamps, i)
    &&& forall|i: int| #[trigger] entries.contains(i) ==> 0 <= i < n
    &&& forall|i: int| #[trigger] exits.contains(i) ==> 0 <= i < n
    &&& dinfo matches Some((_, p)) ==> (p matches Node::Beacon(q) && exits.contains(q as int)
        && info[q as int] is Some)
}

/// Removing entry `r` from the queue keeps the search state consistent, except for the node
/// whose current entry it was.
proof fn lemma_remove_entry<G: Graph>(
    g: &G,
    n: int,
    entries: Set<int>,
    exits: Set<int>,
    info: Seq<Option<(u16, Node)>>,
    active: Seq<NavActiveEntry>,
    dinfo: Option<(u16, Node)>,
    processed: Seq<bool>,
    stamps: Seq<int>,
    t: int,
    r: int,
    except: int,
)
    requires
        search_inv(g, n, entries, exits, info, active, dinfo, processed, stamps, t, -1),
        0 <= r < active.len(),
        except == -1 ==> !(active[r].node matches Node::Beacon(u) && cost_of(info[u as int])
            == active[r].past_cost),
        except != -1 ==> active[r].node == Node::Beacon(except as u16) && 0 <= except < n,
    ensures
        search_inv(g, n, entries, exits, info, active.remove(r), dinfo, processed, stamps, t, except),
{
    let a2 = active.remove(r);
    active.remove_ensures(r);
    assert forall|i: int|
        0 <= i < n && i != except && (#[trigger] info[i]) is Some implies processed[i] || has_entry(
        a2,
        i,
        cost_of(info[i]),
    ) by {
        if !processed[i] {
            if except != -1 {
                assert(((i as u16) as int) == i);
                assert(((except as u16) as int) == except);
                assert(Node::Beacon(i as u16) != Node::Beacon(except as u16));
            } else {
                assert(((i as u16) as int) == i);
            }
            lemma_has_entry_remove(active, r, i, cost_of(info[i]));
        }
    }
    assert forall|k: int| 0 <= k < a2.len() implies match (#[trigger] a2[k]).node {
        Node::Beacon(i) => (i as int) < n && info[i as int] is Some,
        Node::Start => false,
        Node::Destination => dinfo is Some,
    } by {
        if k < r {
            assert(a2[k] == active[k]);
        } else {
            assert(a2[k] == active[k + 1]);
        }
    }
}

/// With the queue empty, every beacon of a route through the beacon graph has been reached
/// and expanded.
proof fn lemma_route_reached<G: Graph>(
    g: &G,
    n: int,
    entries: Set<int>,
    exits: Set<int>,
    info: Seq<Option<(u16, Node)>>,
    active: Seq<NavActiveEntry>,
    dinfo: Option<(u16, Node)>,
    processed: Seq<bool>,
    stamps: Seq<int>,
    t: int,
    rr: Seq<u16>,
    k: int,
)
    requires
        search_inv(g, n, entries, exits, info, active, dinfo, processed, stamps, t, -1),
        active.len() == 0,
        beacon_route(g, entries, exits, rr),
        0 <= k < rr.len(),
    ensures
        0 <= rr[k] < n,
        info[rr[k] as int] is Some,
        processed[rr[k] as int],
    decreases rr.len() - k,
{
    let i = rr[k] as int;
    if k == rr.len() - 1 {
        assert(entries.contains(i));
    } else {
        lemma_route_reached(g, n, entries, exits, info, active, dinfo, processed, stamps, t, rr, k + 1);
        let q = rr[k + 1] as int;
        assert(linked(g, rr, k));
        assert(processed[q]);
        let m = choose|m: int| 0 <= m < g.successors(q).len() && g.successors(q)[m] == rr[k];
        assert(g.successors(q)[m] == rr[k]);
    }
    assert(info[i] is Some);
    assert(!has_entry(active, i, cost_of(info[i])));
}

/// Beacon `i` has been expanded at its current cost: each beacon reached from it costs no more
/// than the way through `i`, and where `i` is an exit, so does the destination.
pub open spec fn closed<G: Graph>(
    g: &G,
    beacons: Seq<GlobalPos>,
    dest: (int, int),
    exits: Set<int>,
    info: Seq<Option<(u16, Node)>>,
    dinfo: Option<(u16, Node)>,
    i: int,
) -> bool {
    &&& info[i] is Some
    &&& forall|k: int|
        0 <= k < g.successors(i).len() ==> {
            &&& 0 <= (#[trigger] g.successors(i)[k] as int) < beacons.len()
            &&& info[g.successors(i)[k] as int] is Some
            &&& cost_of(info[g.successors(i)[k] as int]) <= cost_of(info[i]) + dist(
                beacons[g.successors(i)[k] as int]@,
                beacons[i]@,
            )
        }
    &&& exits.contains(i) ==> dinfo is Some && cost_of(dinfo) <= cost_of(info[i]) + dist(
        dest,
        beacons[i]@,
    )
}

/// A queue entry carries its key: for a beacon the cost so far plus the Manhattan distance to
/// the destination, for the destination its cost, which is no less than the best one found.
pub open spec fn entry_ok(
    beacons: Seq<GlobalPos>,
    dest: (int, int),
    dinfo: Option<(u16, Node)>,
    e: NavActiveEntry,
) -> bool {
    match e.node {
        Node::Beacon(v) => e.estimated_cost == e.past_cost + dist(dest, beacons[v as int]@),
        Node::Destination => e.estimated_cost == e.past_cost && dinfo is Some && cost_of(dinfo)
            <= e.past_cost,
        Node::Start => true,
    }
}

/// The cost recorded for beacon `i` is no less than the way through its parent.
pub open spec fn parent_cost_ok(
    beacons: Seq<GlobalPos>,
    start: (int, int),
    info: Seq<Option<(u16, Node)>>,
    i: int,
) -> bool {
    match info[i] {
        Some((c, p)) => match p {
            Node::Start => dist(beacons[i]@, start) <= c,
            Node::Beacon(q) => cost_of(info[q as int]) + dist(beacons[i]@, beacons[q as int]@) <= c,
            Node::Destination => true,
        },
        None => true,
    }
}

/// The cost recorded for the destination is no less than the way through its parent.
pub open spec fn dest_cost_ok(
    beacons: Seq<GlobalPos>,
    dest: (int, int),
    info: Seq<Option<(u16, Node)>>,
    dinfo: Option<(u16, Node)>,
) -> bool {
    match dinfo {
        Some((c, p)) => match p {
            Node::Beacon(x) => cost_of(info[x as int]) + dist(dest, beacons[x as int]@) <= c,
            _ => true,
        },
        None => true,
    }
}

/// The costs recorded by the search are bounded below by the ways through the recorded parents.
pub open spec fn costs_inv(
    beacons: Seq<GlobalPos>,
    start: (int, int),
    dest: (int, int),
    info: Seq<Option<(u16, Node)>>,
    dinfo: Option<(u16, Node)>,
) -> bool {
    &&& forall|i: int| 0 <= i < beacons.len() ==> #[trigger] parent_cost_ok(beacons, start, info, i)
    &&& dest_cost_ok(beacons, dest, info, dinfo)
}

/// The state of the search as a best-first search: every reached beacon but `except` is expanded
/// at its current cost or queued with it, the queue's keys are consistent, the entries cost no
/// more than the direct way from the start, and the recorded costs are bounded by the parents.
pub open spec fn astar_inv<G: Graph>(
    g: &G,
    beacons: Seq<GlobalPos>,
    start: (int, int),
    dest: (int, int),
    entries: Set<int>,
    exits: Set<int>,
    info: Seq<Option<(u16, Node)>>,
    active: Seq<NavActiveEntry>,
    dinfo: Option<(u16, Node)>,
    except: int,
) -> bool {
    &&& forall|i: int|
        0 <= i < beacons.len() && i != except && (#[trigger] info[i]) is Some ==> closed(
            g,
            beacons,
            dest,
            exits,
            info,
            dinfo,
            i,
        ) || has_entry(active, i, cost_of(info[i]))
    &&& forall|k: int| 0 <= k < active.len() ==> entry_ok(beacons, dest, dinfo, #[trigger] active[k])
    &&& forall|i: int| #[trigger] entries.contains(i) ==> cost_of(info[i]) <= dist(beacons[i]@, start)
    &&& costs_inv(beacons, start, dest, info, dinfo)
}

proof fn lemma_dist_triangle(a: (int, int), b: (int, int), c: (int, int))
    ensures
        dist(a, c) <= dist(a, b) + dist(b, c),
{
}

/// A route is linked in each of its steps.
pub open spec fn route_linked<G: Graph>(g: &G, rr: Seq<u16>) -> bool {
    forall|k: int| 0 <= k < rr.len() - 1 ==> #[trigger] linked(g, rr, k)
}

/// Along a way from an entry through the beacon graph (the reversed route `rr`), either some
/// queued entry has a key no greater than the way's cost plus the distance left to the
/// destination, or the way's last beacon is expanded at a cost no greater than the way's.
proof fn lemma_frontier<G: Graph>(
    g: &G,
    beacons: Seq<GlobalPos>,
    start: (int, int),
    dest: (int, int),
    entries: Set<int>,
    exits: Set<int>,
    info: Seq<Option<(u16, Node)>>,
    active: Seq<NavActiveEntry>,
    dinfo: Option<(u16, Node)>,
    processed: Seq<bool>,
    stamps: Seq<int>,
    t: int,
    rr: Seq<u16>,
)
    requires
        search_inv(g, beacons.len() as int, entries, exits, info, active, dinfo, processed, stamps, t, -1),
        astar_inv(g, beacons, start, dest, entries, exits, info, active, dinfo, -1),
        rr.len() >= 1,
        entries.contains(rr.last() as int),
        route_linked(g, rr),
    ensures
        (exists|m: int|
            0 <= m < active.len() && (#[trigger] active[m]).estimated_cost <= walk_cost(beacons, start, rr)
                + dist(dest, beacons[rr[0] as int]@)) || (closed(g, beacons, dest, exits, info, dinfo, rr[0] as int)
            && cost_of(info[rr[0] as int]) <= walk_cost(beacons, start, rr)),
    decreases rr.len(),
{
    let n = beacons.len() as int;
    let v = rr[0] as int;
    if rr.len() == 1 {
        assert(rr.last() == rr[0]);
        assert(entries.contains(v));
        assert(info[v] is Some);
        assert(edges_cost(beacons, rr) == 0);
    } else {
        let rest = rr.drop_first();
        assert(rest.last() == rr.last());
        assert forall|k: int| 0 <= k < rest.len() - 1 implies #[trigger] linked(g, rest, k) by {
            assert(linked(g, rr, k + 1));
            assert(rest[k] == rr[k + 1] && rest[k + 1] == rr[k + 2]);
        }
        lemma_frontier(g, beacons, start, dest, entries, exits, info, active, dinfo, processed, stamps, t, rest);
        let w = rr[1] as int;
        assert(rest[0] == rr[1]);
        assert(walk_cost(beacons, start, rr) == walk_cost(beacons, start, rest) + dist(
            beacons[v]@,
            beacons[w]@,
        ));
        assert(linked(g, rr, 0));
        assert(g.successors(w).contains(rr[0]));
        let k = choose|k: int| 0 <= k < g.successors(w).len() && g.successors(w)[k] == rr[0];
        assert(g.successors(w)[k] == rr[0]);
        lemma_dist_triangle(dest, beacons[v]@, beacons[w]@);
        if exists|m: int|
            0 <= m < active.len() && (#[trigger] active[m]).estimated_cost <= walk_cost(beacons, start, rest)
                + dist(dest, beacons[w]@) {
            let m = choose|m: int|
                0 <= m < active.len() && (#[trigger] active[m]).estimated_cost <= walk_cost(beacons, start, rest)
                    + dist(dest, beacons[w]@);
            assert(active[m].estimated_cost <= walk_cost(beacons, start, rr) + dist(dest, beacons[v]@));
        } else {
            assert(closed(g, beacons, dest, exits, info, dinfo, w));
            assert(0 <= v < n);
            assert(info[v] is Some);
            assert(cost_of(info[v]) <= walk_cost(beacons, start, rr));
        }
    }
    if !closed(g, beacons, dest, exits, info, dinfo, v) && info[v] is Some && 0 <= v < n {
        assert(has_entry(active, v, cost_of(info[v])));
        let m = choose|m: int|
            0 <= m < active.len() && (#[trigger] active[m]).node == Node::Beacon(v as u16)
                && active[m].past_cost as int == cost_of(info[v]);
        assert(entry_ok(beacons, dest, dinfo, active[m]));
    }
}

/// Improving the cost of beacon `j` to `c2` through beacon `u`, and queueing `j` with its key,
/// keeps the best-first state of the search.
proof fn lemma_improve_astar<G: Graph>(
    g: &G,
    beacons: Seq<GlobalPos>,
    start: (int, int),
    dest: (int, int),
    entries: Set<int>,
    exits: Set<int>,
    info: Seq<Option<(u16, Node)>>,
    active: Seq<NavActiveEntry>,
    dinfo: Option<(u16, Node)>,
    processed: Seq<bool>,
    stamps: Seq<int>,
    t: int,
    uu: u16,
    jj: u16,
    c2: u16,
    est: u16,
)
    requires
        search_inv(g, beacons.len() as int, entries, exits, info, active, dinfo, processed, stamps, t, uu as int),
        astar_inv(g, beacons, start, dest, entries, exits, info, active, dinfo, uu as int),
        (uu as int) < beacons.len(),
        (jj as int) < beacons.len(),
        jj != uu,
        info[uu as int] is Some,
        c2 == cost_of(info[uu as int]) + dist(beacons[jj as int]@, beacons[uu as int]@),
        est == c2 + dist(dest, beacons[jj as int]@),
        info[jj as int] is None || c2 < cost_of(info[jj as int]),
    ensures
        astar_inv(
            g,
            beacons,
            start,
            dest,
            entries,
            exits,
            info.update(jj as int, Some((c2, Node::Beacon(uu)))),
            active.push(NavActiveEntry { estimated_cost: est, past_cost: c2, node: Node::Beacon(jj) }),
            dinfo,
            uu as int,
        ),
{
    let n = beacons.len() as int;
    let u = uu as int;
    let j = jj as int;
    let e = NavActiveEntry { estimated_cost: est, past_cost: c2, node: Node::Beacon(jj) };
    let info2 = info.update(j, Some((c2, Node::Beacon(uu))));
    let active2 = active.push(e);
    assert forall|i: int| 0 <= i < n implies #[trigger] cost_of(info2[i]) <= cost_of(info[i]) || info[i] is None by {}
    assert forall|i: int|
        0 <= i < n && i != u && (#[trigger] info2[i]) is Some implies closed(
        g,
        beacons,
        dest,
        exits,
        info2,
        dinfo,
        i,
    ) || has_entry(active2, i, cost_of(info2[i])) by {
        if i == j {
            assert(active2[active.len() as int] == e);
        } else {
            assert(info2[i] == info[i]);
            if has_entry(active, i, cost_of(info[i])) {
                lemma_has_entry_push(active, e, i, cost_of(info[i]));
            } else {
                assert(closed(g, beacons, dest, exits, info, dinfo, i));
                assert forall|k: int| 0 <= k < g.successors(i).len() implies {
                    &&& 0 <= (#[trigger] g.successors(i)[k] as int) < beacons.len()
                    &&& info2[g.successors(i)[k] as int] is Some
                    &&& cost_of(info2[g.successors(i)[k] as int]) <= cost_of(info2[i]) + dist(
                        beacons[g.successors(i)[k] as int]@,
                        beacons[i]@,
                    )
                } by {
                    let s = g.successors(i)[k] as int;
                    assert(info[s] is Some);
                    if s != j {
                        assert(info2[s] == info[s]);
                    }
                }
            }
        }
    }
    assert forall|k: int| 0 <= k < active2.len() implies entry_ok(beacons, dest, dinfo, #[trigger] active2[k]) by {
        if k < active.len() {
            assert(active2[k] == active[k]);
        }
    }
    assert forall|i: int| #[trigger] entries.contains(i) implies cost_of(info2[i]) <= dist(beacons[i]@, start) by {
        assert(info[i] is Some);
        if i != j {
            assert(info2[i] == info[i]);
        }
    }
    assert forall|i: int| 0 <= i < n implies #[trigger] parent_cost_ok(beacons, start, info2, i) by {
        assert(parent_ok(g, entries, n, info, stamps, i));
        assert(parent_cost_ok(beacons, start, info, i));
        if i == j {
            assert(info2[u] == info[u]);
        } else {
            assert(info2[i] == info[i]);
            match info[i] {
                Some((c, p)) => match p {
                    Node::Beacon(q) => {
                        if q as int != j {
                            assert(info2[q as int] == info[q as int]);
                        }
                    },
                    _ => {},
                },
                None => {},
            }
        }
    }
    match dinfo {
        Some((c, p)) => match p {
            Node::Beacon(x) => {
                if x as int != j {
                    assert(info2[x as int] == info[x as int]);
                }
            },
            _ => {},
        },
        None => {},
    }
}

/// Removing entry `r` from the queue keeps the best-first state of the search, except for the
/// beacon whose current entry it was.
proof fn lemma_remove_entry_astar<G: Graph>(
    g: &G,
    beacons: Seq<GlobalPos>,
    start: (int, int),
    dest: (int, int),
    entries: Set<int>,
    exits: Set<int>,
    info: Seq<Option<(u16, Node)>>,
    active: Seq<NavActiveEntry>,
    dinfo: Option<(u16, Node)>,
    r: int,
    except: int,
)
    requires
        astar_inv(g, beacons, start, dest, entries, exits, info, active, dinfo, -1),
        beacons.len() <= 0x10000,
        0 <= r < active.len(),
        except == -1 ==> !(active[r].node matches Node::Beacon(u) && cost_of(info[u as int])
            == active[r].past_cost),
        except != -1 ==> active[r].node == Node::Beacon(except as u16) && 0 <= except < beacons.len(),
    ensures
        astar_inv(g, beacons, start, dest, entries, exits, info, active.remove(r), dinfo, except),
{
    let a2 = active.remove(r);
    active.remove_ensures(r);
    assert forall|i: int|
        0 <= i < beacons.len() && i != except && (#[trigger] info[i]) is Some implies closed(
        g,
        beacons,
        dest,
        exits,
        info,
        dinfo,
        i,
    ) || has_entry(a2, i, cost_of(info[i])) by {
        if !closed(g, beacons, dest, exits, info, dinfo, i) {
            assert(((i as u16) as int) == i);
            if except != -1 {
                assert(((except as u16) as int) == except);
                assert(Node::Beacon(i as u16) != Node::Beacon(except as u16));
            }
            lemma_has_entry_remove(active, r, i, cost_of(info[i]));
        }
    }
    assert forall|k: int| 0 <= k < a2.len() implies entry_ok(beacons, dest, dinfo, #[trigger] a2[k]) by {
        if k < r {
            assert(a2[k] == active[k]);
        } else {
            assert(a2[k] == active[k + 1]);
        }
    }
}

/// Recording the way to the destination through exit `u` at cost `total`, where it is better
/// than the one found before, and queueing the destination with that cost, keeps the best-first
/// state of the search.
proof fn lemma_dest_astar<G: Graph>(
    g: &G,
    beacons: Seq<GlobalPos>,
    start: (int, int),
    dest: (int, int),
    entries: Set<int>,
    exits: Set<int>,
    info: Seq<Option<(u16, Node)>>,
    active: Seq<NavActiveEntry>,
    dinfo: Option<(u16, Node)>,
    dinfo2: Option<(u16, Node)>,
    e: NavActiveEntry,
    u: int,
)
    requires
        astar_inv(g, beacons, start, dest, entries, exits, info, active, dinfo, u),
        0 <= u < beacons.len() <= 0x10000,
        info[u] is Some,
        e.node == Node::Destination,
        e.estimated_cost == e.past_cost,
        e.past_cost == cost_of(info[u]) + dist(dest, beacons[u]@),
        (dinfo2 == Some((e.past_cost, Node::Beacon(u as u16))) && (dinfo is None || e.past_cost
            < cost_of(dinfo))) || (dinfo2 == dinfo && dinfo is Some && cost_of(dinfo) <= e.past_cost),
    ensures
        astar_inv(g, beacons, start, dest, entries, exits, info, active.push(e), dinfo2, u),
        dinfo2 is Some,
        cost_of(dinfo2) <= e.past_cost,
{
    let a2 = active.push(e);
    assert forall|i: int|
        0 <= i < beacons.len() && i != u && (#[trigger] info[i]) is Some implies closed(
        g,
        beacons,
        dest,
        exits,
        info,
        dinfo2,
        i,
    ) || has_entry(a2, i, cost_of(info[i])) by {
        if has_entry(active, i, cost_of(info[i])) {
            lemma_has_entry_push(active, e, i, cost_of(info[i]));
        } else {
            assert(closed(g, beacons, dest, exits, info, dinfo, i));
        }
    }
    assert forall|k: int| 0 <= k < a2.len() implies entry_ok(beacons, dest, dinfo2, #[trigger] a2[k]) by {
        if k < active.len() {
            assert(a2[k] == active[k]);
            assert(entry_ok(beacons, dest, dinfo, active[k]));
        }
    }
    assert(((u as u16) as int) == u);
    assert(dest_cost_ok(beacons, dest, info, dinfo2));
}

/// Pushing `x` onto a reversed route adds the step from its last beacon to `x`.
proof fn lemma_edges_push(beacons: Seq<GlobalPos>, rr: Seq<u16>, x: u16)
    requires
        rr.len() >= 1,
    ensures
        edges_cost(beacons, rr.push(x)) == edges_cost(beacons, rr) + dist(
            beacons[rr.last() as int]@,
            beacons[x as int]@,
        ),
    decreases rr.len(),
{
    let r2 = rr.push(x);
    if rr.len() == 1 {
        assert(r2.drop_first() =~= seq![x]);
        assert(edges_cost(beacons, seq![x]) == 0);
    } else {
        assert(r2.drop_first() =~= rr.drop_first().push(x));
        lemma_edges_push(beacons, rr.drop_first(), x);
        assert(rr.drop_first().last() == rr.last());
    }
}

/// Where the queue's keys are all at least `lb`, and the destination, if reached, costs no more
/// than `lb`, it costs no more than any route.
proof fn lemma_optimal<G: Graph>(
    g: &G,
    beacons: Seq<GlobalPos>,
    start: (int, int),
    dest: (int, int),
    entries: Set<int>,
    exits: Set<int>,
    info: Seq<Option<(u16, Node)>>,
    active: Seq<NavActiveEntry>,
    dinfo: Option<(u16, Node)>,
    processed: Seq<bool>,
    stamps: Seq<int>,
    t: int,
    lb: int,
    rr: Seq<u16>,
)
    requires
        search_inv(g, beacons.len() as int, entries, exits, info, active, dinfo, processed, stamps, t, -1),
        astar_inv(g, beacons, start, dest, entries, exits, info, active, dinfo, -1),
        forall|m: int| 0 <= m < active.len() ==> lb <= (#[trigger] active[m]).estimated_cost,
        active.len() > 0 ==> dinfo is Some && cost_of(dinfo) <= lb,
        beacon_route(g, entries, exits, rr),
    ensures
        dinfo is Some,
        cost_of(dinfo) <= route_cost(beacons, start, dest, rr),
{
    assert(route_linked(g, rr));
    lemma_frontier(g, beacons, start, dest, entries, exits, info, active, dinfo, processed, stamps, t, rr);
    if exists|m: int|
        0 <= m < active.len() && (#[trigger] active[m]).estimated_cost <= walk_cost(beacons, start, rr)
            + dist(dest, beacons[rr[0] as int]@) {
        let m = choose|m: int|
            0 <= m < active.len() && (#[trigger] active[m]).estimated_cost <= walk_cost(beacons, start, rr)
                + dist(dest, beacons[rr[0] as int]@);
        assert(lb <= active[m].estimated_cost);
    } else {
        assert(exits.contains(rr[0] as int));
    }
}

/// `rr` is a way from an entry through the beacon graph to beacon `q`, in reverse order.
pub open spec fn walk_to<G: Graph>(g: &G, entries: Set<int>, rr: Seq<u16>, q: int) -> bool {
    &&& rr.len() >= 1
    &&& rr[0] as int == q
    &&& entries.contains(rr.last() as int)
    &&& route_linked(g, rr)
}

/// Some way from an entry reaches beacon `q` at no more than its recorded cost.
pub open spec fn reached_within<G: Graph>(
    g: &G,
    beacons: Seq<GlobalPos>,
    start: (int, int),
    entries: Set<int>,
    info: Seq<Option<(u16, Node)>>,
    q: int,
) -> bool {
    exists|rr: Seq<u16>| #[trigger] walk_to(g, entries, rr, q) && walk_cost(beacons, start, rr) <= cost_of(info[q])
}

/// No way from an entry reaches beacon `q` at less than its recorded cost.
pub open spec fn settled<G: Graph>(
    g: &G,
    beacons: Seq<GlobalPos>,
    start: (int, int),
    entries: Set<int>,
    info: Seq<Option<(u16, Node)>>,
    q: int,
) -> bool {
    forall|rr: Seq<u16>| #[trigger] walk_to(g, entries, rr, q) ==> cost_of(info[q]) <= walk_cost(beacons, start, rr)
}

/// The queue holds no entry of a beacon below its recorded cost, and no two entries of one
/// beacon with the same cost.
pub open spec fn entries_distinct(info: Seq<Option<(u16, Node)>>, active: Seq<NavActiveEntry>) -> bool {
    &&& forall|k: int|
        0 <= k < active.len() ==> match (#[trigger] active[k]).node {
            Node::Beacon(v) => active[k].past_cost >= cost_of(info[v as int]),
            _ => true,
        }
    &&& forall|k1: int, k2: int|
        0 <= k1 < k2 < active.len() && (#[trigger] active[k1]).node is Beacon && (#[trigger] active[k2]).node
            == active[k1].node ==> active[k1].past_cost != active[k2].past_cost
}

/// Each beacon is expanded at most once: every reached beacon is reached by some way at its
/// cost, and an expanded beacon has its least cost and is not queued with it again.
pub open spec fn once_inv<G: Graph>(
    g: &G,
    beacons: Seq<GlobalPos>,
    start: (int, int),
    entries: Set<int>,
    info: Seq<Option<(u16, Node)>>,
    active: Seq<NavActiveEntry>,
    processed: Seq<bool>,
) -> bool {
    &&& forall|q: int|
        0 <= q < beacons.len() && (#[trigger] info[q]) is Some ==> reached_within(g, beacons, start, entries, info, q)
    &&& forall|q: int|
        0 <= q < beacons.len() && #[trigger] processed[q] ==> info[q] is Some && settled(
            g,
            beacons,
            start,
            entries,
            info,
            q,
        ) && !has_entry(active, q, cost_of(info[q]))
    &&& entries_distinct(info, active)
}

/// The number of steps out of the first `n` beacons of the graph.
pub open spec fn edge_count<G: Graph>(g: &G, n: int) -> int
    decreases n,
{
    if n <= 0 {
        0
    } else {
        edge_count(g, n - 1) + g.successors(n - 1).len()
    }
}

/// The queue entries that expanding the first `n` beacons where `processed` may add: one per
/// step out of each, and one for the destination.
pub open spec fn deg_sum<G: Graph>(g: &G, processed: Seq<bool>, n: int) -> int
    decreases n,
{
    if n <= 0 {
        0
    } else {
        deg_sum(g, processed, n - 1) + if processed[n - 1] {
            g.successors(n - 1).len() + 1
        } else {
            0
        }
    }
}

proof fn lemma_deg_sum_update<G: Graph>(g: &G, processed: Seq<bool>, n: int, u: int)
    requires
        0 <= u < n <= processed.len(),
        !processed[u],
    ensures
        deg_sum(g, processed.update(u, true), n) == deg_sum(g, processed, n) + g.successors(u).len() + 1,
    decreases n,
{
    if u < n - 1 {
        lemma_deg_sum_update(g, processed, n - 1, u);
    } else {
        lemma_deg_sum_same(g, processed, processed.update(u, true), n - 1);
    }
}

proof fn lemma_deg_sum_same<G: Graph>(g: &G, a: Seq<bool>, b: Seq<bool>, n: int)
    requires
        n <= a.len(),
        n <= b.len(),
        forall|i: int| 0 <= i < n ==> a[i] == b[i],
    ensures
        deg_sum(g, a, n) == deg_sum(g, b, n),
    decreases n,
{
    if n > 0 {
        lemma_deg_sum_same(g, a, b, n - 1);
    }
}

proof fn lemma_deg_sum_bounds<G: Graph>(g: &G, processed: Seq<bool>, n: int)
    ensures
        0 <= deg_sum(g, processed, n) <= edge_count(g, n) + if n > 0 {
            n
        } else {
            0
        },
        (forall|i: int| 0 <= i < n ==> !#[trigger] processed[i]) ==> deg_sum(g, processed, n) == 0,
    decreases n,
{
    if n > 0 {
        lemma_deg_sum_bounds(g, processed, n - 1);
    }
}

/// Removing a queue entry keeps each beacon expanded at most once.
proof fn lemma_once_remove<G: Graph>(
    g: &G,
    beacons: Seq<GlobalPos>,
    start: (int, int),
    entries: Set<int>,
    info: Seq<Option<(u16, Node)>>,
    active: Seq<NavActiveEntry>,
    processed: Seq<bool>,
    r: int,
)
    requires
        once_inv(g, beacons, start, entries, info, active, processed),
        0 <= r < active.len(),
    ensures
        once_inv(g, beacons, start, entries, info, active.remove(r), processed),
        forall|q: int, c: int| has_entry(active.remove(r), q, c) ==> has_entry(active, q, c),
{
    let a2 = active.remove(r);
    active.remove_ensures(r);
    assert forall|q: int, c: int| has_entry(a2, q, c) implies has_entry(active, q, c) by {
        let k = choose|k: int| 0 <= k < a2.len() && (#[trigger] a2[k]).node == Node::Beacon(q as u16) && a2[k].past_cost as int == c;
        if k < r {
            assert(active[k] == a2[k]);
        } else {
            assert(active[k + 1] == a2[k]);
        }
    }
    assert forall|k: int| 0 <= k < a2.len() implies match (#[trigger] a2[k]).node {
        Node::Beacon(v) => a2[k].past_cost >= cost_of(info[v as int]),
        _ => true,
    } by {
        if k < r {
            assert(active[k] == a2[k]);
        } else {
            assert(active[k + 1] == a2[k]);
        }
    }
    assert forall|k1: int, k2: int|
        0 <= k1 < k2 < a2.len() && (#[trigger] a2[k1]).node is Beacon && (#[trigger] a2[k2]).node == a2[k1].node
        implies a2[k1].past_cost != a2[k2].past_cost by {
        let j1 = if k1 < r { k1 } else { k1 + 1 };
        let j2 = if k2 < r { k2 } else { k2 + 1 };
        assert(active[j1] == a2[k1]);
        assert(active[j2] == a2[k2]);
    }
}

/// Queueing the destination keeps each beacon expanded at most once.
proof fn lemma_once_push_dest<G: Graph>(
    g: &G,
    beacons: Seq<GlobalPos>,
    start: (int, int),
    entries: Set<int>,
    info: Seq<Option<(u16, Node)>>,
    active: Seq<NavActiveEntry>,
    processed: Seq<bool>,
    e: NavActiveEntry,
)
    requires
        once_inv(g, beacons, start, entries, info, active, processed),
        e.node == Node::Destination,
    ensures
        once_inv(g, beacons, start, entries, info, active.push(e), processed),
{
    let a2 = active.push(e);
    assert forall|q: int| 0 <= q < beacons.len() && #[trigger] processed[q] implies !has_entry(a2, q, cost_of(info[q])) by {
        if has_entry(a2, q, cost_of(info[q])) {
            let k = choose|k: int| 0 <= k < a2.len() && (#[trigger] a2[k]).node == Node::Beacon(q as u16) && a2[k].past_cost as int == cost_of(info[q]);
            assert(k < active.len());
            assert(a2[k] == active[k]);
        }
    }
    assert forall|k: int| 0 <= k < a2.len() implies match (#[trigger] a2[k]).node {
        Node::Beacon(v) => a2[k].past_cost >= cost_of(info[v as int]),
        _ => true,
    } by {
        if k < active.len() {
            assert(a2[k] == active[k]);
        }
    }
    assert forall|k1: int, k2: int|
        0 <= k1 < k2 < a2.len() && (#[trigger] a2[k1]).node is Beacon && (#[trigger] a2[k2]).node == a2[k1].node
        implies a2[k1].past_cost != a2[k2].past_cost by {
        assert(a2[k1] == active[k1]);
        if k2 < active.len() {
            assert(a2[k2] == active[k2]);
        }
    }
}

/// Popping the first entry of the queue where it is the current one of beacon `u`: `u` was not
/// expanded before, no way reaches it at less than its cost, and marking it expanded keeps each
/// beacon expanded at most once.
proof fn lemma_settle<G: Graph>(
    g: &G,
    beacons: Seq<GlobalPos>,
    start: (int, int),
    dest: (int, int),
    entries: Set<int>,
    exits: Set<int>,
    info: Seq<Option<(u16, Node)>>,
    active: Seq<NavActiveEntry>,
    dinfo: Option<(u16, Node)>,
    processed: Seq<bool>,
    stamps: Seq<int>,
    t: int,
    m: int,
    u: int,
)
    requires
        search_inv(g, beacons.len() as int, entries, exits, info, active, dinfo, processed, stamps, t, -1),
        astar_inv(g, beacons, start, dest, entries, exits, info, active, dinfo, -1),
        once_inv(g, beacons, start, entries, info, active, processed),
        0 <= m < active.len(),
        0 <= u < beacons.len() <= 0x10000,
        active[m].node == Node::Beacon(u as u16),
        active[m].past_cost == cost_of(info[u]),
        forall|j: int| 0 <= j < active.len() ==> !precedes(#[trigger] active[j], active[m]),
    ensures
        !processed[u],
        once_inv(g, beacons, start, entries, info, active.remove(m), processed.update(u, true)),
{
    let a2 = active.remove(m);
    assert(((u as u16) as int) == u);
    assert(has_entry(active, u, cost_of(info[u])));
    assert(entry_ok(beacons, dest, dinfo, active[m]));
    assert forall|rr: Seq<u16>| #[trigger] walk_to(g, entries, rr, u) implies cost_of(info[u]) <= walk_cost(
        beacons,
        start,
        rr,
    ) by {
        lemma_frontier(g, beacons, start, dest, entries, exits, info, active, dinfo, processed, stamps, t, rr);
        if exists|j: int|
            0 <= j < active.len() && (#[trigger] active[j]).estimated_cost <= walk_cost(beacons, start, rr) + dist(
                dest,
                beacons[rr[0] as int]@,
            ) {
            let j = choose|j: int|
                0 <= j < active.len() && (#[trigger] active[j]).estimated_cost <= walk_cost(beacons, start, rr)
                    + dist(dest, beacons[rr[0] as int]@);
            assert(!precedes(active[j], active[m]));
        }
    }
    lemma_once_remove(g, beacons, start, entries, info, active, processed, m);
    active.remove_ensures(m);
    let p2 = processed.update(u, true);
    assert forall|q: int| 0 <= q < beacons.len() && #[trigger] p2[q] implies info[q] is Some && settled(
        g,
        beacons,
        start,
        entries,
        info,
        q,
    ) && !has_entry(a2, q, cost_of(info[q])) by {
        if q == u {
            if has_entry(a2, u, cost_of(info[u])) {
                let k = choose|k: int|
                    0 <= k < a2.len() && (#[trigger] a2[k]).node == Node::Beacon(u as u16) && a2[k].past_cost as int
                        == cost_of(info[u]);
                if k < m {
                    assert(active[k] == a2[k]);
                    assert(active[k].past_cost != active[m].past_cost);
                } else {
                    assert(active[k + 1] == a2[k]);
                    assert(active[m].past_cost != active[k + 1].past_cost);
                }
            }
        } else {
            assert(processed[q]);
        }
    }
    assert forall|q: int|
        0 <= q < beacons.len() && (#[trigger] info[q]) is Some implies reached_within(
        g,
        beacons,
        start,
        entries,
        info,
        q,
    ) by {}
}

/// Improving the cost of beacon `j` through beacon `u`, and queueing `j`: `j` was not expanded
/// before, and each beacon stays expanded at most once.
proof fn lemma_improve_once<G: Graph>(
    g: &G,
    beacons: Seq<GlobalPos>,
    start: (int, int),
    entries: Set<int>,
    exits: Set<int>,
    info: Seq<Option<(u16, Node)>>,
    active: Seq<NavActiveEntry>,
    dinfo: Option<(u16, Node)>,
    processed: Seq<bool>,
    stamps: Seq<int>,
    t: int,
    p_once: Seq<bool>,
    uu: u16,
    jj: u16,
    c2: u16,
    est: u16,
)
    requires
        search_inv(g, beacons.len() as int, entries, exits, info, active, dinfo, processed, stamps, t, uu as int),
        once_inv(g, beacons, start, entries, info, active, p_once),
        p_once.len() == info.len(),
        (uu as int) < beacons.len(),
        (jj as int) < beacons.len(),
        jj != uu,
        info[uu as int] is Some,
        g.successors(uu as int).contains(jj),
        c2 == cost_of(info[uu as int]) + dist(beacons[jj as int]@, beacons[uu as int]@),
        info[jj as int] is None || c2 < cost_of(info[jj as int]),
    ensures
        !p_once[jj as int],
        once_inv(
            g,
            beacons,
            start,
            entries,
            info.update(jj as int, Some((c2, Node::Beacon(uu)))),
            active.push(NavActiveEntry { estimated_cost: est, past_cost: c2, node: Node::Beacon(jj) }),
            p_once,
        ),
{
    let n = beacons.len() as int;
    let u = uu as int;
    let j = jj as int;
    let e = NavActiveEntry { estimated_cost: est, past_cost: c2, node: Node::Beacon(jj) };
    let info2 = info.update(j, Some((c2, Node::Beacon(uu))));
    let a2 = active.push(e);
    assert(reached_within(g, beacons, start, entries, info, u));
    let ru = choose|rr: Seq<u16>| #[trigger] walk_to(g, entries, rr, u) && walk_cost(beacons, start, rr) <= cost_of(info[u]);
    let rj = seq![jj] + ru;
    assert(rj.drop_first() =~= ru);
    assert(rj[1] == ru[0]);
    assert(rj.last() == ru.last());
    assert forall|k: int| 0 <= k < rj.len() - 1 implies #[trigger] linked(g, rj, k) by {
        if k > 0 {
            assert(linked(g, ru, k - 1));
            assert(rj[k] == ru[k - 1] && rj[k + 1] == ru[k]);
        }
    }
    assert(walk_to(g, entries, rj, j));
    assert(walk_cost(beacons, start, rj) == walk_cost(beacons, start, ru) + dist(beacons[j]@, beacons[u]@));
    if p_once[j] {
        assert(settled(g, beacons, start, entries, info, j));
        assert(cost_of(info[j]) <= walk_cost(beacons, start, rj));
        assert(info[j] is Some);
    }
    assert forall|q: int| 0 <= q < n && (#[trigger] info2[q]) is Some implies reached_within(
        g,
        beacons,
        start,
        entries,
        info2,
        q,
    ) by {
        if q == j {
            assert(walk_to(g, entries, rj, j) && walk_cost(beacons, start, rj) <= cost_of(info2[j]));
        } else {
            assert(info2[q] == info[q]);
            assert(reached_within(g, beacons, start, entries, info, q));
            let rq = choose|rr: Seq<u16>| #[trigger] walk_to(g, entries, rr, q) && walk_cost(beacons, start, rr) <= cost_of(info[q]);
            assert(walk_to(g, entries, rq, q) && walk_cost(beacons, start, rq) <= cost_of(info2[q]));
        }
    }
    assert forall|q: int| 0 <= q < n && #[trigger] p_once[q] implies info2[q] is Some && settled(
        g,
        beacons,
        start,
        entries,
        info2,
        q,
    ) && !has_entry(a2, q, cost_of(info2[q])) by {
        assert(q != j);
        assert(info2[q] == info[q]);
        assert(settled(g, beacons, start, entries, info, q));
        if has_entry(a2, q, cost_of(info2[q])) {
            let k = choose|k: int|
                0 <= k < a2.len() && (#[trigger] a2[k]).node == Node::Beacon(q as u16) && a2[k].past_cost as int
                    == cost_of(info2[q]);
            if k < active.len() {
                assert(a2[k] == active[k]);
            } else {
                assert(a2[k] == e);
                assert(((q as u16) as int) == q);
                assert(((jj as u16) as int) == j);
            }
        }
    }
    assert forall|k: int| 0 <= k < a2.len() implies match (#[trigger] a2[k]).node {
        Node::Beacon(v) => a2[k].past_cost >= cost_of(info2[v as int]),
        _ => true,
    } by {
        if k < active.len() {
            assert(a2[k] == active[k]);
            match active[k].node {
                Node::Beacon(v) => {
                    if v as int != j {
                        assert(info2[v as int] == info[v as int]);
                    } else {
                        assert(info[j] is Some);
                    }
                },
                _ => {},
            }
        }
    }
    assert forall|k1: int, k2: int|
        0 <= k1 < k2 < a2.len() && (#[trigger] a2[k1]).node is Beacon && (#[trigger] a2[k2]).node == a2[k1].node
        implies a2[k1].past_cost != a2[k2].past_cost by {
        assert(a2[k1] == active[k1]);
        if k2 < active.len() {
            assert(a2[k2] == active[k2]);
        } else {
            assert(a2[k2] == e);
            assert(active[k1].node == Node::Beacon(jj));
            assert(info[j] is Some);
        }
    }
}

/// With the entries queued at their distance from the start, in increasing order, and nothing
/// expanded yet, each beacon is expanded at most once.
proof fn lemma_once_start<G: Graph>(
    g: &G,
    beacons: Seq<GlobalPos>,
    start: (int, int),
    entries: Set<int>,
    info: Seq<Option<(u16, Node)>>,
    active: Seq<NavActiveEntry>,
    entry_nodes: Seq<u16>,
    processed: Seq<bool>,
)
    requires
        beacons.len() <= 0x10000,
        beacons.len() <= info.len(),
        forall|i: int|
            0 <= i < info.len() && (#[trigger] info[i]) is Some ==> {
                &&& i < beacons.len()
                &&& entries.contains(i)
                &&& cost_of(info[i]) == dist(beacons[i]@, start)
            },
        active.len() == entry_nodes.len(),
        forall|m: int| 0 <= m < active.len() ==> (#[trigger] active[m]).node == Node::Beacon(entry_nodes[m])
            && active[m].past_cost == dist(beacons[entry_nodes[m] as int]@, start),
        forall|m: int| 0 <= m < entry_nodes.len() ==> info[(#[trigger] entry_nodes[m]) as int] is Some,
        forall|m: int| 0 <= m < entry_nodes.len() ==> (#[trigger] entry_nodes[m] as int) < beacons.len(),
        forall|a: int, b: int| 0 <= a < b < entry_nodes.len() ==> #[trigger] entry_nodes[a] < #[trigger] entry_nodes[b],
        forall|i: int| 0 <= i < processed.len() ==> !#[trigger] processed[i],
        beacons.len() <= processed.len(),
    ensures
        once_inv(g, beacons, start, entries, info, active, processed),
{
    assert forall|q: int| 0 <= q < beacons.len() && (#[trigger] info[q]) is Some implies reached_within(
        g,
        beacons,
        start,
        entries,
        info,
        q,
    ) by {
        let rq = seq![q as u16];
        assert(((q as u16) as int) == q);
        assert(edges_cost(beacons, rq) == 0);
        assert(walk_to(g, entries, rq, q));
    }
    assert forall|k1: int, k2: int|
        0 <= k1 < k2 < active.len() && (#[trigger] active[k1]).node is Beacon && (#[trigger] active[k2]).node
            == active[k1].node implies active[k1].past_cost != active[k2].past_cost by {
        assert(entry_nodes[k1] < entry_nodes[k2]);
    }
    assert forall|m: int| 0 <= m < active.len() implies match (#[trigger] active[m]).node {
        Node::Beacon(v) => active[m].past_cost >= cost_of(info[v as int]),
        _ => true,
    } by {
        let v = entry_nodes[m];
        assert(info[v as int] is Some);
    }
}

/// The state of the search once the entries are queued: consistent, best-first, each beacon to
/// be expanded at most once, and, where `bounds` are given, the costs within them.
proof fn lemma_start_state<G: Graph>(
    g: &G,
    beacons: Seq<GlobalPos>,
    start: (int, int),
    dest: (int, int),
    entries: Set<int>,
    exits: Set<int>,
    info: Seq<Option<(u16, Node)>>,
    active: Seq<NavActiveEntry>,
    entry_nodes: Seq<u16>,
    processed: Seq<bool>,
    stamps: Seq<int>,
    bounds: Option<(int, int, int)>,
)
    requires
        g.valid(),
        g.n_nodes() == beacons.len(),
        beacons_ok(beacons),
        beacons.len() <= info.len(),
        processed.len() == info.len(),
        stamps.len() == info.len(),
        forall|i: int| 0 <= i < info.len() ==> !#[trigger] processed[i],
        forall|i: int| 0 <= i < info.len() ==> #[trigger] stamps[i] == 0,
        forall|i: int| #[trigger] entries.contains(i) ==> 0 <= i < beacons.len(),
        forall|i: int| #[trigger] exits.contains(i) ==> 0 <= i < beacons.len(),
        forall|m: int| 0 <= m < entry_nodes.len() ==> (#[trigger] entry_nodes[m] as int) < beacons.len(),
        forall|i: int|
            0 <= i < beacons.len() ==> (#[trigger] entries.contains(i) <==> entry_nodes.contains(i as u16)),
        forall|i: int|
            0 <= i < info.len() && (#[trigger] info[i]) is Some ==> {
                &&& i < beacons.len()
                &&& entries.contains(i)
                &&& info[i].unwrap().1 == Node::Start
                &&& cost_of(info[i]) == dist(beacons[i]@, start)
                &&& has_entry(active, i, cost_of(info[i]))
            },
        forall|m: int|
            0 <= m < active.len() ==> ((#[trigger] active[m]).node matches Node::Beacon(i)
                && (i as int) < beacons.len() && info[i as int] is Some),
        forall|m: int| 0 <= m < active.len() ==> entry_ok(beacons, dest, None, #[trigger] active[m]),
        forall|m: int| 0 <= m < entry_nodes.len() ==> info[(#[trigger] entry_nodes[m]) as int] is Some,
        bounds matches Some((s, d, h)) ==> lengths_within(g, beacons, start, dest, s, d, h),
        active.len() == entry_nodes.len(),
        forall|m: int| 0 <= m < active.len() ==> (#[trigger] active[m]).node == Node::Beacon(entry_nodes[m])
            && active[m].past_cost == dist(beacons[entry_nodes[m] as int]@, start),
        forall|a: int, b: int| 0 <= a < b < entry_nodes.len() ==> #[trigger] entry_nodes[a] < #[trigger] entry_nodes[b],
    ensures
        search_inv(g, beacons.len() as int, entries, exits, info, active, None, processed, stamps, 0, -1),
        astar_inv(g, beacons, start, dest, entries, exits, info, active, None, -1),
        once_inv(g, beacons, start, entries, info, active, processed),
        bounds matches Some((s, d, h)) ==> cost_bound(info, beacons.len() as int, s, d),
        deg_sum(g, processed, beacons.len() as int) == 0,
{
    let n = beacons.len() as int;

        assert(search_inv(g, n, entries, exits, info, active, None, processed, stamps, 0, -1)) by {
            assert forall|i: int| 0 <= i < n implies #[trigger] parent_ok(
                g,
                entries,
                n,
                info,
                stamps,
                i,
            ) by {
                if info[i] is Some {
                    assert(info[i].unwrap().1 == Node::Start);
                }
            }
            assert forall|i: int| #[trigger] entries.contains(i) implies 0 <= i < n && info[i] is Some by {
                assert(entry_nodes.contains(i as u16));
                let m = choose|m: int| 0 <= m < entry_nodes.len() && entry_nodes[m] == i as u16;
                assert(info[entry_nodes[m] as int] is Some);
            }
        }
        assert(astar_inv(g, beacons, start, dest, entries, exits, info, active, None, -1)) by {
            assert forall|i: int| 0 <= i < n implies #[trigger] parent_cost_ok(beacons, start, info, i) by {
                if info[i] is Some {
                    assert(info[i].unwrap().1 == Node::Start);
                }
            }
            assert forall|i: int| #[trigger] entries.contains(i) implies cost_of(info[i]) <= dist(beacons[i]@, start) by {
                assert(entry_nodes.contains(i as u16));
                let m = choose|m: int| 0 <= m < entry_nodes.len() && entry_nodes[m] == i as u16;
                assert(info[entry_nodes[m] as int] is Some);
            }
            assert forall|i: int| 0 <= i < n && (#[trigger] info[i]) is Some implies closed(
                g,
                beacons,
                dest,
                exits,
                info,
                None,
                i,
            ) || has_entry(active, i, cost_of(info[i])) by {}
        }
        lemma_once_start(g, beacons, start, entries, info, active, entry_nodes, processed);
        lemma_deg_sum_bounds(g, processed, n);
        if let Some((s, d, h)) = bounds {
            assert(cost_bound(info, n, s, d)) by {
                assert forall|i: int| 0 <= i < n && (#[trigger] info[i]) is Some implies cost_of(info[i]) <= s + d * (
                n_reached(info, n) - 1) by {
                    lemma_n_reached_bounds(info, n, i);
                    let c = n_reached(info, n);
                    assert(0 <= d * (c - 1)) by (nonlinear_arith)
                        requires
                            0 <= d,
                            1 <= c,
                    ;
                    assert(dist(beacons[i]@, start) <= s);
                }
            }
        }
    }

/// Popping the destination as the first entry of the queue: the destination has been reached at
/// a cost no greater than that of any route.
proof fn lemma_dest_pop<G: Graph>(
    g: &G,
    beacons: Seq<GlobalPos>,
    start: (int, int),
    dest: (int, int),
    entries: Set<int>,
    exits: Set<int>,
    info: Seq<Option<(u16, Node)>>,
    active: Seq<NavActiveEntry>,
    dinfo: Option<(u16, Node)>,
    processed: Seq<bool>,
    stamps: Seq<int>,
    t: int,
    m: int,
)
    requires
        search_inv(g, beacons.len() as int, entries, exits, info, active, dinfo, processed, stamps, t, -1),
        astar_inv(g, beacons, start, dest, entries, exits, info, active, dinfo, -1),
        beacons.len() <= 0x10000,
        0 <= m < active.len(),
        active[m].node == Node::Destination,
        forall|j: int| 0 <= j < active.len() ==> !precedes(#[trigger] active[j], active[m]),
    ensures
        search_inv(g, beacons.len() as int, entries, exits, info, active.remove(m), dinfo, processed, stamps, t, -1),
        astar_inv(g, beacons, start, dest, entries, exits, info, active.remove(m), dinfo, -1),
        dinfo is Some,
        forall|rr: Seq<u16>|
            beacon_route(g, entries, exits, rr) ==> cost_of(dinfo) <= route_cost(beacons, start, dest, rr),
{
    let n = beacons.len() as int;
    let a2 = active.remove(m);
    lemma_remove_entry(g, n, entries, exits, info, active, dinfo, processed, stamps, t, m, -1);
    lemma_remove_entry_astar(g, beacons, start, dest, entries, exits, info, active, dinfo, m, -1);
    assert(entry_ok(beacons, dest, dinfo, active[m]));
    active.remove_ensures(m);
    assert forall|q: int| 0 <= q < a2.len() implies active[m].estimated_cost <= (#[trigger] a2[q]).estimated_cost by {
        if q < m {
            assert(a2[q] == active[q]);
            assert(!precedes(active[q], active[m]));
        } else {
            assert(a2[q] == active[q + 1]);
            assert(!precedes(active[q + 1], active[m]));
        }
    }
    assert forall|rr: Seq<u16>| beacon_route(g, entries, exits, rr) implies cost_of(dinfo) <= route_cost(
        beacons,
        start,
        dest,
        rr,
    ) by {
        lemma_optimal(
            g,
            beacons,
            start,
            dest,
            entries,
            exits,
            info,
            a2,
            dinfo,
            processed,
            stamps,
            t,
            active[m].estimated_cost as int,
            rr,
        );
    }
}

/// Searches the beacon graph from the `entry_nodes` towards the `exit_nodes`. Returns the cost
/// and parent found for the destination, or `None` where no route through the beacon graph
/// leads from an entry to an exit; fails where a cost does not fit a `u16` or the queue of
/// `ACTIVE_BUFFER` entries is full.
#[verifier::spinoff_prover]
#[verifier::rlimit(80)]
fn run_search<const ACTIVE_BUFFER: usize, G: Graph>(
    graph: &G,
    beacons: &[GlobalPos],
    start: GlobalPos,
    destination: GlobalPos,
    entry_nodes: &Vec<u16>,
    exit_nodes: &Vec<u16>,
    info: &mut Vec<Option<(u16, Node)>>,
    active: &mut Vec<NavActiveEntry>,
    Ghost(entries): Ghost<Set<int>>,
    Ghost(exits): Ghost<Set<int>>,
) -> (r: (Result<Option<(u16, Node)>, NavigatorError>, Ghost<Seq<int>>))
    requires
        graph.valid(),
        graph.n_nodes() == beacons@.len(),
        beacons_ok(beacons@),
        nav_pos(start@),
        nav_pos(destination@),
        old(info)@.len() >= beacons@.len(),
        forall|i: int| 0 <= i < old(info)@.len() ==> (#[trigger] old(info)@[i]) is None,
        old(active)@.len() == 0,
        forall|k: int| 0 <= k < entry_nodes@.len() ==> (#[trigger] entry_nodes@[k] as int) < beacons@.len(),
        forall|a: int, b: int| 0 <= a < b < entry_nodes@.len() ==> #[trigger] entry_nodes@[a] < #[trigger] entry_nodes@[b],
        forall|i: int| #[trigger] entries.contains(i) ==> 0 <= i < beacons@.len(),
        forall|i: int| #[trigger] exits.contains(i) ==> 0 <= i < beacons@.len(),
        forall|i: int|
            0 <= i < beacons@.len() ==> (#[trigger] entries.contains(i) <==> entry_nodes@.contains(
                i as u16,
            )),
        forall|i: int|
            0 <= i < beacons@.len() ==> (#[trigger] exits.contains(i) <==> exit_nodes@.contains(
                i as u16,
            )),
    ensures
        final(info)@.len() == old(info)@.len(),
        r.0 matches Ok(None) ==> !(exists|rr: Seq<u16>| beacon_route(graph, entries, exits, rr)),
        r.0 matches Ok(Some(x)) ==> parents_inv(
            graph,
            beacons@.len() as int,
            entries,
            exits,
            final(info)@,
            r.1@,
            Some(x),
        ),
        r.0 matches Ok(Some(x)) ==> costs_inv(beacons@, start@, destination@, final(info)@, Some(x)),
        r.0 matches Ok(Some(x)) ==> forall|rr: Seq<u16>|
            beacon_route(graph, entries, exits, rr) ==> x.0 <= route_cost(beacons@, start@, destination@, rr),
        r.0 == Err::<Option<(u16, Node)>, NavigatorError>(NavigatorError::OutOfMemory(Buffer::Active))
            ==> ACTIVE_BUFFER < entry_nodes@.len() + beacons@.len() + edge_count(graph, beacons@.len() as int),
        r.0 == Err::<Option<(u16, Node)>, NavigatorError>(NavigatorError::CostOverflow) ==> !costs_fit(
            graph,
            beacons@,
            start@,
            destination@,
        ),
        r.0 is Err ==> r.0 == Err::<Option<(u16, Node)>, NavigatorError>(
            NavigatorError::OutOfMemory(Buffer::Active),
        ) || r.0 == Err::<Option<(u16, Node)>, NavigatorError>(NavigatorError::CostOverflow),
{
    let ghost n = beacons@.len() as int;
    let ghost len = info@.len();
    let ghost mut processed: Seq<bool> = Seq::new(len, |i: int| false);
    let ghost mut stamps: Seq<int> = Seq::new(len, |i: int| 0int);
    let ghost mut t: int = 0;
    let mut dinfo: Option<(u16, Node)> = None;
    let ghost bounds: Option<(int, int, int)> = if costs_fit(graph, beacons@, start@, destination@) {
        Some(
            choose|s: int, d: int, h: int|
                #[trigger] lengths_within(graph, beacons@, start@, destination@, s, d, h) && s + d * n + h
                    <= 0xffff,
        )
    } else {
        None
    };
    // the entries are reached from the start
    let mut k: usize = 0;
    while k < entry_nodes.len()
        invariant
            n == beacons@.len(),
            info@.len() == len,
            len == old(info)@.len(),
            n <= len,
            beacons_ok(beacons@),
            nav_pos(start@),
            nav_pos(destination@),
            k <= entry_nodes@.len(),
            forall|m: int| 0 <= m < entry_nodes@.len() ==> (#[trigger] entry_nodes@[m] as int) < n,
            forall|i: int|
                0 <= i < n ==> (#[trigger] entries.contains(i) <==> entry_nodes@.contains(i as u16)),
            forall|i: int|
                0 <= i < len && (#[trigger] info@[i]) is Some ==> {
                    &&& i < n
                    &&& entries.contains(i)
                    &&& info@[i].unwrap().1 == Node::Start
                    &&& cost_of(info@[i]) == dist(beacons@[i]@, start@)
                    &&& has_entry(active@, i, cost_of(info@[i]))
                },
            forall|m: int|
                0 <= m < active@.len() ==> ((#[trigger] active@[m]).node matches Node::Beacon(i)
                    && (i as int) < n && info@[i as int] is Some),
            forall|m: int| 0 <= m < active@.len() ==> entry_ok(beacons@, destination@, None, #[trigger] active@[m]),
            forall|m: int| 0 <= m < k ==> info@[(#[trigger] entry_nodes@[m]) as int] is Some,
            bounds matches Some((s, d, h)) ==> lengths_within(graph, beacons@, start@, destination@, s, d, h)
                && s + d * n + h <= 0xffff,
            bounds is None ==> !costs_fit(graph, beacons@, start@, destination@),
            active@.len() == k,
            forall|m: int| 0 <= m < k ==> (#[trigger] active@[m]).node == Node::Beacon(entry_nodes@[m])
                && active@[m].past_cost == dist(beacons@[entry_nodes@[m] as int]@, start@),
            forall|a: int, b: int| 0 <= a < b < entry_nodes@.len() ==> #[trigger] entry_nodes@[a] < #[trigger] entry_nodes@[b],
        decreases entry_nodes@.len() - k,
    {
        let e = entry_nodes[k];
        let ghost ei = e as int;
        let pos = beacons[e as usize];
        assert(nav_pos(beacons@[ei]@));
        let past_cost = pos_dist(pos, start);
        let est = match past_cost.checked_add(pos_dist(destination, pos)) {
            Some(x) => x,
            None => {
                proof {
                    if let Some((s, d, h)) = bounds {
                        assert(0 <= d * n) by (nonlinear_arith)
                            requires
                                0 <= d,
                                0 <= n,
                        ;
                        assert(dist(beacons@[ei]@, start@) <= s);
                        assert(dist(destination@, beacons@[ei]@) <= h);
                    }
                }
                return (Err(NavigatorError::CostOverflow), Ghost(stamps));
            },
        };
        if active.len() >= ACTIVE_BUFFER {
            proof {
                lemma_deg_sum_bounds(graph, processed, n);
            }
            return (Err(NavigatorError::OutOfMemory(Buffer::Active)), Ghost(stamps));
        }
        let ghost info_before = info@;
        let ghost active_before = active@;
        let entry = NavActiveEntry { estimated_cost: est, past_cost, node: Node::Beacon(e) };
        active.push(entry);
        info.set(e as usize, Some((past_cost, Node::Start)));
        proof {
            assert(entry_nodes@[k as int] == e);
            assert(entry_nodes@.contains(e));
            assert(((ei as u16) as int) == ei);
            assert(entries.contains(ei));
            assert forall|i: int| 0 <= i < len && (#[trigger] info@[i]) is Some implies {
                &&& i < n
                &&& entries.contains(i)
                &&& info@[i].unwrap().1 == Node::Start
                &&& cost_of(info@[i]) == dist(beacons@[i]@, start@)
                &&& has_entry(active@, i, cost_of(info@[i]))
            } by {
                if i == ei {
                    assert(active@[active_before.len() as int] == entry);
                } else {
                    assert(info@[i] == info_before[i]);
                    lemma_has_entry_push(active_before, entry, i, cost_of(info_before[i]));
                }
            }
            assert forall|m: int| 0 <= m < active@.len() implies ((#[trigger] active@[m]).node matches Node::Beacon(i)
                && (i as int) < n && info@[i as int] is Some) by {
                if m < active_before.len() {
                    assert(active@[m] == active_before[m]);
                }
            }
            assert forall|m: int| 0 <= m < active@.len() implies entry_ok(beacons@, destination@, None, #[trigger] active@[m]) by {
                if m < active_before.len() {
                    assert(active@[m] == active_before[m]);
                }
            }
            assert forall|m: int| 0 <= m < k + 1 implies (#[trigger] active@[m]).node == Node::Beacon(entry_nodes@[m])
                && active@[m].past_cost == dist(beacons@[entry_nodes@[m] as int]@, start@) by {
                if m < k {
                    assert(active@[m] == active_before[m]);
                }
            }
            assert forall|m: int| 0 <= m < k + 1 implies info@[(#[trigger] entry_nodes@[m]) as int] is Some by {
                if (entry_nodes@[m] as int) != ei {
                    assert(info@[entry_nodes@[m] as int] == info_before[entry_nodes@[m] as int]);
                }
            }
        }
        k = k + 1;
    }
    proof {
        lemma_start_state(
            graph,
            beacons@,
            start@,
            destination@,
            entries,
            exits,
            info@,
            active@,
            entry_nodes@,
            processed,
            stamps,
            bounds,
        );
    }
    // the search proper
    loop
        invariant
            search_inv(graph, n, entries, exits, info@, active@, dinfo, processed, stamps, t, -1),
            n == beacons@.len(),
            info@.len() == len,
            len == old(info)@.len(),
            beacons_ok(beacons@),
            nav_pos(destination@),
            forall|i: int|
                0 <= i < n ==> (#[trigger] exits.contains(i) <==> exit_nodes@.contains(i as u16)),
            astar_inv(graph, beacons@, start@, destination@, entries, exits, info@, active@, dinfo, -1),
            bounds matches Some((s, d, h)) ==> {
                &&& lengths_within(graph, beacons@, start@, destination@, s, d, h)
                &&& s + d * n + h <= 0xffff
                &&& cost_bound(info@, n, s, d)
            },
            bounds is None ==> !costs_fit(graph, beacons@, start@, destination@),
            once_inv(graph, beacons@, start@, entries, info@, active@, processed),
            processed.len() == len,
            active@.len() <= entry_nodes@.len() + deg_sum(graph, processed, n),
        ensures
            search_inv(graph, n, entries, exits, info@, active@, dinfo, processed, stamps, t, -1),
            info@.len() == len,
            dinfo is Some || active@.len() == 0,
            costs_inv(beacons@, start@, destination@, info@, dinfo),
            dinfo matches Some(x) ==> forall|rr: Seq<u16>|
                beacon_route(graph, entries, exits, rr) ==> x.0 <= route_cost(beacons@, start@, destination@, rr),
        decreases potential(info@, active@),
    {
        if active.len() == 0 {
            proof {
                assert forall|rr: Seq<u16>| beacon_route(graph, entries, exits, rr) implies cost_of(dinfo)
                    <= route_cost(beacons@, start@, destination@, rr) by {
                    lemma_optimal(
                        graph,
                        beacons@,
                        start@,
                        destination@,
                        entries,
                        exits,
                        info@,
                        active@,
                        dinfo,
                        processed,
                        stamps,
                        t,
                        0,
                        rr,
                    );
                }
            }
            break;
        }
        let m = min_index(active);
        let ghost before = active@;
        let entry = active.remove(m);
        proof {
            lemma_wsum_remove(before, m as int);
            lemma_sum_pot_nonneg(info@);
            lemma_wsum_nonneg(active@);
        }
        match entry.node {
            Node::Start => {
                proof {
                    assert(before[m as int] == entry);
                }
                vstd::pervasive::unreached()
            },
            Node::Destination => {
                proof {
                    assert(before[m as int] == entry);
                    lemma_dest_pop(
                        graph,
                        beacons@,
                        start@,
                        destination@,
                        entries,
                        exits,
                        info@,
                        before,
                        dinfo,
                        processed,
                        stamps,
                        t,
                        m as int,
                    );
                }
                break;
            },
            Node::Beacon(u) => {
                proof {
                    assert(before[m as int] == entry);
                }
                let fresh = match info[u as usize] {
                    Some((c, _)) => c == entry.past_cost,
                    None => true,
                };
                if fresh {
                    let ghost phi0 = potential(info@, before);
                    let ghost p_once = processed.update(u as int, true);
                    let ghost cap = entry_nodes@.len() + deg_sum(graph, processed, n) - 1;
                    proof {
                        assert(info@[u as int] is Some);
                        lemma_settle(
                            graph,
                            beacons@,
                            start@,
                            destination@,
                            entries,
                            exits,
                            info@,
                            before,
                            dinfo,
                            processed,
                            stamps,
                            t,
                            m as int,
                            u as int,
                        );
                        lemma_remove_entry(
                            graph,
                            n,
                            entries,
                            exits,
                            info@,
                            before,
                            dinfo,
                            processed,
                            stamps,
                            t,
                            m as int,
                            u as int,
                        );
                        lemma_remove_entry_astar(
                            graph,
                            beacons@,
                            start@,
                            destination@,
                            entries,
                            exits,
                            info@,
                            before,
                            dinfo,
                            m as int,
                            u as int,
                        );
                    }
                    let (res, Ghost(st2), Ghost(t2)) = expand::<ACTIVE_BUFFER, G>(
                        graph,
                        beacons,
                        destination,
                        exit_nodes,
                        info,
                        active,
                        &mut dinfo,
                        u,
                        entry.past_cost,
                        Ghost(entries),
                        Ghost(exits),
                        Ghost(processed),
                        Ghost(stamps),
                        Ghost(t),
                        Ghost(phi0),
                        Ghost(start@),
                        Ghost(bounds),
                        Ghost(p_once),
                        Ghost(cap),
                    );
                    proof {
                        lemma_deg_sum_update(graph, processed, n, u as int);
                        lemma_deg_sum_bounds(graph, p_once, n);
                    }
                    match res {
                        Err(e) => {
                            return (Err(e), Ghost(stamps));
                        },
                        Ok(()) => {},
                    }
                    proof {
                        processed = processed.update(u as int, true);
                        stamps = st2;
                        t = t2;
                        lemma_sum_pot_nonneg(info@);
                        lemma_wsum_nonneg(active@);
                    }
                } else {
                    proof {
                        lemma_remove_entry(
                            graph,
                            n,
                            entries,
                            exits,
                            info@,
                            before,
                            dinfo,
                            processed,
                            stamps,
                            t,
                            m as int,
                            -1,
                        );
                        lemma_remove_entry_astar(
                            graph,
                            beacons@,
                            start@,
                            destination@,
                            entries,
                            exits,
                            info@,
                            before,
                            dinfo,
                            m as int,
                            -1,
                        );
                        lemma_once_remove(graph, beacons@, start@, entries, info@, before, processed, m as int);
                    }
                }
            },
        }
    }
    match dinfo {
        None => {
            proof {
                if exists|rr: Seq<u16>| beacon_route(graph, entries, exits, rr) {
                    let rr = choose|rr: Seq<u16>| beacon_route(graph, entries, exits, rr);
                    lemma_route_reached(
                        graph,
                        n,
                        entries,
                        exits,
                        info@,
                        active@,
                        dinfo,
                        processed,
                        stamps,
                        t,
                        rr,
                        0,
                    );
                }
            }
            (Ok(None), Ghost(stamps))
        },
        Some(x) => (Ok(Some(x)), Ghost(stamps)),
    }
}


/// A sequence of distinct numbers below `n` has at most `n` elements.
proof fn lemma_distinct_len(rr: Seq<u16>, n: int)
    requires
        0 <= n,
        forall|k1: int, k2: int| 0 <= k1 < k2 < rr.len() ==> rr[k1] != rr[k2],
        forall|k: int| 0 <= k < rr.len() ==> (#[trigger] rr[k] as int) < n,
    ensures
        rr.len() <= n,
{
    let ri = rr.map_values(|x: u16| x as int);
    assert forall|k1: int, k2: int| 0 <= k1 < ri.len() && 0 <= k2 < ri.len() && k1 != k2 implies ri[k1] != ri[k2] by {
        if k1 < k2 {
            assert(rr[k1] != rr[k2]);
        } else {
            assert(rr[k2] != rr[k1]);
        }
    }
    assert(ri.no_duplicates());
    ri.unique_seq_to_set();
    assert forall|x: int| ri.to_set().contains(x) implies set_int_range(0, n).contains(x) by {
        assert(ri.contains(x));
        let k = choose|k: int| 0 <= k < ri.len() && ri[k] == x;
        assert(rr[k] as int == x);
    }
    lemma_int_range(0, n);
    lemma_len_subset(ri.to_set(), set_int_range(0, n));
}

/// Pushing a route grows a path by at most the route's length.
proof fn lemma_push_route_len(p: Seq<u16>, rr: Seq<u16>)
    ensures
        push_route(p, rr).len() <= p.len() + rr.len(),
    decreases rr.len(),
{
    if rr.len() > 0 {
        lemma_push_route_len(p, rr.drop_last());
    }
}

/// Appends to `path` the beacons from the destination's parent back to an entry, following the
/// parents recorded by the search, and skipping a beacon that repeats the last one of the path.
/// Fails where the path would grow beyond `MAX_PATH_LEN`.
fn collect_path<const MAX_PATH_LEN: usize, G: Graph>(
    graph: &G,
    info: &Vec<Option<(u16, Node)>>,
    dinfo: (u16, Node),
    path: &mut Vec<u16>,
    Ghost(n): Ghost<int>,
    Ghost(entries): Ghost<Set<int>>,
    Ghost(exits): Ghost<Set<int>>,
    Ghost(stamps): Ghost<Seq<int>>,
    Ghost(beacons): Ghost<Seq<GlobalPos>>,
    Ghost(start): Ghost<(int, int)>,
    Ghost(dest): Ghost<(int, int)>,
) -> (r: Result<(), NavigatorError>)
    requires
        parents_inv(graph, n, entries, exits, info@, stamps, Some(dinfo)),
        costs_inv(beacons, start, dest, info@, Some(dinfo)),
        n == beacons.len(),
        old(path)@.len() <= MAX_PATH_LEN,
    ensures
        final(path)@.len() <= MAX_PATH_LEN,
        old(path)@.len() <= final(path)@.len(),
        final(path)@.subrange(0, old(path)@.len() as int) == old(path)@,
        forall|k: int|
            old(path)@.len() <= k < final(path)@.len() ==> (#[trigger] final(path)@[k] as int) < n,
        r is Ok ==> exists|rr: Seq<u16>|
            beacon_route(graph, entries, exits, rr) && final(path)@ == push_route(old(path)@, rr)
                && route_cost(beacons, start, dest, rr) <= dinfo.0,
        r is Err ==> r == Err::<(), NavigatorError>(NavigatorError::OutOfMemory(Buffer::Path))
            && final(path)@.len() == MAX_PATH_LEN && MAX_PATH_LEN < old(path)@.len() + n,
{
    let ghost path0 = path@;
    let ghost mut rr: Seq<u16> = Seq::empty();
    let mut cur = dinfo.1;
    loop
        invariant
            parents_inv(graph, n, entries, exits, info@, stamps, Some(dinfo)),
            path@.len() <= MAX_PATH_LEN,
            path0 == old(path)@,
            path0.len() <= path@.len(),
            path@.subrange(0, path0.len() as int) == path0,
            forall|k: int| path0.len() <= k < path@.len() ==> (#[trigger] path@[k] as int) < n,
            path@ == push_route(path0, rr),
            cur != Node::Destination,
            forall|k: int| 0 <= k < rr.len() ==> (#[trigger] rr[k] as int) < n,
            rr.len() >= 1 ==> exits.contains(rr[0] as int),
            forall|k: int| 0 <= k < rr.len() - 1 ==> #[trigger] linked(graph, rr, k),
            cur == Node::Start ==> rr.len() >= 1 && entries.contains(rr.last() as int),
            cur matches Node::Beacon(b) ==> {
                &&& (b as int) < n
                &&& info@[b as int] is Some
                &&& rr.len() == 0 ==> exits.contains(b as int)
                &&& rr.len() > 0 ==> graph.successors(b as int).contains(rr.last())
            },
            costs_inv(beacons, start, dest, info@, Some(dinfo)),
            n == beacons.len(),
            rr.len() == 0 ==> cur == dinfo.1,
            rr.len() >= 1 ==> {
                &&& info@[rr.last() as int] is Some
                &&& info@[rr.last() as int].unwrap().1 == cur
                &&& cost_of(info@[rr.last() as int]) + edges_cost(beacons, rr) + dist(
                    dest,
                    beacons[rr[0] as int]@,
                ) <= dinfo.0
            },
            forall|k1: int, k2: int| 0 <= k1 < k2 < rr.len() ==> below(info@, stamps, rr[k2] as int, rr[k1] as int),
            cur matches Node::Beacon(b) ==> forall|k: int| 0 <= k < rr.len() ==> below(info@, stamps, b as int, #[trigger] rr[k] as int),
        ensures
            path@.len() <= MAX_PATH_LEN,
            path0.len() <= path@.len(),
            path@.subrange(0, path0.len() as int) == path0,
            forall|k: int| path0.len() <= k < path@.len() ==> (#[trigger] path@[k] as int) < n,
            path@ == push_route(path0, rr),
            beacon_route(graph, entries, exits, rr),
            route_cost(beacons, start, dest, rr) <= dinfo.0,
        decreases
            (match cur {
                Node::Beacon(b) => cost_of(info@[b as int]) + 1,
                _ => 0,
            }),
            (match cur {
                Node::Beacon(b) => stamps[b as int],
                _ => 0,
            }),
    {
        match cur {
            Node::Start => {
                proof {
                    assert(parent_cost_ok(beacons, start, info@, rr.last() as int));
                }
                break;
            },
            Node::Destination => vstd::pervasive::unreached(),
            Node::Beacon(b) => {
                let ghost p_before = path@;
                let dup = path.len() > 0 && path[path.len() - 1] == b;
                if !dup {
                    if path.len() >= MAX_PATH_LEN {
                        proof {
                            let rr2 = rr.push(b);
                            assert forall|k1: int, k2: int| 0 <= k1 < k2 < rr2.len() implies rr2[k1] != rr2[k2] by {
                                if k2 < rr.len() {
                                    assert(below(info@, stamps, rr[k2] as int, rr[k1] as int));
                                } else {
                                    assert(below(info@, stamps, b as int, rr[k1] as int));
                                }
                            }
                            lemma_distinct_len(rr2, n);
                            lemma_push_route_len(path0, rr);
                        }
                        return Err(NavigatorError::OutOfMemory(Buffer::Path));
                    }
                    path.push(b);
                    assert(path@.subrange(0, path0.len() as int) =~= p_before.subrange(
                        0,
                        path0.len() as int,
                    ));
                }
                proof {
                    let rr2 = rr.push(b);
                    assert(rr2.drop_last() =~= rr);
                    assert(path@ == push_dedup(p_before, b));
                    assert forall|k: int| 0 <= k < rr2.len() - 1 implies #[trigger] linked(
                        graph,
                        rr2,
                        k,
                    ) by {
                        if k < rr.len() - 1 {
                            assert(linked(graph, rr, k));
                            assert(rr2[k] == rr[k] && rr2[k + 1] == rr[k + 1]);
                        } else {
                            assert(rr2[k + 1] == b);
                            assert(rr2[k] == rr.last());
                        }
                    }
                    assert(parent_ok(graph, entries, n, info@, stamps, b as int));
                    if rr.len() == 0 {
                        assert(rr2 =~= seq![b]);
                        assert(edges_cost(beacons, rr2) == 0);
                    } else {
                        assert(parent_cost_ok(beacons, start, info@, rr.last() as int));
                        lemma_edges_push(beacons, rr, b);
                        assert(rr2[0] == rr[0]);
                    }
                    assert(rr2.last() == b);
                    assert forall|k1: int, k2: int| 0 <= k1 < k2 < rr2.len() implies below(
                        info@,
                        stamps,
                        rr2[k2] as int,
                        rr2[k1] as int,
                    ) by {
                        if k2 < rr.len() {
                            assert(rr2[k1] == rr[k1] && rr2[k2] == rr[k2]);
                        } else {
                            assert(rr2[k1] == rr[k1]);
                            assert(below(info@, stamps, b as int, rr[k1] as int));
                        }
                    }
                    rr = rr2;
                }
                let next = match info[b as usize] {
                    Some((_, p)) => p,
                    None => vstd::pervasive::unreached(),
                };
                proof {
                    assert(info@[b as int].unwrap().1 == next);
                    if let Node::Beacon(q) = next {
                        assert(below(info@, stamps, q as int, b as int));
                        assert forall|k: int| 0 <= k < rr.len() implies below(info@, stamps, q as int, #[trigger] rr[k] as int) by {
                            if k < rr.len() - 1 {
                                assert(below(info@, stamps, rr[rr.len() - 1] as int, rr[k] as int));
                            }
                        }
                    }
                }
                cur = next;
            },
        }
    }
    Ok(())
}


/// A vector of `N` clones of `t`, allocated on the heap.
pub fn heap_alloc_array<T: Clone, const N: usize>(t: T) -> (r: Vec<T>)
    ensures
        r@.len() == N,
        forall|i: int| 0 <= i < N ==> cloned(t, #[trigger] r@[i]),
{
    let mut v: Vec<T> = Vec::new();
    let mut i: usize = 0;
    while i < N
        invariant
            i <= N,
            v@.len() == i,
            forall|j: int| 0 <= j < i ==> cloned(t, #[trigger] v@[j]),
        decreases N - i,
    {
        v.push(t.clone());
        i = i + 1;
    }
    v
}

/// Storage for the computations of the navigator: the entries and exits of the last
/// navigation, the queue of the search, and the cost and parent found for each beacon.
pub struct NavigatorBuffers<
    const MAX_ENTRY_EXIT: usize,
    const NODE_BUFFER: usize,
    const ACTIVE_BUFFER: usize,
> {
    entry_nodes: Vec<u16>,
    exit_nodes: Vec<u16>,
    active: Vec<NavActiveEntry>,
    node_info: Vec<Option<(u16, Node)>>,
}

impl<
    const MAX_ENTRY_EXIT: usize,
    const NODE_BUFFER: usize,
    const ACTIVE_BUFFER: usize,
> NavigatorBuffers<MAX_ENTRY_EXIT, NODE_BUFFER, ACTIVE_BUFFER> {
    /// There is room for the costs and parents of `NODE_BUFFER` beacons.
    pub closed spec fn wf(&self) -> bool {
        self.node_info@.len() == NODE_BUFFER
    }

    /// Forgets the state of the last computation.
    fn reset(&mut self)
        ensures
            final(self).node_info@.len() == old(self).node_info@.len(),
            forall|i: int|
                0 <= i < final(self).node_info@.len() ==> (#[trigger] final(self).node_info@[i]) is None,
            final(self).active@.len() == 0,
    {
        self.entry_nodes.clear();
        self.exit_nodes.clear();
        self.active.clear();
        let mut i: usize = 0;
        while i < self.node_info.len()
            invariant
                i <= self.node_info@.len(),
                self.node_info@.len() == old(self).node_info@.len(),
                self.active@.len() == 0,
                forall|j: int| 0 <= j < i ==> (#[trigger] self.node_info@[j]) is None,
            decreases self.node_info@.len() - i,
        {
            self.node_info.set(i, None);
            i = i + 1;
        }
    }

    /// Empty buffers, with room for `NODE_BUFFER` beacons allocated on the heap.
    pub fn new() -> (r: Self)
        ensures
            r.wf(),
    {
        Self {
            entry_nodes: Vec::new(),
            exit_nodes: Vec::new(),
            active: Vec::new(),
            node_info: heap_alloc_array::<Option<(u16, Node)>, NODE_BUFFER>(None),
        }
    }
}

impl<
    const MAX_ENTRY_EXIT: usize,
    const NODE_BUFFER: usize,
    const ACTIVE_BUFFER: usize,
> Default for NavigatorBuffers<MAX_ENTRY_EXIT, NODE_BUFFER, ACTIVE_BUFFER> {
    fn default() -> (r: Self)
        ensures
            r.wf(),
    {
        Self::new()
    }
}

/// What stays the same over all navigations: the map, the graph of beacons, the beacons, and
/// how far apart a beacon and a position may be for trivial navigation between them.
pub struct NavigatorContext<T: TrueMap + 'static, G: Graph + 'static> {
    map: &'static T,
    graph: &'static G,
    beacons: &'static [GlobalPos],
    max_beacon_dist: u16,
}

impl<T: TrueMap + 'static, G: Graph + 'static> NavigatorContext<T, G> {
    /// The map, the graph and the beacons fit together: the graph has a node for each beacon,
    /// and each beacon lies where navigation works.
    pub closed spec fn ok(&self) -> bool {
        &&& self.map.valid()
        &&& self.graph.valid()
        &&& self.graph.n_nodes() == self.beacons@.len()
        &&& beacons_ok(self.beacons@)
    }
}

impl<T: TrueMap + 'static, G: Graph + 'static> Clone for NavigatorContext<T, G> {
    fn clone(&self) -> (r: Self)
        ensures
            r == *self,
    {
        Self {
            map: self.map,
            graph: self.graph,
            beacons: self.beacons,
            max_beacon_dist: self.max_beacon_dist,
        }
    }
}

/// What a navigation from `start` to `dest` does to the path `path0` (beacon indices in
/// reverse order), given the outcome `r` and the path `path1` afterwards:
/// - the buffer of `b` cells for trivial navigation not sufficing for an exit, or for the
///   direct way, is the one reason for `OutOfMemory(TrivialNav)`;
/// - where the direct way is trivially navigable (or `start == dest`), the outcome is `Ok` and
///   the path is unchanged;
/// - otherwise an `Ok` comes with a route through the beacon graph, from an entry to an exit,
///   pushed onto the path in reverse order, and no route is shorter: the Manhattan length from
///   the start through the route's beacons to the destination is the least of all routes;
/// - `NavigationImpossible` comes only where no such route exists;
/// - the remaining errors are the queue (`OutOfMemory(Active)`) or the path
///   (`OutOfMemory(Path)`, with `max_len` beacons on it, which happens only where `max_len` is
///   less than the path's length before plus the number of beacons) running full, and
///   `CostOverflow`;
///   the queue, holding `active_cap` entries, runs full only where that is less than two per
///   beacon and one per step of the beacon graph (each beacon is expanded at most once), and
///   `CostOverflow`
///   comes only where the lengths that the search adds up may not fit a `u16` (`costs_fit`);
/// - the path keeps `path0` as its beginning, and adds only beacons.
pub open spec fn navigation_outcome<M: TrueMap, G: Graph>(
    map: &M,
    graph: &G,
    beacons: Seq<GlobalPos>,
    max_dist: int,
    b: int,
    max_len: int,
    active_cap: int,
    start: (int, int),
    dest: (int, int),
    path0: Seq<u16>,
    path1: Seq<u16>,
    r: Result<(), NavigatorError>,
) -> bool {
    let entries = entry_set(map, beacons, start, max_dist, b);
    let exits = exit_set(map, beacons, dest, max_dist);
    let exit_fail = exit_buffer_fails(beacons, dest, max_dist, b);
    let direct_fail = start != dest && dist(dest, start) <= max_dist && !triv_buffer_ok(
        diff(start, dest),
        b,
    );
    let direct = start == dest || (dist(dest, start) <= max_dist && trivially_navigable(
        map,
        start,
        dest,
    ));
    &&& (r == Err::<(), NavigatorError>(NavigatorError::OutOfMemory(Buffer::TrivialNav))) <==> (
    exit_fail || direct_fail)
    &&& !exit_fail && !direct_fail && direct ==> r is Ok && path1 == path0
    &&& r is Ok && !direct ==> exists|rr: Seq<u16>|
        beacon_route(graph, entries, exits, rr) && path1 == push_route(path0, rr) && forall|
            rr2: Seq<u16>,
        |
            beacon_route(graph, entries, exits, rr2) ==> route_cost(beacons, start, dest, rr)
                <= route_cost(beacons, start, dest, rr2)
    &&& r == Err::<(), NavigatorError>(NavigatorError::NavigationImpossible) ==> !direct && !(exists|
        rr: Seq<u16>,
    | beacon_route(graph, entries, exits, rr))
    &&& r is Err ==> {
        ||| r == Err::<(), NavigatorError>(NavigatorError::OutOfMemory(Buffer::TrivialNav))
        ||| r == Err::<(), NavigatorError>(NavigatorError::NavigationImpossible)
        ||| r == Err::<(), NavigatorError>(NavigatorError::OutOfMemory(Buffer::Active))
        ||| r == Err::<(), NavigatorError>(NavigatorError::OutOfMemory(Buffer::Path))
        ||| r == Err::<(), NavigatorError>(NavigatorError::CostOverflow)
    }
    &&& r is Err && r != Err::<(), NavigatorError>(NavigatorError::OutOfMemory(Buffer::Path))
        ==> path1 == path0
    &&& r == Err::<(), NavigatorError>(NavigatorError::OutOfMemory(Buffer::Path)) ==> path1.len()
        == max_len && max_len < path0.len() + beacons.len()
    &&& r == Err::<(), NavigatorError>(NavigatorError::OutOfMemory(Buffer::Active)) ==> active_cap
        < 2 * beacons.len() + edge_count(graph, beacons.len() as int)
    &&& r == Err::<(), NavigatorError>(NavigatorError::CostOverflow) ==> !costs_fit(graph, beacons, start, dest)
    &&& path0.len() <= path1.len() <= max_len
    &&& path1.subrange(0, path0.len() as int) == path0
    &&& forall|k: int| path0.len() <= k < path1.len() ==> (#[trigger] path1[k] as int) < beacons.len()
}

/// Computes the path from `start` to `destination` as beacon indices in reverse order, pushed
/// onto `path`: first the beacons close to the start that are trivially navigable from it (the
/// entries) and those close to the destination from which it is trivially navigable (the
/// exits) are found; where the direct way is trivially navigable nothing is added; otherwise
/// the beacon graph is searched from the entries, by the Manhattan length of the way so far plus
/// the Manhattan distance to the destination, until the destination is reached.
fn compute<
    const MAX_PATH_LEN: usize,
    const MAX_ENTRY_EXIT: usize,
    const TRIV_BUFFER: usize,
    const NODE_BUFFER: usize,
    const ACTIVE_BUFFER: usize,
    T: TrueMap + 'static,
    G: Graph + 'static,
>(
    start: GlobalPos,
    destination: GlobalPos,
    buffers: &mut NavigatorBuffers<MAX_ENTRY_EXIT, NODE_BUFFER, ACTIVE_BUFFER>,
    context: NavigatorContext<T, G>,
    path: &mut Vec<u16>,
) -> (r: Result<(), NavigatorError>)
    requires
        context.ok(),
        context.beacons@.len() <= NODE_BUFFER,
        old(buffers).wf(),
        nav_pos(start@),
        nav_pos(destination@),
        old(path)@.len() <= MAX_PATH_LEN,
    ensures
        final(buffers).wf(),
        navigation_outcome(
            context.map,
            context.graph,
            context.beacons@,
            context.max_beacon_dist as int,
            TRIV_BUFFER as int,
            MAX_PATH_LEN as int,
            ACTIVE_BUFFER as int,
            start@,
            destination@,
            old(path)@,
            final(path)@,
            r,
        ),
{
    let map = context.map;
    let graph = context.graph;
    let beacons = context.beacons;
    let max_dist = context.max_beacon_dist;
    let ghost n = beacons@.len() as int;
    let ghost entries = entry_set(map, beacons@, start@, max_dist as int, TRIV_BUFFER as int);
    let ghost exits = exit_set(map, beacons@, destination@, max_dist as int);
    let ghost direct = start@ == destination@ || (dist(destination@, start@) <= max_dist
        && trivially_navigable(map, start@, destination@));
    let ghost direct_fail = start@ != destination@ && dist(destination@, start@) <= max_dist
        && !triv_buffer_ok(diff(start@, destination@), TRIV_BUFFER as int);
    assert(old(path)@.subrange(0, old(path)@.len() as int) =~= old(path)@);
    buffers.reset();
    buffers.entry_nodes = collect_entries::<TRIV_BUFFER, T>(map, beacons, start, max_dist);
    buffers.exit_nodes = match collect_exits::<TRIV_BUFFER, T>(map, beacons, destination, max_dist) {
        Ok(v) => v,
        Err(e) => {
            return Err(e);
        },
    };
    if start == destination {
        return Ok(());
    }
    if pos_dist(destination, start) <= max_dist {
        match is_navigation_trivial::<TRIV_BUFFER, T>(map, start, destination) {
            Ok(true) => {
                return Ok(());
            },
            Ok(false) => {},
            Err(_) => {
                return Err(NavigatorError::OutOfMemory(Buffer::TrivialNav));
            },
        }
    }
    assert(!direct && !direct_fail);
    proof {
        assert forall|i: int| #[trigger] entries.contains(i) implies 0 <= i < n by {}
        assert forall|i: int| #[trigger] exits.contains(i) implies 0 <= i < n by {}
        assert forall|i: int| 0 <= i < n implies (#[trigger] entries.contains(i)
            <==> buffers.entry_nodes@.contains(i as u16)) by {
            assert(entries.contains(i) == is_entry(
                map,
                beacons@,
                start@,
                max_dist as int,
                TRIV_BUFFER as int,
                i,
            ));
        }
        assert forall|i: int| 0 <= i < n implies (#[trigger] exits.contains(i)
            <==> buffers.exit_nodes@.contains(i as u16)) by {
            assert(exits.contains(i) == is_exit(map, beacons@, destination@, max_dist as int, i));
        }
    }
    let (found, Ghost(stamps)) = run_search::<ACTIVE_BUFFER, G>(
        graph,
        beacons,
        start,
        destination,
        &buffers.entry_nodes,
        &buffers.exit_nodes,
        &mut buffers.node_info,
        &mut buffers.active,
        Ghost(entries),
        Ghost(exits),
    );
    match found {
        Err(e) => Err(e),
        Ok(None) => Err(NavigatorError::NavigationImpossible),
        Ok(Some(dinfo)) => {
            let r = collect_path::<MAX_PATH_LEN, G>(
                graph,
                &buffers.node_info,
                dinfo,
                path,
                Ghost(n),
                Ghost(entries),
                Ghost(exits),
                Ghost(stamps),
                Ghost(beacons@),
                Ghost(start@),
                Ghost(destination@),
            );
            proof {
                if r is Ok {
                    let rr = choose|rr: Seq<u16>|
                        beacon_route(graph, entries, exits, rr) && path@ == push_route(old(path)@, rr)
                            && route_cost(beacons@, start@, destination@, rr) <= dinfo.0;
                    assert(forall|rr2: Seq<u16>|
                        beacon_route(graph, entries, exits, rr2) ==> route_cost(beacons@, start@, destination@, rr)
                            <= route_cost(beacons@, start@, destination@, rr2));
                }
            }
            r
        },
    }
}


/// The length of a path of `len` beacons after dropping `reached` beacons and then `extra`
/// more, where there are that many.
pub open spec fn kept_len(len: int, reached: int, extra: int) -> int {
    if len - reached - extra > 0 {
        len - reached - extra
    } else {
        0
    }
}

/// The storage and computation behind a navigator with a fixed map, beacon graph and beacons:
/// buffers for the search, and the path of beacon indices in reverse order.
pub struct NavigatorResourcesImpl<
    const MAX_PATH_LEN: usize,
    const MAX_ENTRY_EXIT: usize,
    const TRIV_BUFFER: usize,
    const NODE_BUFFER: usize,
    const ACTIVE_BUFFER: usize,
    T: TrueMap + 'static,
    G: Graph + 'static,
> {
    context: NavigatorContext<T, G>,
    buffers: NavigatorBuffers<MAX_ENTRY_EXIT, NODE_BUFFER, ACTIVE_BUFFER>,
    path: Vec<u16>,
}

impl<
    const MAX_PATH_LEN: usize,
    const MAX_ENTRY_EXIT: usize,
    const TRIV_BUFFER: usize,
    const NODE_BUFFER: usize,
    const ACTIVE_BUFFER: usize,
    T: TrueMap + 'static,
    G: Graph + 'static,
> NavigatorResourcesImpl<MAX_PATH_LEN, MAX_ENTRY_EXIT, TRIV_BUFFER, NODE_BUFFER, ACTIVE_BUFFER, T, G> {
    /// The map.
    pub closed spec fn map_of(&self) -> T {
        *self.context.map
    }

    /// The graph of beacons.
    pub closed spec fn graph_of(&self) -> G {
        *self.context.graph
    }

    /// The beacons.
    pub closed spec fn beacons_of(&self) -> Seq<GlobalPos> {
        self.context.beacons@
    }

    /// How far apart a beacon and a position may be for trivial navigation between them.
    pub closed spec fn max_dist_of(&self) -> int {
        self.context.max_beacon_dist as int
    }

    /// Resources for navigating on `map` along `graph` between `beacons`; allocates the
    /// buffers on the heap.
    pub fn new(
        map: &'static T,
        graph: &'static G,
        beacons: &'static [GlobalPos],
        max_beacon_dist: u16,
    ) -> (r: Self)
        requires
            map.valid(),
            graph.valid(),
            graph.n_nodes() == beacons@.len(),
            beacons_ok(beacons@),
            beacons@.len() <= NODE_BUFFER,
        ensures
            r.valid(),
            r.path() == Seq::<u16>::empty(),
            r.map_of() == *map,
            r.graph_of() == *graph,
            r.beacons_of() == beacons@,
            r.max_dist_of() == max_beacon_dist,
    {
        Self {
            context: NavigatorContext { map, graph, beacons, max_beacon_dist },
            buffers: NavigatorBuffers::new(),
            path: Vec::new(),
        }
    }
}

impl<
    const MAX_PATH_LEN: usize,
    const MAX_ENTRY_EXIT: usize,
    const TRIV_BUFFER: usize,
    const NODE_BUFFER: usize,
    const ACTIVE_BUFFER: usize,
    T: TrueMap + 'static,
    G: Graph + 'static,
> NavigatorResources for NavigatorResourcesImpl<
    MAX_PATH_LEN,
    MAX_ENTRY_EXIT,
    TRIV_BUFFER,
    NODE_BUFFER,
    ACTIVE_BUFFER,
    T,
    G,
> {
    closed spec fn valid(&self) -> bool {
        &&& self.context.ok()
        &&& self.context.beacons@.len() <= NODE_BUFFER
        &&& self.buffers.wf()
        &&& self.path@.len() <= MAX_PATH_LEN
        &&& forall|k: int|
            0 <= k < self.path@.len() ==> (#[trigger] self.path@[k] as int) < self.context.beacons@.len()
    }

    closed spec fn path(&self) -> Seq<u16> {
        self.path@
    }

    closed spec fn beacon(&self, i: int) -> (int, int) {
        self.context.beacons@[i]@
    }

    open spec fn computed_new(
        before: Self,
        after: Self,
        start: (int, int),
        destination: (int, int),
        r: Result<(), NavigatorError>,
    ) -> bool {
        &&& after.map_of() == before.map_of()
        &&& after.graph_of() == before.graph_of()
        &&& after.beacons_of() == before.beacons_of()
        &&& after.max_dist_of() == before.max_dist_of()
        &&& navigation_outcome(
            &before.map_of(),
            &before.graph_of(),
            before.beacons_of(),
            before.max_dist_of(),
            TRIV_BUFFER as int,
            MAX_PATH_LEN as int,
            ACTIVE_BUFFER as int,
            start,
            destination,
            Seq::<u16>::empty(),
            after.path(),
            r,
        )
    }

    open spec fn computed_update(
        before: Self,
        after: Self,
        start: (int, int),
        destination: (int, int),
        update: ScheduledUpdate,
        r: Result<(), NavigatorError>,
    ) -> bool {
        &&& after.map_of() == before.map_of()
        &&& after.graph_of() == before.graph_of()
        &&& after.beacons_of() == before.beacons_of()
        &&& after.max_dist_of() == before.max_dist_of()
        &&& update.kind() == UpdateType::TrivialNav ==> r is Ok && after.path() == before.path().subrange(
            0,
            kept_len(before.path().len() as int, update.reached(), 0),
        )
        &&& update.kind() matches UpdateType::Recompute { traveled_since } ==> {
            let kept = before.path().subrange(
                0,
                kept_len(before.path().len() as int, update.reached(), div_ceil_spec(traveled_since as int, 4)),
            );
            let dest = if kept.len() > 0 {
                before.beacons_of()[kept.last() as int]@
            } else {
                destination
            };
            navigation_outcome(
                &before.map_of(),
                &before.graph_of(),
                before.beacons_of(),
                before.max_dist_of(),
                TRIV_BUFFER as int,
                MAX_PATH_LEN as int,
                ACTIVE_BUFFER as int,
                start,
                dest,
                kept,
                after.path(),
                r,
            )
        }
    }

    fn compute_new(&mut self, start: GlobalPos, destination: GlobalPos) -> (r: Result<
        (),
        NavigatorError,
    >)
        ensures
            final(self).map_of() == old(self).map_of(),
            final(self).graph_of() == old(self).graph_of(),
            final(self).beacons_of() == old(self).beacons_of(),
            final(self).max_dist_of() == old(self).max_dist_of(),
            navigation_outcome(
                &old(self).map_of(),
                &old(self).graph_of(),
                old(self).beacons_of(),
                old(self).max_dist_of(),
                TRIV_BUFFER as int,
                MAX_PATH_LEN as int,
                ACTIVE_BUFFER as int,
                start@,
                destination@,
                Seq::<u16>::empty(),
                final(self).path(),
                r,
            ),
    {
        self.path.clear();
        let context = self.context.clone();
        let r = compute::<MAX_PATH_LEN, MAX_ENTRY_EXIT, TRIV_BUFFER, NODE_BUFFER, ACTIVE_BUFFER, T, G>(
            start,
            destination,
            &mut self.buffers,
            context,
            &mut self.path,
        );
        proof {
            assert forall|k: int| 0 <= k < self.path@.len() implies (#[trigger] self.path@[k] as int)
                < self.context.beacons@.len() by {}
        }
        r
    }

    fn compute_update(
        &mut self,
        start: GlobalPos,
        destination: GlobalPos,
        update: ScheduledUpdate,
    ) -> (r: Result<(), NavigatorError>)
        ensures
            final(self).map_of() == old(self).map_of(),
            final(self).graph_of() == old(self).graph_of(),
            final(self).beacons_of() == old(self).beacons_of(),
            final(self).max_dist_of() == old(self).max_dist_of(),
            update.kind() == UpdateType::TrivialNav ==> r is Ok && final(self).path() == old(
                self,
            ).path().subrange(0, kept_len(old(self).path().len() as int, update.reached(), 0)),
            update.kind() matches UpdateType::Recompute { traveled_since } ==> {
                let kept = old(self).path().subrange(
                    0,
                    kept_len(
                        old(self).path().len() as int,
                        update.reached(),
                        div_ceil_spec(traveled_since as int, 4),
                    ),
                );
                let dest = if kept.len() > 0 {
                    old(self).beacons_of()[kept.last() as int]@
                } else {
                    destination@
                };
                navigation_outcome(
                    &old(self).map_of(),
                    &old(self).graph_of(),
                    old(self).beacons_of(),
                    old(self).max_dist_of(),
                    TRIV_BUFFER as int,
                    MAX_PATH_LEN as int,
                    ACTIVE_BUFFER as int,
                    start@,
                    dest,
                    kept,
                    final(self).path(),
                    r,
                )
            },
    {
        match update.complexity() {
            UpdateType::TrivialNav => {
                let keep = self.path.len().saturating_sub(update.n_beacons_reached() as usize);
                self.path.truncate(keep);
                Ok(())
            },
            UpdateType::Recompute { traveled_since } => {
                // a heuristic for how many additional beacons are dropped for every tile traveled
                // since the bot left the trivial navigation route
                let n_pop = div_ceil_u32(traveled_since as u32, 4) as usize;
                let keep = self.path.len().saturating_sub(update.n_beacons_reached() as usize).saturating_sub(
                    n_pop,
                );
                self.path.truncate(keep);
                let dest = if self.path.len() > 0 {
                    let index = self.path[self.path.len() - 1];
                    self.context.beacons[index as usize]
                } else {
                    destination
                };
                proof {
                    if self.path@.len() > 0 {
                        assert(nav_pos(self.context.beacons@[self.path@.last() as int]@));
                    }
                }
                let ghost kept = self.path@;
                assert(forall|k: int| 0 <= k < kept.len() ==> (#[trigger] kept[k] as int) < self.context.beacons@.len());
                let context = self.context.clone();
                let r = compute::<
                    MAX_PATH_LEN,
                    MAX_ENTRY_EXIT,
                    TRIV_BUFFER,
                    NODE_BUFFER,
                    ACTIVE_BUFFER,
                    T,
                    G,
                >(start, dest, &mut self.buffers, context, &mut self.path);
                proof {
                    assert forall|k: int| 0 <= k < self.path@.len() implies (
                    #[trigger] self.path@[k] as int) < self.context.beacons@.len() by {
                        if k < kept.len() {
                            assert(self.path@.subrange(0, kept.len() as int)[k] == self.path@[k]);
                            assert(kept[k] == self.path@[k]);
                        }
                    }
                }
                r
            },
        }
    }

    fn path_beacon(&self, n_skip: u16) -> (r: Option<GlobalPos>) {
        if (n_skip as usize) < self.path.len() {
            let index = self.path[self.path.len() - 1 - n_skip as usize];
            Some(self.context.beacons[index as usize])
        } else {
            None
        }
    }

    fn path_beacon_indices(&self) -> (r: &[u16]) {
        self.path.as_slice()
    }
}

} // verus!
