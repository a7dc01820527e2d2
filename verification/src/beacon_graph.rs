use vstd::prelude::*;

use crate::beacon_nav::{get_trivial_navigables, lemma_triv_dest_walkable, search_fits, triv_to};
use crate::const_graph_builder::{concat_lists, strictly_increasing, ConstSparseGraphBuilder};
use crate::graph::{add_opt, count_where, min_over, Graph, GraphMapping, GraphMappingSingleNode};
use crate::grid_nav::mdist;
use crate::measure::{unsigned_abs, DistanceManhattan, DistanceMeasure};
use crate::beacon::BeaconInfo;
use crate::pos::GlobalPos;
use crate::terrain_map::{PositionBiMap, TerrainMap};

verus! {

/// A graph between positions numbered by two lists.
pub type PosGraph<'s, 'd> = Graph<GlobalPos, GlobalPos, &'s PositionBiMap, &'d PositionBiMap>;

/// The Manhattan distance between two positions.
fn distance(a: GlobalPos, b: GlobalPos) -> (r: u16)
    requires
        -0x4000 <= a@.0 - b@.0 <= 0x4000,
        -0x4000 <= a@.1 - b@.1 <= 0x4000,
    ensures
        r == mdist(a@, b@),
{
    let v = a - b;
    unsigned_abs(v.east()) + unsigned_abs(v.south())
}

/// Index `s` is the last one of its position among `positions`.
pub open spec fn last_index(positions: Seq<GlobalPos>, s: int) -> bool {
    forall|s2: int| s < s2 < positions.len() ==> #[trigger] positions[s2]@ != positions[s]@
}

/// The graph of trivial navigation on `map` between `positions`, which must hold every walkable
/// position of `map`: an edge from a start to a target wherever the target is trivially
/// navigable from the start, weighted by their Manhattan distance. A position listed more than
/// once takes its edges from its last index.
pub fn build_trivial_navigation_graph<'a>(map: &TerrainMap, positions: &'a PositionBiMap) -> (r: PosGraph<'a, 'a>)
    requires
        map.wf(),
        search_fits(map),
        positions@.len() * positions@.len() <= usize::MAX,
        forall|p: (int, int)| #[trigger] map.walkable(p) ==> positions@.contains(p),
    ensures
        r.wf(),
        r.start_map() == positions,
        r.destination_map() == positions,
        forall|s: int, t: int|
            0 <= s < positions@.len() && 0 <= t < positions@.len() ==> #[trigger] r.edge(s, t) == if triv_to(
                map,
                positions@[t],
                positions@[s],
            ) && last_index(positions.positions(), s) {
                Some(mdist(positions@[s], positions@[t]) as u32)
            } else {
                None
            },
{
    let n = positions.len();
    let v = positions.vec();
    let mut graph = PosGraph::new(positions, positions);
    let mut index_target: usize = 0;
    while index_target < n
        invariant
            n == positions@.len(),
            v@ == positions.positions(),
            v@.map_values(|p: GlobalPos| p@) == positions@,
            index_target <= n,
            map.wf(),
            search_fits(map),
            forall|p: (int, int)| #[trigger] map.walkable(p) ==> positions@.contains(p),
            graph.wf(),
            graph.start_map() == positions,
            graph.destination_map() == positions,
            forall|s: int, t: int|
                0 <= s < n && 0 <= t < n ==> #[trigger] graph.edge(s, t) == if t < index_target && triv_to(
                    map,
                    positions@[t],
                    positions@[s],
                ) && last_index(positions.positions(), s) {
                    Some(mdist(positions@[s], positions@[t]) as u32)
                } else {
                    None
                },
        decreases n - index_target,
    {
        let pos = v[index_target];
        assert(positions@[index_target as int] == pos@);
        let trivials = get_trivial_navigables(map, pos);
        let mut k: usize = 0;
        while k < trivials.len()
            invariant
                n == positions@.len(),
                v@ == positions.positions(),
                v@.map_values(|p: GlobalPos| p@) == positions@,
                index_target < n,
                positions@[index_target as int] == pos@,
                k <= trivials@.len(),
                map.wf(),
                search_fits(map),
                forall|p: (int, int)| #[trigger] map.walkable(p) ==> positions@.contains(p),
                forall|q: int| 0 <= q < trivials@.len() ==> triv_to(map, pos@, #[trigger] trivials@[q]@),
                forall|p: (int, int)| #[trigger]
                    triv_to(map, pos@, p) ==> exists|q: int| 0 <= q < trivials@.len() && trivials@[q]@ == p,
                graph.wf(),
                graph.start_map() == positions,
                graph.destination_map() == positions,
                forall|s: int, t: int|
                    0 <= s < n && 0 <= t < n && t != index_target ==> #[trigger] graph.edge(s, t) == if t
                        < index_target && triv_to(map, positions@[t], positions@[s]) && last_index(
                        positions.positions(),
                        s,
                    ) {
                        Some(mdist(positions@[s], positions@[t]) as u32)
                    } else {
                        None
                    },
                forall|s: int|
                    0 <= s < n ==> #[trigger] graph.edge(s, index_target as int) == if triv_to(
                        map,
                        pos@,
                        positions@[s],
                    ) && last_index(positions.positions(), s) && exists|q: int|
                        0 <= q < k && trivials@[q]@ == positions@[s] {
                        Some(mdist(positions@[s], pos@) as u32)
                    } else {
                        None
                    },
            decreases trivials@.len() - k,
        {
            let start = trivials[k];
            proof {
                assert(triv_to(map, pos@, start@));
                assert(map.walkable(start@));
                lemma_triv_dest_walkable(map, pos@, start@);
            }
            let index_start = positions.index_of(start).unwrap();
            let d = distance(start, pos);
            let ghost before = graph;
            graph.set(index_start, index_target, Some(d as u32));
            proof {
                assert forall|s: int| 0 <= s < n implies #[trigger] graph.edge(s, index_target as int) == if triv_to(
                    map,
                    pos@,
                    positions@[s],
                ) && last_index(positions.positions(), s) && exists|q: int|
                    0 <= q < k + 1 && trivials@[q]@ == positions@[s] {
                    Some(mdist(positions@[s], pos@) as u32)
                } else {
                    None
                } by {
                    assert(positions.positions()[s]@ == positions@[s]);
                    assert(positions.positions()[index_start as int]@ == positions@[index_start as int]);
                    if s == index_start {
                        assert(trivials@[k as int]@ == positions@[s]);
                        assert forall|s2: int| s < s2 < positions.positions().len() implies #[trigger] positions.positions()[s2]@
                            != positions.positions()[s]@ by {
                            assert(positions.positions()[s2]@ == positions@[s2]);
                        }
                    } else if positions@[s] == start@ {
                        if s > index_start {
                            assert(positions@[s] != start@);
                        } else {
                            assert(positions.positions()[index_start as int]@ == positions.positions()[s]@);
                            assert(!last_index(positions.positions(), s));
                        }
                    } else {
                        if exists|q: int| 0 <= q < k + 1 && trivials@[q]@ == positions@[s] {
                            let q = choose|q: int| 0 <= q < k + 1 && trivials@[q]@ == positions@[s];
                            assert(q != k);
                        }
                    }
                }
            }
            k = k + 1;
        }
        index_target = index_target + 1;
    }
    graph
}

/// The indices `k < n` for which `p` holds, in increasing order.
pub open spec fn indices_where(p: spec_fn(int) -> bool, n: int) -> Seq<u16>
    decreases n,
{
    if n <= 0 {
        Seq::empty()
    } else {
        indices_where(p, n - 1) + if p(n - 1) {
            seq![(n - 1) as u16]
        } else {
            Seq::<u16>::empty()
        }
    }
}

/// The indices are increasing, below `n`, and as many as the indices for which `p` holds.
proof fn lemma_indices_where(p: spec_fn(int) -> bool, n: int)
    requires
        0 <= n <= 0x1_0000,
    ensures
        strictly_increasing(indices_where(p, n)),
        indices_where(p, n).len() == count_where(p, n),
        forall|k: int| 0 <= k < indices_where(p, n).len() ==> (#[trigger] indices_where(p, n)[k] as int) < n,
    decreases n,
{
    if n > 0 {
        lemma_indices_where(p, n - 1);
        let s = indices_where(p, n - 1);
        if p(n - 1) {
            let t = s + seq![(n - 1) as u16];
            assert(t == indices_where(p, n));
            assert forall|i: int, j: int| 0 <= i < j < t.len() implies #[trigger] t[i] < #[trigger] t[j] by {
                if j == s.len() {
                    assert(t[i] == s[i]);
                } else {
                    assert(t[i] == s[i] && t[j] == s[j]);
                }
            }
            assert forall|k: int| 0 <= k < t.len() implies (#[trigger] t[k] as int) < n by {
                if k < s.len() {
                    assert(t[k] == s[k]);
                }
            }
        } else {
            assert(indices_where(p, n) =~= s);
        }
    }
}

/// The nodes with an edge to node `i`, in increasing order.
pub open spec fn in_list<'a>(graph: PosGraph<'a, 'a>, i: int) -> Seq<u16> {
    indices_where(|j: int| graph.edge(j, i) is Some, graph.n_start())
}

/// The nodes with an edge from node `i`, in increasing order.
pub open spec fn out_list<'a>(graph: PosGraph<'a, 'a>, i: int) -> Seq<u16> {
    indices_where(|j: int| graph.edge(i, j) is Some, graph.n_start())
}

/// The number of nodes with an edge to node `i`.
pub open spec fn in_count<'a>(graph: PosGraph<'a, 'a>, i: int) -> int {
    count_where(|j: int| graph.edge(j, i) is Some, graph.n_start())
}

/// The number of nodes with an edge from node `i`.
pub open spec fn out_count<'a>(graph: PosGraph<'a, 'a>, i: int) -> int {
    count_where(|j: int| graph.edge(i, j) is Some, graph.n_start())
}

/// The number of edges into and out of each of the first `m` nodes of `graph`, added up.
pub open spec fn list_total<'a>(graph: PosGraph<'a, 'a>, m: int) -> int
    decreases m,
{
    if m <= 0 {
        0
    } else {
        list_total(graph, m - 1) + in_count(graph, m - 1) + out_count(graph, m - 1)
    }
}

/// The totals grow with the number of nodes.
proof fn lemma_list_total_monotone<'a>(graph: PosGraph<'a, 'a>, m1: int, m2: int)
    requires
        0 <= m1 <= m2,
    ensures
        list_total(graph, m1) <= list_total(graph, m2),
    decreases m2 - m1,
{
    if m1 < m2 {
        lemma_list_total_monotone(graph, m1, m2 - 1);
        lemma_count_nonneg(|j: int| graph.edge(j, m2 - 1) is Some, graph.n_start());
        lemma_count_nonneg(|j: int| graph.edge(m2 - 1, j) is Some, graph.n_start());
    }
}

/// A count is never negative.
proof fn lemma_count_nonneg(p: spec_fn(int) -> bool, n: int)
    ensures
        count_where(p, n) >= 0,
    decreases n,
{
    if n > 0 {
        lemma_count_nonneg(p, n - 1);
    }
}

impl ConstSparseGraphBuilder {
    /// The builder of a graph between one list of positions: for each node, the nodes with an
    /// edge to it and the nodes it has an edge to. Every node needs both, and all lists together
    /// must fit `u16` positions.
    pub fn from_graph<'a>(graph: &PosGraph<'a, 'a>) -> (r: Self)
        requires
            graph.wf(),
            graph.start_map().values() == graph.destination_map().values(),
            graph.n_start() <= 0x1_0000,
            forall|i: int| 0 <= i < graph.n_start() ==> #[trigger] in_count(*graph, i) >= 1 && out_count(*graph, i) >= 1,
            list_total(*graph, graph.n_start()) <= u16::MAX,
        ensures
            r.wf(),
            r.lists().len() == graph.n_start(),
            forall|i: int| 0 <= i < graph.n_start() ==> #[trigger] r.lists()[i] == (in_list(*graph, i), out_list(*graph, i)),
    {
        let n = graph.len_start();
        let mut builder = ConstSparseGraphBuilder::new();
        let mut i1: usize = 0;
        while i1 < n
            invariant
                n == graph.n_start() == graph.n_destination(),
                n <= 0x1_0000,
                i1 <= n,
                graph.wf(),
                forall|i: int| 0 <= i < graph.n_start() ==> #[trigger] in_count(*graph, i) >= 1 && out_count(*graph, i) >= 1,
                list_total(*graph, graph.n_start()) <= u16::MAX,
                builder.wf(),
                builder.lists().len() == i1,
                concat_lists(builder.lists()).len() == list_total(*graph, i1 as int),
                forall|i: int| 0 <= i < i1 ==> #[trigger] builder.lists()[i] == (in_list(*graph, i), out_list(*graph, i)),
            decreases n - i1,
        {
            let ghost p_before = |j: int| graph.edge(j, i1 as int) is Some;
            let ghost p_after = |j: int| graph.edge(i1 as int, j) is Some;
            let mut before_i1: Vec<u16> = Vec::new();
            let mut after_i1: Vec<u16> = Vec::new();
            let mut i2: usize = 0;
            while i2 < n
                invariant
                    n == graph.n_start() == graph.n_destination(),
                    n <= 0x1_0000,
                    i1 < n,
                    i2 <= n,
                    graph.wf(),
                    p_before == (|j: int| graph.edge(j, i1 as int) is Some),
                    p_after == (|j: int| graph.edge(i1 as int, j) is Some),
                    before_i1@ == indices_where(p_before, i2 as int),
                    after_i1@ == indices_where(p_after, i2 as int),
                decreases n - i2,
            {
                if graph.get(i1, i2).is_some() {
                    after_i1.push(i2 as u16);
                }
                if graph.get(i2, i1).is_some() {
                    before_i1.push(i2 as u16);
                }
                i2 = i2 + 1;
                proof {
                    assert(after_i1@ =~= indices_where(p_after, i2 as int));
                    assert(before_i1@ =~= indices_where(p_before, i2 as int));
                }
            }
            proof {
                lemma_indices_where(p_before, n as int);
                lemma_indices_where(p_after, n as int);
                assert(in_count(*graph, i1 as int) >= 1 && out_count(*graph, i1 as int) >= 1);
                assert(p_before == (|j: int| graph.edge(j, i1 as int) is Some));
                lemma_list_total_monotone(*graph, i1 + 1, n as int);
            }
            let ghost lists0 = builder.lists();
            builder.add_node(&before_i1, &after_i1);
            proof {
                assert(builder.lists().drop_last() =~= lists0);
                assert forall|i: int| 0 <= i < i1 + 1 implies #[trigger] builder.lists()[i] == (in_list(*graph, i), out_list(*graph, i)) by {
                    if i < i1 {
                        assert(builder.lists()[i] == lists0[i]);
                    }
                }
            }
            i1 = i1 + 1;
        }
        builder
    }
}

/// A count is at most the number of indices, and positive exactly where some index counts.
proof fn lemma_count_bounds(p: spec_fn(int) -> bool, n: int)
    requires
        0 <= n,
    ensures
        0 <= count_where(p, n) <= n,
        count_where(p, n) > 0 <==> exists|k: int| 0 <= k < n && #[trigger] p(k),
    decreases n,
{
    if n > 0 {
        lemma_count_bounds(p, n - 1);
        if exists|k: int| 0 <= k < n && #[trigger] p(k) {
            let k = choose|k: int| 0 <= k < n && #[trigger] p(k);
            if k < n - 1 {
                assert(count_where(p, n - 1) > 0);
            }
        }
    }
}

/// Counting fewer indices gives a smaller count; strictly smaller where an index counts only
/// for `q`.
proof fn lemma_count_subset(p: spec_fn(int) -> bool, q: spec_fn(int) -> bool, n: int, k0: int)
    requires
        forall|k: int| 0 <= k < n && #[trigger] p(k) ==> q(k),
        0 <= k0 < n,
        q(k0),
        !p(k0),
    ensures
        count_where(p, n) < count_where(q, n),
    decreases n,
{
    if k0 < n - 1 {
        lemma_count_subset(p, q, n - 1, k0);
    } else {
        lemma_count_le(p, q, n - 1);
    }
}

/// Counting fewer indices gives a count no larger.
proof fn lemma_count_le(p: spec_fn(int) -> bool, q: spec_fn(int) -> bool, n: int)
    requires
        forall|k: int| 0 <= k < n && #[trigger] p(k) ==> q(k),
    ensures
        count_where(p, n) <= count_where(q, n),
    decreases n,
{
    if n > 0 {
        lemma_count_le(p, q, n - 1);
    }
}

/// The smallest of values is missing exactly where every value is.
proof fn lemma_min_over_none(f: spec_fn(int) -> Option<int>, n: int)
    ensures
        min_over(f, n) is None <==> forall|k: int| 0 <= k < n ==> #[trigger] f(k) is None,
    decreases n,
{
    if n > 0 {
        lemma_min_over_none(f, n - 1);
        if min_over(f, n) is None {
            assert forall|k: int| 0 <= k < n implies #[trigger] f(k) is None by {
                if k < n - 1 {
                }
            }
        }
    }
}

/// Positions `i` and `j` of `graph` are linked: edges both ways, of the same weight, at most
/// `max`.
pub open spec fn linked<'a>(graph: PosGraph<'a, 'a>, max: u32, i: int, j: int) -> bool {
    &&& graph.edge(i, j) is Some
    &&& graph.edge(i, j) == graph.edge(j, i)
    &&& graph.edge(i, j).unwrap() <= max
}

/// Position `k` is linked to one of `beacons`.
pub open spec fn covered<'a>(graph: PosGraph<'a, 'a>, max: u32, beacons: Seq<usize>, k: int) -> bool {
    exists|b: int| 0 <= b < beacons.len() && #[trigger] linked(graph, max, k, beacons[b] as int)
}

/// The set `s` holds some positions of `g` but not all, and none of them is linked to a
/// position outside it.
pub open spec fn separates<'a>(g: PosGraph<'a, 'a>, max: u32, s: Set<int>) -> bool {
    &&& exists|i: int| 0 <= i < g.n_start() && #[trigger] s.contains(i)
    &&& exists|j: int| 0 <= j < g.n_start() && !#[trigger] s.contains(j)
    &&& forall|i: int, j: int|
        0 <= i < g.n_start() && 0 <= j < g.n_start() && #[trigger] s.contains(i) && !#[trigger] s.contains(j)
            ==> !linked(g, max, i, j)
}

/// The number of positions linked to `k` that no beacon of `bs` covers.
pub open spec fn uncovered_links<'a>(g: PosGraph<'a, 'a>, max: u32, bs: Seq<usize>, k: int) -> int {
    count_where(|m: int| linked(g, max, k, m) && !covered(g, max, bs, m), g.n_start())
}

/// The number of beacons of `bs` linked to `k`.
pub open spec fn beacon_links<'a>(g: PosGraph<'a, 'a>, max: u32, bs: Seq<usize>, k: int) -> int {
    count_where(|m: int| linked(g, max, k, m) && bs.contains(m as usize), g.n_start())
}

/// How much position `k` is worth as the next beacon after `bs`: the positions it would newly
/// cover, times the beacons it is linked to once there are beacons.
pub open spec fn greedy_value<'a>(g: PosGraph<'a, 'a>, max: u32, bs: Seq<usize>, k: int) -> int {
    if bs.len() > 0 {
        uncovered_links(g, max, bs, k) * beacon_links(g, max, bs, k)
    } else {
        uncovered_links(g, max, bs, k)
    }
}

/// Beacon `b` of `bs` was chosen greedily: some position was still uncovered by the beacons
/// before it, and no position is worth more than it, which is worth something.
pub open spec fn greedy_round<'a>(g: PosGraph<'a, 'a>, max: u32, bs: Seq<usize>, b: int) -> bool {
    &&& exists|m: int| 0 <= m < g.n_start() && !#[trigger] covered(g, max, bs.take(b), m)
    &&& greedy_value(g, max, bs.take(b), bs[b] as int) > 0
    &&& forall|k: int| 0 <= k < g.n_start() ==> #[trigger] greedy_value(g, max, bs.take(b), k) <= greedy_value(
        g,
        max,
        bs.take(b),
        bs[b] as int,
    )
}

/// The values of a round are the greedy values of its positions.
proof fn lemma_value_is_greedy<'a>(
    g: PosGraph<'a, 'a>,
    max: u32,
    sym: PosGraph<'a, 'a>,
    beacons: Seq<usize>,
    beacon_col: Graph<GlobalPos, (), &'a PositionBiMap, GraphMappingSingleNode>,
    unreached: Graph<GlobalPos, (), &'a PositionBiMap, GraphMappingSingleNode>,
    entry_exit: Seq<Vec<u32>>,
    beacon_reachable: Seq<Vec<u32>>,
    value: Seq<u32>,
)
    requires
        links_of(g, max, sym),
        columns_ok(g, max, beacons, beacon_col, unreached),
        round_counts(g, max, sym, beacons, beacon_col, unreached, entry_exit, beacon_reachable, value),
    ensures
        forall|k: int| 0 <= k < g.n_start() ==> #[trigger] value[k] == greedy_value(g, max, beacons, k),
{
    let n = g.n_start();
    assert forall|k: int| 0 <= k < n implies #[trigger] value[k] == greedy_value(g, max, beacons, k) by {
        let p1 = |m: int| sym.edge(k, m) is Some && unreached.edge(m, 0) is Some;
        let q1 = |m: int| linked(g, max, k, m) && !covered(g, max, beacons, m);
        assert forall|m: int| 0 <= m < n implies #[trigger] p1(m) == q1(m) by {
            assert(sym.edge(k, m) is Some <==> linked(g, max, k, m));
            assert(unreached.edge(m, 0) is Some <==> !covered(g, max, beacons, m));
        }
        lemma_count_ext(p1, q1, n);
        let p2 = |m: int| sym.edge(k, m) is Some && beacon_col.edge(m, 0) is Some;
        let q2 = |m: int| linked(g, max, k, m) && beacons.contains(m as usize);
        assert forall|m: int| 0 <= m < n implies #[trigger] p2(m) == q2(m) by {
            assert(sym.edge(k, m) is Some <==> linked(g, max, k, m));
            assert(beacon_col.edge(m, 0) is Some <==> beacons.contains(m as usize));
        }
        lemma_count_ext(p2, q2, n);
    }
}

/// The number of positions that `unreached` marks, among the first `n`.
pub open spec fn n_unreached<'a>(unreached: Graph<GlobalPos, (), &'a PositionBiMap, GraphMappingSingleNode>, n: int) -> int {
    count_where(|k: int| unreached.edge(k, 0) is Some, n)
}

/// The first index of a largest value of `v`.
fn argmax(v: &Vec<u32>) -> (r: usize)
    requires
        v@.len() >= 1,
    ensures
        r < v@.len(),
        forall|k: int| 0 <= k < v@.len() ==> v@[k] <= v@[r as int],
{
    let mut best: usize = 0;
    let mut k: usize = 1;
    while k < v.len()
        invariant
            1 <= k <= v@.len(),
            best < k,
            forall|l: int| 0 <= l < k ==> v@[l] <= v@[best as int],
        decreases v@.len() - k,
    {
        if v[k] > v[best] {
            best = k;
        }
        k = k + 1;
    }
    best
}

/// Beacon and unreached columns agree with `beacons`: a beacon column holds weight zero
/// exactly at the beacons, and an unreached column holds a weight exactly at the positions not
/// linked to a beacon.
pub open spec fn columns_ok<'a>(
    g: PosGraph<'a, 'a>,
    max: u32,
    beacons: Seq<usize>,
    beacon_col: Graph<GlobalPos, (), &'a PositionBiMap, GraphMappingSingleNode>,
    unreached: Graph<GlobalPos, (), &'a PositionBiMap, GraphMappingSingleNode>,
) -> bool {
    let n = g.n_start();
    &&& beacon_col.wf()
    &&& beacon_col.start_map() == g.start_map()
    &&& unreached.wf()
    &&& unreached.start_map() == g.start_map()
    &&& forall|k: int| 0 <= k < n ==> (#[trigger] beacon_col.edge(k, 0) is Some <==> beacons.contains(k as usize))
    &&& forall|k: int| 0 <= k < n ==> #[trigger] beacon_col.edge(k, 0) == None::<u32> || beacon_col.edge(k, 0) == Some(0u32)
    &&& forall|k: int| 0 <= k < n ==> (#[trigger] unreached.edge(k, 0) is Some <==> !covered(g, max, beacons, k))
}

/// The links of `g` within `max`, as edges of `sym`.
pub open spec fn links_of<'a>(g: PosGraph<'a, 'a>, max: u32, sym: PosGraph<'a, 'a>) -> bool {
    let n = g.n_start();
    &&& sym.wf()
    &&& sym.start_map() == g.start_map()
    &&& sym.destination_map() == g.destination_map()
    &&& forall|i: int, j: int| 0 <= i < n && 0 <= j < n ==> (#[trigger] sym.edge(i, j) is Some <==> linked(g, max, i, j))
    &&& forall|i: int, j: int| 0 <= i < n && 0 <= j < n ==> (#[trigger] sym.edge(i, j) == None::<u32> || sym.edge(i, j).unwrap() <= max)
}

/// A set of beacons among the positions of `graph`, chosen greedily until every position is
/// linked to a beacon, where positions count as linked if they have edges both ways of the
/// same weight, at most `max_beacon_dist`: each time, the position linked to the most
/// positions not yet covered, weighted, once there are beacons, by the number of beacons it
/// is linked to, so that each new beacon is linked to an earlier one. Every position must be
/// linked to itself. `None` where the positions are not connected by links.
pub fn find_beacons<'a>(max_beacon_dist: u32, trivial_navigation_graph: &PosGraph<'a, 'a>) -> (r: Option<Vec<usize>>)
    requires
        trivial_navigation_graph.wf(),
        trivial_navigation_graph.start_map().values() == trivial_navigation_graph.destination_map().values(),
        1 <= trivial_navigation_graph.n_start() <= 0xffff,
        forall|i: int|
            0 <= i < trivial_navigation_graph.n_start() ==> #[trigger] trivial_navigation_graph.edge(i, i) == Some(0u32),
    ensures
        ({
            let g = *trivial_navigation_graph;
            let n = g.n_start();
            match r {
                Some(beacons) => {
                    &&& beacons@.len() >= 1
                    &&& forall|b: int| 0 <= b < beacons@.len() ==> (#[trigger] beacons@[b] as int) < n
                    &&& forall|b1: int, b2: int| 0 <= b1 < b2 < beacons@.len() ==> #[trigger] beacons@[b1] != #[trigger] beacons@[b2]
                    &&& forall|k: int| 0 <= k < n ==> #[trigger] covered(g, max_beacon_dist, beacons@, k)
                    &&& forall|b: int| 1 <= b < beacons@.len() ==> #[trigger] covered(g, max_beacon_dist, beacons@.take(b), beacons@[b] as int)
                    &&& forall|b: int| 0 <= b < beacons@.len() ==> #[trigger] greedy_round(g, max_beacon_dist, beacons@, b)
                },
                None => exists|s: Set<int>| #[trigger] separates(g, max_beacon_dist, s),
            }
        }),
{
    let ghost g = *trivial_navigation_graph;
    let positions = *trivial_navigation_graph.get_map_start();
    let n = trivial_navigation_graph.len_start();
    let keep = |_a: GlobalPos, _b: GlobalPos, dist: u32| -> (k: bool)
        ensures
            k == (dist <= max_beacon_dist),
        { dist <= max_beacon_dist };
    let symmetric_graph = trivial_navigation_graph.symmetric_subgraph().keep_edges(keep);
    assert(GraphMappingSingleNode.values().len() == 1);
    let mut unreached_positions = Graph::new_with_edge(positions, GraphMappingSingleNode, 0);
    let mut beacons = Graph::new(positions, GraphMappingSingleNode);
    let mut beacon_indices: Vec<usize> = Vec::new();
    proof {
        assert(links_of(g, max_beacon_dist, symmetric_graph));
        assert(columns_ok(g, max_beacon_dist, beacon_indices@, beacons, unreached_positions));
        assert(unreached_positions.edge(0, 0) is Some);
    }
    loop
        invariant_except_break
            exists|k: int| 0 <= k < n && #[trigger] unreached_positions.edge(k, 0) is Some,
        invariant
            g == *trivial_navigation_graph,
            n == g.n_start() == g.n_destination(),
            1 <= n <= 0xffff,
            g.start_map().values() == g.destination_map().values(),
            forall|i: int| 0 <= i < n ==> #[trigger] g.edge(i, i) == Some(0u32),
            links_of(g, max_beacon_dist, symmetric_graph),
            positions == g.start_map(),
            columns_ok(g, max_beacon_dist, beacon_indices@, beacons, unreached_positions),
            forall|b: int| 0 <= b < beacon_indices@.len() ==> (#[trigger] beacon_indices@[b] as int) < n,
            forall|b1: int, b2: int| 0 <= b1 < b2 < beacon_indices@.len() ==> #[trigger] beacon_indices@[b1] != #[trigger] beacon_indices@[b2],
            forall|b: int| 1 <= b < beacon_indices@.len() ==> #[trigger] covered(g, max_beacon_dist, beacon_indices@.take(b), beacon_indices@[b] as int),
            forall|b: int| 0 <= b < beacon_indices@.len() ==> #[trigger] greedy_round(g, max_beacon_dist, beacon_indices@, b),
        ensures
            beacon_indices@.len() >= 1,
            forall|k: int| 0 <= k < n ==> #[trigger] covered(g, max_beacon_dist, beacon_indices@, k),
        decreases n_unreached(unreached_positions, n as int),
    {
        let ghost b0 = beacon_indices@;
        let ghost unreached0 = unreached_positions;
        let entry_exit = symmetric_graph.count_paths(&unreached_positions);
        let beacon_reachable = symmetric_graph.count_paths(&beacons);
        proof {
            assert forall|k: int| 0 <= k < n implies #[trigger] entry_exit@[k]@[0] <= n && beacon_reachable@[k]@[0] <= n by {
                lemma_count_bounds(|m: int| symmetric_graph.edge(k, m) is Some && unreached_positions.edge(m, 0) is Some, n as int);
                lemma_count_bounds(|m: int| symmetric_graph.edge(k, m) is Some && beacons.edge(m, 0) is Some, n as int);
            }
        }
        let any_beacons = beacon_indices.len() > 0;
        let mut value: Vec<u32> = Vec::new();
        let mut i: usize = 0;
        while i < n
            invariant
                i <= n,
                n <= 0xffff,
                value@.len() == i,
                any_beacons == (beacon_indices@.len() > 0),
                entry_exit@.len() == n,
                beacon_reachable@.len() == n,
                forall|k: int| 0 <= k < n ==> #[trigger] entry_exit@[k]@.len() == 1,
                forall|k: int| 0 <= k < n ==> #[trigger] beacon_reachable@[k]@.len() == 1,
                forall|k: int| 0 <= k < n ==> #[trigger] entry_exit@[k]@[0] <= n && beacon_reachable@[k]@[0] <= n,
                forall|k: int| 0 <= k < i ==> #[trigger] value@[k] == if any_beacons {
                    entry_exit@[k]@[0] * beacon_reachable@[k]@[0]
                } else {
                    entry_exit@[k]@[0] as int
                },
            decreases n - i,
        {
            let e = entry_exit[i][0];
            let v = if any_beacons {
                let b = beacon_reachable[i][0];
                assert(e * b <= 0xffff * 0xffff) by (nonlinear_arith)
                    requires
                        e <= 0xffff,
                        b <= 0xffff,
                ;
                e * b
            } else {
                e
            };
            value.push(v);
            i = i + 1;
        }
        let best_index = argmax(&value);
        proof {
            assert(round_counts(
                g,
                max_beacon_dist,
                symmetric_graph,
                b0,
                beacons,
                unreached_positions,
                entry_exit@,
                beacon_reachable@,
                value@,
            ));
        }
        if value[best_index] == 0 {
            proof {
                lemma_no_progress(g, max_beacon_dist, symmetric_graph, b0, beacons, unreached_positions, entry_exit@, beacon_reachable@, value@);
            }
            return None;
        }
        proof {
            lemma_progress(g, max_beacon_dist, symmetric_graph, b0, beacons, unreached_positions, entry_exit@, beacon_reachable@, value@, best_index as int);
            lemma_value_is_greedy(g, max_beacon_dist, symmetric_graph, b0, beacons, unreached_positions, entry_exit@, beacon_reachable@, value@);
        }
        let ghost unreached_w = choose|k: int| 0 <= k < n && #[trigger] unreached_positions.edge(k, 0) is Some;
        beacon_indices.push(best_index);
        beacons.set(best_index, 0, Some(0));
        let to_unreached = |x: Option<u32>| -> (y: Option<u32>)
            ensures
                y == if x is None {
                    Some(0u32)
                } else {
                    None
                },
            {
                if x.is_none() {
                    Some(0)
                } else {
                    None
                }
            };
        assert(beacons.n_destination() == 1);
        let chained = symmetric_graph.chain(&beacons);
        unreached_positions = chained.map_edges(to_unreached);
        proof {
            assert forall|k: int| 0 <= k < n implies (#[trigger] beacons.edge(k, 0) is Some <==> beacon_indices@.contains(k as usize)) by {
                if k == best_index {
                    assert(beacon_indices@[b0.len() as int] == best_index);
                } else {
                    if beacon_indices@.contains(k as usize) {
                        let b = choose|b: int| 0 <= b < beacon_indices@.len() && beacon_indices@[b] == k as usize;
                        assert(b < b0.len());
                        assert(b0[b] == k as usize);
                    }
                    if b0.contains(k as usize) {
                        let b = choose|b: int| 0 <= b < b0.len() && b0[b] == k as usize;
                        assert(beacon_indices@[b] == k as usize);
                    }
                }
            }
            lemma_new_unreached(g, max_beacon_dist, symmetric_graph, beacon_indices@, beacons, chained, unreached_positions);
            assert(beacon_indices@.take(b0.len() as int) == b0);
            assert forall|b: int| 0 <= b < beacon_indices@.len() implies #[trigger] greedy_round(
                g,
                max_beacon_dist,
                beacon_indices@,
                b,
            ) by {
                if b < b0.len() {
                    assert(beacon_indices@.take(b) =~= b0.take(b));
                    assert(beacon_indices@[b] == b0[b]);
                    assert(greedy_round(g, max_beacon_dist, b0, b));
                } else {
                    let bs = beacon_indices@;
                    assert(bs.take(b) =~= b0);
                    assert(bs[b] == best_index);
                    assert(unreached0.edge(unreached_w, 0) is Some);
                    assert(!covered(g, max_beacon_dist, bs.take(b), unreached_w));
                    assert(value@[best_index as int] > 0);
                    assert(greedy_value(g, max_beacon_dist, bs.take(b), bs[b] as int) == value@[best_index as int]);
                    assert forall|k: int| 0 <= k < n implies #[trigger] greedy_value(g, max_beacon_dist, bs.take(b), k)
                        <= greedy_value(g, max_beacon_dist, bs.take(b), bs[b] as int) by {
                        assert(value@[k] == greedy_value(g, max_beacon_dist, b0, k));
                        assert(value@[k] <= value@[best_index as int]);
                    }
                }
            }
            assert forall|b: int| 1 <= b < beacon_indices@.len() implies #[trigger] covered(g, max_beacon_dist, beacon_indices@.take(b), beacon_indices@[b] as int) by {
                if b < b0.len() {
                    assert(beacon_indices@.take(b) == b0.take(b));
                    assert(beacon_indices@[b] == b0[b]);
                }
            }
            let k0 = choose|k: int| 0 <= k < n && symmetric_graph.edge(best_index as int, k) is Some && unreached0.edge(k, 0) is Some;
            assert(linked(g, max_beacon_dist, k0, best_index as int));
            assert(beacon_indices@[b0.len() as int] == best_index);
            assert(covered(g, max_beacon_dist, beacon_indices@, k0));
            let p_new = |k: int| unreached_positions.edge(k, 0) is Some;
            let p_old = |k: int| unreached0.edge(k, 0) is Some;
            assert forall|k: int| 0 <= k < n && #[trigger] p_new(k) implies p_old(k) by {
                if covered(g, max_beacon_dist, b0, k) {
                    let b = choose|b: int| 0 <= b < b0.len() && #[trigger] linked(g, max_beacon_dist, k, b0[b] as int);
                    assert(beacon_indices@[b] == b0[b]);
                }
            }
            lemma_count_subset(p_new, p_old, n as int, k0);
            lemma_count_bounds(p_new, n as int);
            lemma_count_bounds(p_old, n as int);
            assert(0 <= n_unreached(unreached_positions, n as int) < n_unreached(unreached0, n as int));
        }
        if !unreached_positions.has_edges() {
            proof {
                assert forall|k: int| 0 <= k < n implies #[trigger] covered(g, max_beacon_dist, beacon_indices@, k) by {
                    unreached_positions.lemma_weights(k, 0);
                }
            }
            break;
        }
        proof {
            unreached_positions.lemma_column();
            let w = choose|k: int| 0 <= k < unreached_positions.weights().len() && #[trigger] unreached_positions.weights()[k] is Some;
            assert(unreached_positions.edge(w, 0) is Some);
        }
    }
    Some(beacon_indices)
}

/// The weight counts of a round of the beacon search: `entry_exit` counts the positions not yet
/// covered that each position is linked to, `beacon_reachable` the beacons, and `value` is
/// their product once there are beacons.
pub open spec fn round_counts<'a>(
    g: PosGraph<'a, 'a>,
    max: u32,
    sym: PosGraph<'a, 'a>,
    beacons: Seq<usize>,
    beacon_col: Graph<GlobalPos, (), &'a PositionBiMap, GraphMappingSingleNode>,
    unreached: Graph<GlobalPos, (), &'a PositionBiMap, GraphMappingSingleNode>,
    entry_exit: Seq<Vec<u32>>,
    beacon_reachable: Seq<Vec<u32>>,
    value: Seq<u32>,
) -> bool {
    let n = g.n_start();
    &&& entry_exit.len() == n
    &&& beacon_reachable.len() == n
    &&& value.len() == n
    &&& forall|k: int| 0 <= k < n ==> #[trigger] entry_exit[k]@.len() == 1
    &&& forall|k: int| 0 <= k < n ==> #[trigger] beacon_reachable[k]@.len() == 1
    &&& forall|k: int| 0 <= k < n ==> #[trigger] entry_exit[k]@[0] == count_where(
        |m: int| sym.edge(k, m) is Some && unreached.edge(m, 0) is Some,
        n,
    )
    &&& forall|k: int| 0 <= k < n ==> #[trigger] beacon_reachable[k]@[0] == count_where(
        |m: int| sym.edge(k, m) is Some && beacon_col.edge(m, 0) is Some,
        n,
    )
    &&& forall|k: int| 0 <= k < n ==> #[trigger] value[k] == if beacons.len() > 0 {
        entry_exit[k]@[0] * beacon_reachable[k]@[0]
    } else {
        entry_exit[k]@[0] as int
    }
}

/// A round in which no position has a positive value shows that the positions are not
/// connected by links: those linked to a beacon are linked to none of the others.
proof fn lemma_no_progress<'a>(
    g: PosGraph<'a, 'a>,
    max: u32,
    sym: PosGraph<'a, 'a>,
    beacons: Seq<usize>,
    beacon_col: Graph<GlobalPos, (), &'a PositionBiMap, GraphMappingSingleNode>,
    unreached: Graph<GlobalPos, (), &'a PositionBiMap, GraphMappingSingleNode>,
    entry_exit: Seq<Vec<u32>>,
    beacon_reachable: Seq<Vec<u32>>,
    value: Seq<u32>,
)
    requires
        links_of(g, max, sym),
        columns_ok(g, max, beacons, beacon_col, unreached),
        round_counts(g, max, sym, beacons, beacon_col, unreached, entry_exit, beacon_reachable, value),
        forall|i: int| 0 <= i < g.n_start() ==> #[trigger] g.edge(i, i) == Some(0u32),
        forall|b: int| 0 <= b < beacons.len() ==> (#[trigger] beacons[b] as int) < g.n_start(),
        g.n_start() <= 0xffff,
        exists|k: int| 0 <= k < g.n_start() && #[trigger] unreached.edge(k, 0) is Some,
        forall|k: int| 0 <= k < g.n_start() ==> #[trigger] value[k] == 0,
    ensures
        exists|s: Set<int>| #[trigger] separates(g, max, s),
{
    let n = g.n_start();
    let k = choose|k: int| 0 <= k < n && #[trigger] unreached.edge(k, 0) is Some;
    assert(linked(g, max, k, k));
    if beacons.len() == 0 {
        let p = |m: int| sym.edge(k, m) is Some && unreached.edge(m, 0) is Some;
        assert(p(k));
        lemma_count_bounds(p, n);
        assert(value[k] == entry_exit[k]@[0]);
        assert(false);
    }
    let s = Set::new(|i: int| 0 <= i < n && covered(g, max, beacons, i));
    let b0 = beacons[0] as int;
    assert(linked(g, max, b0, b0));
    assert(covered(g, max, beacons, b0));
    assert(s.contains(b0));
    assert(!s.contains(k));
    assert forall|i: int, j: int|
        0 <= i < n && 0 <= j < n && #[trigger] s.contains(i) && !#[trigger] s.contains(j) implies !linked(g, max, i, j) by {
        if linked(g, max, i, j) {
            let pe = |m: int| sym.edge(i, m) is Some && unreached.edge(m, 0) is Some;
            assert(pe(j));
            lemma_count_bounds(pe, n);
            let b = choose|b: int| 0 <= b < beacons.len() && #[trigger] linked(g, max, i, beacons[b] as int);
            let pb = |m: int| sym.edge(i, m) is Some && beacon_col.edge(m, 0) is Some;
            assert(beacons.contains(beacons[b]));
            assert(pb(beacons[b] as int));
            lemma_count_bounds(pb, n);
            let e = entry_exit[i]@[0];
            let c = beacon_reachable[i]@[0];
            assert(e >= 1 && c >= 1);
            assert(e * c >= 1) by (nonlinear_arith)
                requires
                    e >= 1,
                    c >= 1,
            ;
            assert(value[i] == 0);
        }
    }
    assert(separates(g, max, s));
}

/// The position chosen in a round with a positive value is no beacon yet, is linked to a
/// position not covered yet, and, once there are beacons, to a beacon.
proof fn lemma_progress<'a>(
    g: PosGraph<'a, 'a>,
    max: u32,
    sym: PosGraph<'a, 'a>,
    beacons: Seq<usize>,
    beacon_col: Graph<GlobalPos, (), &'a PositionBiMap, GraphMappingSingleNode>,
    unreached: Graph<GlobalPos, (), &'a PositionBiMap, GraphMappingSingleNode>,
    entry_exit: Seq<Vec<u32>>,
    beacon_reachable: Seq<Vec<u32>>,
    value: Seq<u32>,
    best: int,
)
    requires
        links_of(g, max, sym),
        columns_ok(g, max, beacons, beacon_col, unreached),
        round_counts(g, max, sym, beacons, beacon_col, unreached, entry_exit, beacon_reachable, value),
        0 <= best < g.n_start() <= 0xffff,
        forall|b: int| 0 <= b < beacons.len() ==> (#[trigger] beacons[b] as int) < g.n_start(),
        value[best] > 0,
    ensures
        !beacons.contains(best as usize),
        exists|k: int| 0 <= k < g.n_start() && sym.edge(best, k) is Some && unreached.edge(k, 0) is Some,
        beacons.len() > 0 ==> covered(g, max, beacons, best),
{
    let n = g.n_start();
    let pe = |m: int| sym.edge(best, m) is Some && unreached.edge(m, 0) is Some;
    let pb = |m: int| sym.edge(best, m) is Some && beacon_col.edge(m, 0) is Some;
    lemma_count_bounds(pe, n);
    lemma_count_bounds(pb, n);
    let e = entry_exit[best]@[0];
    let c = beacon_reachable[best]@[0];
    if beacons.len() > 0 {
        assert(value[best] == e * c);
        if e == 0 || c == 0 {
            assert(e * c == 0) by (nonlinear_arith)
                requires
                    e == 0 || c == 0,
            ;
        }
    }
    assert(e > 0);
    let k = choose|k: int| 0 <= k < n && #[trigger] pe(k);
    assert(sym.edge(best, k) is Some && unreached.edge(k, 0) is Some);
    if beacons.contains(best as usize) {
        let b = choose|b: int| 0 <= b < beacons.len() && beacons[b] == best as usize;
        assert(beacons[b] as int == best);
        assert(linked(g, max, k, best));
        assert(linked(g, max, k, beacons[b] as int));
        assert(covered(g, max, beacons, k));
    }
    if beacons.len() > 0 {
        assert(c > 0);
        let m = choose|m: int| 0 <= m < n && #[trigger] pb(m);
        assert(beacons.contains(m as usize));
        let b = choose|b: int| 0 <= b < beacons.len() && beacons[b] == m as usize;
        assert(beacons[b] as int == m);
        assert(linked(g, max, best, beacons[b] as int));
    }
}

/// After adding a beacon, the chained links to the beacons show the positions still not
/// covered.
proof fn lemma_new_unreached<'a>(
    g: PosGraph<'a, 'a>,
    max: u32,
    sym: PosGraph<'a, 'a>,
    beacons: Seq<usize>,
    beacon_col: Graph<GlobalPos, (), &'a PositionBiMap, GraphMappingSingleNode>,
    chained: Graph<GlobalPos, (), &'a PositionBiMap, GraphMappingSingleNode>,
    unreached: Graph<GlobalPos, (), &'a PositionBiMap, GraphMappingSingleNode>,
)
    requires
        links_of(g, max, sym),
        g.n_start() <= 0xffff,
        g.n_start() == g.n_destination(),
        forall|b: int| 0 <= b < beacons.len() ==> (#[trigger] beacons[b] as int) < g.n_start(),
        beacon_col.wf(),
        beacon_col.start_map() == g.start_map(),
        forall|k: int| 0 <= k < g.n_start() ==> (#[trigger] beacon_col.edge(k, 0) is Some <==> beacons.contains(k as usize)),
        forall|k: int| 0 <= k < g.n_start() ==> #[trigger] beacon_col.edge(k, 0) == None::<u32> || beacon_col.edge(k, 0) == Some(0u32),
        chained.wf(),
        chained.start_map() == g.start_map(),
        forall|i: int, j: int|
            0 <= i < chained.n_start() && 0 <= j < chained.n_destination() ==> #[trigger] crate::graph::opt_int(chained.edge(i, j))
                == min_over(|k: int| add_opt(sym.edge(i, k), beacon_col.edge(k, j)), sym.n_destination()),
        unreached.wf(),
        unreached.start_map() == g.start_map(),
        unreached.weights().len() == chained.weights().len(),
        forall|k: int| 0 <= k < chained.weights().len() ==> #[trigger] unreached.weights()[k] == if chained.weights()[k] is None {
            Some(0u32)
        } else {
            None
        },
    ensures
        columns_ok(g, max, beacons, beacon_col, unreached),
{
    let n = g.n_start();
    assert forall|k: int| 0 <= k < n implies (#[trigger] unreached.edge(k, 0) is Some <==> !covered(g, max, beacons, k)) by {
        chained.lemma_weights(k, 0);
        unreached.lemma_weights(k, 0);
        let f = |m: int| add_opt(sym.edge(k, m), beacon_col.edge(m, 0));
        assert(crate::graph::opt_int(chained.edge(k, 0)) == min_over(f, n));
        lemma_min_over_none(f, n);
        if covered(g, max, beacons, k) {
            let b = choose|b: int| 0 <= b < beacons.len() && #[trigger] linked(g, max, k, beacons[b] as int);
            assert(beacons.contains(beacons[b]));
            assert(f(beacons[b] as int) is Some);
        } else {
            assert forall|m: int| 0 <= m < n implies #[trigger] f(m) is None by {
                if f(m) is Some {
                    assert(beacons.contains(m as usize));
                    let b = choose|b: int| 0 <= b < beacons.len() && beacons[b] == m as usize;
                    assert(beacons[b] as int == m);
                    assert(linked(g, max, k, beacons[b] as int));
                }
            }
        }
    }
}

/// The largest count in `counts`, which holds rows of counts; `None` where there is none.
fn max_count(counts: &Vec<Vec<u32>>) -> (r: Option<u32>)
    ensures
        r is None <==> forall|i: int| 0 <= i < counts@.len() ==> (#[trigger] counts@[i])@.len() == 0,
        r matches Some(m) ==> {
            &&& exists|i: int, j: int| 0 <= i < counts@.len() && 0 <= j < counts@[i]@.len() && #[trigger] counts@[i]@[j] == m
            &&& forall|i: int, j: int| 0 <= i < counts@.len() && 0 <= j < counts@[i]@.len() ==> #[trigger] counts@[i]@[j] <= m
        },
{
    let mut best: Option<u32> = None;
    let mut i: usize = 0;
    while i < counts.len()
        invariant
            i <= counts@.len(),
            best is None <==> forall|a: int| 0 <= a < i ==> (#[trigger] counts@[a])@.len() == 0,
            best matches Some(m) ==> {
                &&& exists|a: int, b: int| 0 <= a < i && 0 <= b < counts@[a]@.len() && #[trigger] counts@[a]@[b] == m
                &&& forall|a: int, b: int| 0 <= a < i && 0 <= b < counts@[a]@.len() ==> #[trigger] counts@[a]@[b] <= m
            },
        decreases counts@.len() - i,
    {
        let row = &counts[i];
        let mut j: usize = 0;
        while j < row.len()
            invariant
                i < counts@.len(),
                row@ == counts@[i as int]@,
                j <= row@.len(),
                best is None <==> (forall|a: int| 0 <= a < i ==> (#[trigger] counts@[a])@.len() == 0) && j == 0,
                best matches Some(m) ==> {
                    &&& exists|a: int, b: int|
                        (0 <= a < i && 0 <= b < counts@[a]@.len() || a == i && 0 <= b < j) && #[trigger] counts@[a]@[b] == m
                    &&& forall|a: int, b: int|
                        (0 <= a < i && 0 <= b < counts@[a]@.len() || a == i && 0 <= b < j) ==> #[trigger] counts@[a]@[b] <= m
                },
            decreases row@.len() - j,
        {
            let c = row[j];
            best = match best {
                Some(m) => Some(if c > m { c } else { m }),
                None => Some(c),
            };
            j = j + 1;
        }
        i = i + 1;
    }
    best
}

/// The number of the beacons `beacon_indices` that position `i` has an edge to in `graph`.
pub open spec fn beacons_from<'a>(graph: PosGraph<'a, 'a>, beacon_indices: Seq<usize>, i: int) -> int {
    count_where(|b: int| graph.edge(i, b) is Some && beacon_indices.contains(b as usize), graph.n_destination())
}

/// The number of the beacons `beacon_indices` that have an edge to position `j` in `graph`.
pub open spec fn beacons_to<'a>(graph: PosGraph<'a, 'a>, beacon_indices: Seq<usize>, j: int) -> int {
    count_where(|b: int| beacon_indices.contains(b as usize) && graph.edge(b, j) is Some, graph.n_start())
}

/// Facts about the beacons `beacon_indices` among `positions`, for the trivial navigation graph
/// `graph` between the positions and the graph `beacon_graph` between the beacons: how many
/// beacons a position sees at most, from how many beacons a position is seen at most, how many
/// steps the longest way between beacons takes, and how many beacons there are. `None` where
/// there is no position, or a count does not fit its counter; the beacon graph needs a weight
/// of zero from every beacon to itself.
pub fn get_beacon_info<'a, 'b>(
    beacon_indices: &[usize],
    positions: &'a PositionBiMap,
    graph: &PosGraph<'a, 'a>,
    beacon_graph: &PosGraph<'b, 'b>,
    max_beacon_dist: u32,
) -> (r: Option<BeaconInfo>)
    requires
        graph.wf(),
        graph.start_map().values() == positions.positions(),
        graph.destination_map().values() == positions.positions(),
        positions@.len() <= u32::MAX,
        forall|k: int| 0 <= k < beacon_indices@.len() ==> (#[trigger] beacon_indices@[k] as int) < positions@.len(),
        beacon_graph.wf(),
        beacon_graph.start_map().values() == beacon_graph.destination_map().values(),
        forall|i: int| 0 <= i < beacon_graph.n_start() ==> #[trigger] beacon_graph.edge(i, i) == Some(0u32),
    ensures
        r matches Some(info) ==> {
            &&& info.max_beacon_dist == max_beacon_dist
            &&& info.n_beacons == beacon_indices@.len()
            &&& info.max_path_length >= 1
            &&& exists|i: int| 0 <= i < positions@.len() && #[trigger] beacons_from(*graph, beacon_indices@, i) == info.max_beacons_entry
            &&& forall|i: int| 0 <= i < positions@.len() ==> #[trigger] beacons_from(*graph, beacon_indices@, i) <= info.max_beacons_entry
            &&& exists|j: int| 0 <= j < positions@.len() && #[trigger] beacons_to(*graph, beacon_indices@, j) == info.max_beacons_exit
            &&& forall|j: int| 0 <= j < positions@.len() ==> #[trigger] beacons_to(*graph, beacon_indices@, j) <= info.max_beacons_exit
        },
        positions@.len() == 0 ==> r is None,
        r is Some <==> positions@.len() > 0 && beacon_indices@.len() <= u32::MAX && exists|s: int|
            1 <= s <= u32::MAX && #[trigger] beacon_graph.settles_after(s),
        r matches Some(info) ==> beacon_graph.settles_after(info.max_path_length as int),
{
    let n = positions.len();
    let v = positions.vec();
    assert(v@.map_values(|p: GlobalPos| p@).len() == v@.len());
    assert(positions.positions().len() == n);
    assert(GraphMappingSingleNode.values().len() == 1);
    let mut beacons = Graph::new(positions, GraphMappingSingleNode);
    let mut k: usize = 0;
    while k < beacon_indices.len()
        invariant
            n == positions@.len(),
            n == positions.positions().len(),
            k <= beacon_indices@.len(),
            forall|q: int| 0 <= q < beacon_indices@.len() ==> (#[trigger] beacon_indices@[q] as int) < n,
            beacons.wf(),
            beacons.start_map() == positions,
            beacons.destination_map() == GraphMappingSingleNode,
            forall|b: int| 0 <= b < n ==> (#[trigger] beacons.edge(b, 0) is Some <==> beacon_indices@.take(k as int).contains(b as usize)),
        decreases beacon_indices@.len() - k,
    {
        let index = beacon_indices[k];
        let ghost before = beacons;
        beacons.set(index, 0, Some(0));
        proof {
            assert forall|b: int| 0 <= b < n implies (#[trigger] beacons.edge(b, 0) is Some <==> beacon_indices@.take(k + 1).contains(b as usize)) by {
                assert(beacon_indices@.take(k + 1) == beacon_indices@.take(k as int).push(index));
                if b == index {
                    assert(beacon_indices@.take(k + 1)[k as int] == index);
                } else {
                    if beacon_indices@.take(k + 1).contains(b as usize) {
                        let q = choose|q: int| 0 <= q < k + 1 && #[trigger] beacon_indices@.take(k + 1)[q] == b as usize;
                        assert(beacon_indices@.take(k as int)[q] == b as usize);
                    }
                    if beacon_indices@.take(k as int).contains(b as usize) {
                        let q = choose|q: int| 0 <= q < k && #[trigger] beacon_indices@.take(k as int)[q] == b as usize;
                        assert(beacon_indices@.take(k + 1)[q] == b as usize);
                    }
                }
            }
        }
        k = k + 1;
    }
    proof {
        assert(beacon_indices@.take(k as int) == beacon_indices@);
    }
    let entry = graph.count_paths(&beacons);
    let inverted = beacons.invert_direction();
    let exit = inverted.count_paths(graph);
    let max_beacons_entry = match max_count(&entry) {
        Some(m) => m,
        None => {
            proof {
                if n > 0 {
                    assert(entry@[0]@.len() == 1);
                }
            }
            return None;
        },
    };
    let max_beacons_exit = match max_count(&exit) {
        Some(m) => m,
        None => {
            proof {
                assert(exit@[0]@.len() == n);
            }
            return None;
        },
    };
    let steps = match beacon_graph.all_pairs() {
        Some((_, steps)) => steps,
        None => {
            return None;
        },
    };
    if steps > u32::MAX as usize || beacon_indices.len() > u32::MAX as usize {
        proof {
            if exists|s: int| 1 <= s <= u32::MAX && #[trigger] beacon_graph.settles_after(s) {
                let s = choose|s: int| 1 <= s <= u32::MAX && #[trigger] beacon_graph.settles_after(s);
                beacon_graph.lemma_settles_unique(s, steps as int);
            }
        }
        return None;
    }
    proof {
        assert forall|i: int| 0 <= i < n implies #[trigger] entry@[i]@[0] == beacons_from(*graph, beacon_indices@, i) by {
            assert(entry@[i]@[0] == count_where(|m: int| graph.edge(i, m) is Some && beacons.edge(m, 0) is Some, graph.n_destination()));
            lemma_count_ext(
                |m: int| graph.edge(i, m) is Some && beacons.edge(m, 0) is Some,
                |b: int| graph.edge(i, b) is Some && beacon_indices@.contains(b as usize),
                n as int,
            );
        }
        assert forall|j: int| 0 <= j < n implies #[trigger] exit@[0]@[j] == beacons_to(*graph, beacon_indices@, j) by {
            assert(exit@[0]@[j] == count_where(|m: int| inverted.edge(0, m) is Some && graph.edge(m, j) is Some, inverted.n_destination()));
            lemma_count_ext(
                |m: int| inverted.edge(0, m) is Some && graph.edge(m, j) is Some,
                |b: int| beacon_indices@.contains(b as usize) && graph.edge(b, j) is Some,
                n as int,
            );
        }
        let (a, b) = choose|a: int, b: int| 0 <= a < entry@.len() && 0 <= b < entry@[a]@.len() && #[trigger] entry@[a]@[b] == max_beacons_entry;
        assert(b == 0);
        assert(beacons_from(*graph, beacon_indices@, a) == max_beacons_entry);
        assert forall|i: int| 0 <= i < n implies #[trigger] beacons_from(*graph, beacon_indices@, i) <= max_beacons_entry by {
            assert(entry@[i]@[0] <= max_beacons_entry);
        }
        let (a2, b2) = choose|a: int, b: int| 0 <= a < exit@.len() && 0 <= b < exit@[a]@.len() && #[trigger] exit@[a]@[b] == max_beacons_exit;
        assert(a2 == 0);
        assert(beacons_to(*graph, beacon_indices@, b2) == max_beacons_exit);
        assert forall|j: int| 0 <= j < n implies #[trigger] beacons_to(*graph, beacon_indices@, j) <= max_beacons_exit by {
            assert(exit@[0]@[j] <= max_beacons_exit);
        }
    }
    Some(
        BeaconInfo {
            max_beacon_dist,
            max_beacons_entry,
            max_beacons_exit,
            max_path_length: steps as u32,
            n_beacons: beacon_indices.len() as u32,
        },
    )
}

/// A count reaches the number of indices exactly where every index counts.
proof fn lemma_count_full(p: spec_fn(int) -> bool, n: int)
    requires
        0 <= n,
    ensures
        count_where(p, n) == n <==> forall|k: int| 0 <= k < n ==> #[trigger] p(k),
    decreases n,
{
    if n > 0 {
        lemma_count_full(p, n - 1);
        lemma_count_bounds(p, n - 1);
        if count_where(p, n) == n {
            assert forall|k: int| 0 <= k < n implies #[trigger] p(k) by {
                if k < n - 1 {
                }
            }
        }
    }
}

/// Position `hub` is linked to every position of `g`.
pub open spec fn links_all<'a>(g: PosGraph<'a, 'a>, max: u32, hub: int) -> bool {
    forall|m: int| 0 <= m < g.n_start() ==> #[trigger] linked(g, max, hub, m)
}

/// The greedy beacon choice: in every round the chosen beacon is worth at least as much as
/// any position (the uncovered positions it is linked to, times the beacons it is linked to
/// once there are beacons), and where one position is linked to every position, that one
/// beacon covers everything and no second round is played.
pub proof fn law_greedy_beacons<'a>(g: PosGraph<'a, 'a>, max: u32, bs: Seq<usize>)
    requires
        forall|b: int| 0 <= b < bs.len() ==> #[trigger] greedy_round(g, max, bs, b),
    ensures
        forall|b: int, k: int|
            0 <= b < bs.len() && 0 <= k < g.n_start() ==> #[trigger] greedy_value(g, max, bs.take(b), k)
                <= greedy_value(g, max, bs.take(b), bs[b] as int),
        (exists|hub: int| 0 <= hub < g.n_start() && #[trigger] links_all(g, max, hub)) ==> bs.len() <= 1,
{
    assert forall|b: int, k: int| 0 <= b < bs.len() && 0 <= k < g.n_start() implies #[trigger] greedy_value(
        g,
        max,
        bs.take(b),
        k,
    ) <= greedy_value(g, max, bs.take(b), bs[b] as int) by {
        assert(greedy_round(g, max, bs, b));
    }
    let n = g.n_start();
    if (exists|hub: int| 0 <= hub < n && #[trigger] links_all(g, max, hub)) && bs.len() > 1 {
        let hub = choose|hub: int| 0 <= hub < n && #[trigger] links_all(g, max, hub);
        let e = bs.take(0);
        assert(e.len() == 0);
        assert(greedy_round(g, max, bs, 0));
        assert(greedy_round(g, max, bs, 1));
        let first = bs[0] as int;
        let ph = |m: int| linked(g, max, hub, m) && !covered(g, max, e, m);
        let pf = |m: int| linked(g, max, first, m) && !covered(g, max, e, m);
        assert forall|k: int| 0 <= k < n implies #[trigger] ph(k) by {
            assert(linked(g, max, hub, k));
        }
        lemma_count_full(ph, n);
        lemma_count_bounds(pf, n);
        assert(greedy_value(g, max, e, hub) == n);
        assert(greedy_value(g, max, e, first) >= n);
        lemma_count_full(pf, n);
        let t1 = bs.take(1);
        assert(t1.len() == 1 && t1[0] == bs[0]);
        let m = choose|m: int| 0 <= m < n && !#[trigger] covered(g, max, t1, m);
        assert(pf(m));
        assert(linked(g, max, m, t1[0] as int));
    }
}

/// Counts agree where the counted indices agree.
proof fn lemma_count_ext(p: spec_fn(int) -> bool, q: spec_fn(int) -> bool, n: int)
    requires
        forall|k: int| 0 <= k < n ==> #[trigger] p(k) == q(k),
    ensures
        count_where(p, n) == count_where(q, n),
    decreases n,
{
    if n > 0 {
        lemma_count_ext(p, q, n - 1);
    }
}

} // verus!
