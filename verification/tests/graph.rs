use async_kartoffel::graph::{Graph, GraphMapping, GraphMappingSingleNode};
use async_kartoffel::{
    build_trivial_navigation_graph, find_beacons, get_beacon_info, pos_east_south, ConstSparseGraphBuilder,
    PositionBiMap, TerrainMap,
};

fn lines(rows: &[&str]) -> Vec<String> {
    rows.iter().map(|r| r.to_string()).collect()
}

/// A straight corridor of three tiles, west to east.
fn corridor() -> TerrainMap {
    TerrainMap::from_lines(&lines(&["..."])).unwrap()
}

/// A ring around a wall: every tile still reaches the opposite corner whichever way it turns.
fn ring() -> TerrainMap {
    TerrainMap::from_lines(&lines(&["...", ".#.", "..."])).unwrap()
}

/// A U: the bottom ends see each other only over the top.
fn u_shape() -> TerrainMap {
    TerrainMap::from_lines(&lines(&["...", ".#.", ".#."])).unwrap()
}

fn leak(p: PositionBiMap) -> &'static PositionBiMap {
    Box::leak(Box::new(p))
}

#[test]
fn corridor_graph_has_manhattan_weights() {
    let map = corridor();
    let positions = leak(map.walkable_positions());
    assert_eq!(positions.len(), 3);
    let graph = build_trivial_navigation_graph(&map, positions);
    assert_eq!(graph.len_start(), 3);
    assert_eq!(graph.len_destination(), 3);
    for i in 0..3usize {
        for j in 0..3usize {
            let d = if i > j { i - j } else { j - i };
            assert_eq!(graph.get(i, j), Some(d as u32));
        }
    }
    assert!(graph.fully_connected());
    assert_eq!(graph.count_edges(), 9);
    assert_eq!(graph.max_weight(), Some(2));
    assert_eq!(graph.min_weight(), Some(0));
}

#[test]
fn ring_graph_reaches_opposite_corners() {
    let map = ring();
    let positions = leak(map.walkable_positions());
    assert_eq!(positions.len(), 8);
    let graph = build_trivial_navigation_graph(&map, positions);
    let nw = positions.index_of(pos_east_south(0, 0)).unwrap();
    let se = positions.index_of(pos_east_south(2, 2)).unwrap();
    let ne = positions.index_of(pos_east_south(2, 0)).unwrap();
    assert_eq!(graph.get(nw, se), Some(4));
    assert_eq!(graph.get(nw, ne), Some(2));
}

#[test]
fn u_graph_misses_the_other_end() {
    let map = u_shape();
    let positions = leak(map.walkable_positions());
    assert_eq!(positions.len(), 7);
    let graph = build_trivial_navigation_graph(&map, positions);
    let sw = positions.index_of(pos_east_south(0, 2)).unwrap();
    let se = positions.index_of(pos_east_south(2, 2)).unwrap();
    let nw = positions.index_of(pos_east_south(0, 0)).unwrap();
    assert_eq!(graph.get(sw, se), None);
    assert_eq!(graph.get(se, sw), None);
    assert_eq!(graph.get(sw, nw), Some(2));
    assert!(!graph.fully_connected());
}

#[test]
fn keep_edges_filters_by_weight() {
    let map = corridor();
    let positions = leak(map.walkable_positions());
    let graph = build_trivial_navigation_graph(&map, positions);
    let near = graph.keep_edges(|_, _, d| d <= 1);
    assert_eq!(near.get(0, 1), Some(1));
    assert_eq!(near.get(0, 2), None);
    assert_eq!(near.get(2, 0), None);
    assert_eq!(near.count_edges(), 7);
}

#[test]
fn symmetric_subgraph_drops_one_way_edges() {
    let map = corridor();
    let positions = leak(map.walkable_positions());
    let mut graph = build_trivial_navigation_graph(&map, positions);
    graph.remove_edge(0, 2);
    graph.set(1, 2, Some(5));
    let sym = graph.symmetric_subgraph();
    assert_eq!(sym.get(0, 2), None);
    assert_eq!(sym.get(2, 0), None);
    assert_eq!(sym.get(1, 2), None);
    assert_eq!(sym.get(0, 1), Some(1));
    assert_eq!(sym.get(1, 1), Some(0));
}

#[test]
fn invert_and_map_edges() {
    let map = corridor();
    let positions = leak(map.walkable_positions());
    let mut graph = build_trivial_navigation_graph(&map, positions);
    graph.set(0, 2, Some(7));
    let inverted = graph.invert_direction();
    assert_eq!(inverted.get(2, 0), Some(7));
    assert_eq!(inverted.get(0, 2), Some(2));
    let bumped = graph.map_edges(|w| match w {
        Some(x) if x < 100 => Some(x + 1),
        _ => None,
    });
    assert_eq!(bumped.get(0, 2), Some(8));
    assert_eq!(bumped.get(1, 1), Some(1));
    let cleared = graph.map_edges(|_| None);
    assert!(!cleared.has_edges());
    assert_eq!(cleared.max_weight(), None);
}

#[test]
fn chain_takes_shortest_sums() {
    let map = corridor();
    let positions = leak(map.walkable_positions());
    let mut graph = build_trivial_navigation_graph(&map, positions);
    graph.set(0, 2, Some(9));
    let twice = graph.chain(&graph);
    assert_eq!(twice.get(0, 2), Some(2));
    assert_eq!(twice.get(0, 0), Some(0));
    let mut gap = build_trivial_navigation_graph(&map, positions).map_edges(|_| None);
    gap.set(0, 1, Some(3));
    gap.set(1, 2, Some(4));
    let two_steps = gap.chain(&gap);
    assert_eq!(two_steps.get(0, 2), Some(7));
    assert_eq!(two_steps.get(0, 1), None);
}

#[test]
fn count_paths_counts_middles() {
    let map = corridor();
    let positions = leak(map.walkable_positions());
    let graph = build_trivial_navigation_graph(&map, positions);
    let mut marked = Graph::new(positions, GraphMappingSingleNode);
    marked.set(0, 0, Some(0));
    marked.set(2, 0, Some(0));
    let counts = graph.count_paths(&marked);
    assert_eq!(counts, vec![vec![2], vec![2], vec![2]]);
    let all = Graph::new_with_edge(positions, GraphMappingSingleNode, 0);
    assert_eq!(graph.count_paths(&all), vec![vec![3], vec![3], vec![3]]);
}

#[test]
fn all_pairs_reaches_a_fixpoint() {
    let map = corridor();
    let positions = leak(map.walkable_positions());
    let mut path = build_trivial_navigation_graph(&map, positions).map_edges(|_| None);
    for i in 0..3usize {
        path.set(i, i, Some(0));
    }
    path.set(0, 1, Some(1));
    path.set(1, 2, Some(1));
    let (closure, steps) = path.all_pairs().unwrap();
    assert_eq!(closure.get(0, 2), Some(2));
    assert_eq!(closure.get(2, 0), None);
    assert_eq!(steps, 2);
    let (same, one) = closure.all_pairs().unwrap();
    assert!(same.same_as(&closure));
    assert_eq!(one, 1);
}

#[test]
fn sub_graph_selects_indices() {
    let map = corridor();
    let positions = leak(map.walkable_positions());
    let graph = build_trivial_navigation_graph(&map, positions);
    let ends = leak(positions.subset(&[0, 2]));
    let sub = graph.sub_graph(ends, ends);
    assert_eq!(sub.len_start(), 2);
    assert_eq!(sub.get(0, 1), Some(2));
    assert_eq!(sub.get(1, 1), Some(0));
    assert!(ends.equals(&ends));
    assert_eq!(GraphMapping::len(&ends), 2);
}

#[test]
fn corridor_needs_one_beacon() {
    let map = corridor();
    let positions = leak(map.walkable_positions());
    let graph = build_trivial_navigation_graph(&map, positions);
    let beacons = find_beacons(2, &graph).unwrap();
    assert_eq!(beacons.len(), 1);
    assert_eq!(beacons, vec![0]);
}

#[test]
fn short_range_beacons_cover_the_ring() {
    let map = ring();
    let positions = leak(map.walkable_positions());
    let graph = build_trivial_navigation_graph(&map, positions);
    let beacons = find_beacons(1, &graph).unwrap();
    assert!(beacons.len() >= 2);
    let mut sorted = beacons.clone();
    sorted.sort();
    sorted.dedup();
    assert_eq!(sorted.len(), beacons.len());
}

#[test]
fn disconnected_map_has_no_beacon_graph() {
    let map = TerrainMap::from_lines(&lines(&[".#."])).unwrap();
    let positions = leak(map.walkable_positions());
    let graph = build_trivial_navigation_graph(&map, positions);
    assert_eq!(find_beacons(5, &graph), None);
}

#[test]
fn beacon_info_counts_beacons_in_sight() {
    let map = corridor();
    let positions = leak(map.walkable_positions());
    let graph = build_trivial_navigation_graph(&map, positions);
    let beacons = find_beacons(2, &graph).unwrap();
    let beacon_positions = leak(positions.subset(&beacons));
    let beacon_graph = graph.sub_graph(beacon_positions, beacon_positions);
    let info = get_beacon_info(&beacons, positions, &graph, &beacon_graph, 2).unwrap();
    assert_eq!(info.max_beacon_dist, 2);
    assert_eq!(info.n_beacons, 1);
    assert_eq!(info.max_beacons_entry, 1);
    assert_eq!(info.max_beacons_exit, 1);
    assert_eq!(info.max_path_length, 1);
}

#[test]
fn builder_from_corridor_graph() {
    let map = corridor();
    let positions = leak(map.walkable_positions());
    let graph = build_trivial_navigation_graph(&map, positions);
    let builder = ConstSparseGraphBuilder::from_graph(&graph);
    assert!(builder.is_valid());
    assert_eq!(builder.nodes().len(), 3);
    assert_eq!(builder.data().len(), 18);
}
