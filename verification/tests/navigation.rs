use async_kartoffel::{
    is_navigation_trivial, pos_east_south, ConstSparseGraph, ConstSparseGraphBuilder,
    ConstSparseGraphNode, GlobalPos, Graph, Navigator, NavigatorEnum, NavigatorError,
    NavigatorResourcesImpl, TerrainMap, TrueMapImpl,
};

type Map5 = TrueMapImpl<5, 5, 4>;

/// A ring with a wall in the middle of its lower half: the bottom corners see each other
/// only over the top.
fn u_map() -> &'static Map5 {
    let lines: Vec<String> = ["#####", "#...#", "#.#.#", "#.#.#", "#####"]
        .iter()
        .map(|r| r.to_string())
        .collect();
    let map = TerrainMap::from_lines(&lines).unwrap();
    let builder = map.builder();
    let mut store = [0u8; 4];
    store.copy_from_slice(builder.data());
    Box::leak(Box::new(TrueMapImpl(store)))
}

fn two_beacon_graph() -> &'static ConstSparseGraph<2, 4> {
    let mut builder = ConstSparseGraphBuilder::new();
    builder.add_node(&[1], &[1]);
    builder.add_node(&[0], &[0]);
    assert!(builder.is_valid());
    let nodes: [ConstSparseGraphNode; 2] = builder.nodes().try_into().unwrap();
    let data: [u16; 4] = builder.data().try_into().unwrap();
    Box::leak(Box::new(ConstSparseGraph { nodes, data }))
}

fn coords(p: GlobalPos) -> (i16, i16) {
    let v = p.subtract_anchor();
    (v.east(), v.south())
}

type Res2 = NavigatorResourcesImpl<8, 4, 64, 4, 16, Map5, ConstSparseGraph<2, 4>>;

fn resources() -> Res2 {
    let beacons: &'static [GlobalPos] =
        Box::leak(vec![pos_east_south(1, 1), pos_east_south(3, 1)].into_boxed_slice());
    NavigatorResourcesImpl::new(u_map(), two_beacon_graph(), beacons, 8)
}

#[test]
fn graph_builder_lists() {
    let graph = two_beacon_graph();
    assert_eq!(graph.size(), 2);
    assert_eq!(graph.after(0), &[1]);
    assert_eq!(graph.before(1), &[0]);
    let mut builder = ConstSparseGraphBuilder::new();
    builder.add_node(&[1], &[1, 2]);
    builder.add_node(&[0], &[0]);
    // node 2 is listed but never added
    assert!(!builder.is_valid());
    assert_eq!(builder.data(), &[1, 1, 2, 0, 0]);
    builder.add_node(&[0], &[1]);
    assert!(builder.is_valid());
    assert_eq!(builder.type_string(), "::kartoffel_gps::const_graph::ConstSparseGraph<3, 7>");
    let starts: Vec<(u16, u16, u16)> =
        builder.nodes().iter().map(|n| (n.start, n.mid, n.end)).collect();
    assert_eq!(starts, vec![(0, 1, 3), (3, 4, 5), (5, 6, 7)]);
}

#[test]
fn trivial_navigation_on_u_map() {
    let map = u_map();
    // straight along a free column
    assert_eq!(is_navigation_trivial::<64, _>(map, pos_east_south(1, 3), pos_east_south(1, 1)), Ok(true));
    // the wall blocks the direct way between the bottom corners
    assert_eq!(is_navigation_trivial::<64, _>(map, pos_east_south(1, 3), pos_east_south(3, 3)), Ok(false));
    // from a bottom corner to the opposite top corner every greedy walk succeeds
    assert_eq!(is_navigation_trivial::<64, _>(map, pos_east_south(1, 3), pos_east_south(3, 1)), Ok(true));
    // from the top corner down to the opposite bottom corner a bot may get stuck
    assert_eq!(is_navigation_trivial::<64, _>(map, pos_east_south(1, 1), pos_east_south(3, 3)), Ok(false));
}

#[test]
fn navigator_routes_over_the_top() {
    let nav = Navigator::new(resources())
        .set_destination(pos_east_south(3, 3))
        .set_start(pos_east_south(1, 3));
    let ready = match nav.compute() {
        Ok(ready) => ready,
        Err(failed) => panic!("navigation failed: {:?}", failed.get_error()),
    };
    assert_eq!(ready.get_beacons(), &[1]);
    assert_eq!(coords(ready.next_trivial_target()), (3, 1));
    assert!(!ready.is_completed());
    assert_eq!(coords(ready.get_start()), (1, 3));
    assert_eq!(coords(ready.get_destination()), (3, 3));
}

#[test]
fn navigator_trivial_route_needs_no_beacon() {
    let nav = Navigator::new(resources())
        .set_start(pos_east_south(1, 3))
        .set_destination(pos_east_south(1, 1));
    let ready = nav.compute().ok().unwrap();
    assert!(ready.get_beacons().is_empty());
    assert_eq!(coords(ready.next_trivial_target()), (1, 1));
}

#[test]
fn navigator_without_connection_fails() {
    let graph: &'static ConstSparseGraph<1, 0> = Box::leak(Box::new(ConstSparseGraph {
        nodes: [ConstSparseGraphNode { start: 0, mid: 0, end: 0 }],
        data: [],
    }));
    let beacons: &'static [GlobalPos] = Box::leak(vec![pos_east_south(1, 1)].into_boxed_slice());
    let res: NavigatorResourcesImpl<8, 4, 64, 4, 16, Map5, ConstSparseGraph<1, 0>> =
        NavigatorResourcesImpl::new(u_map(), graph, beacons, 8);
    let nav = Navigator::new(res)
        .set_start(pos_east_south(1, 3))
        .set_destination(pos_east_south(3, 3));
    match nav.compute() {
        Ok(_) => panic!("no route exists"),
        Err(failed) => assert_eq!(failed.get_error(), NavigatorError::NavigationImpossible),
    }
}

#[test]
fn navigator_enum_walks_through_states() {
    let mut nav = NavigatorEnum::New(Navigator::new(resources()));
    assert_eq!(nav.try_get_start(), None);
    nav.set_start(pos_east_south(1, 3));
    nav.set_destination(pos_east_south(3, 3));
    assert!(nav.try_compute());
    assert_eq!(nav.try_get_beacons(), Some(&[1u16][..]));
    assert_eq!(nav.try_next_trivial_target().map(coords), Some((3, 1)));
    assert_eq!(nav.try_get_error(), None);
    nav.reset();
    assert_eq!(nav.try_get_destination(), None);
}

#[test]
fn navigator_path_lists_beacons_from_the_exit_back() {
    // three columns and two rows; only the middle of the upper row is a wall
    let map: &'static TrueMapImpl<3, 2, 1> = Box::leak(Box::new(TrueMapImpl([0b0011_1101])));
    let graph: &'static ConstSparseGraph<2, 2> = Box::leak(Box::new(ConstSparseGraph {
        nodes: [
            ConstSparseGraphNode { start: 0, mid: 0, end: 1 },
            ConstSparseGraphNode { start: 1, mid: 2, end: 2 },
        ],
        data: [1, 0],
    }));
    assert_eq!(graph.after(0), &[1]);
    assert_eq!(graph.after(1), &[] as &[u16]);
    let beacons: &'static [GlobalPos] =
        Box::leak(vec![pos_east_south(0, 1), pos_east_south(2, 1)].into_boxed_slice());
    let res: NavigatorResourcesImpl<8, 4, 64, 4, 16, TrueMapImpl<3, 2, 1>, ConstSparseGraph<2, 2>> =
        NavigatorResourcesImpl::new(map, graph, beacons, 1);
    let nav = Navigator::new(res)
        .set_start(pos_east_south(0, 0))
        .set_destination(pos_east_south(2, 0));
    let ready = match nav.compute() {
        Ok(ready) => ready,
        Err(failed) => panic!("navigation failed: {:?}", failed.get_error()),
    };
    assert_eq!(ready.get_beacons(), &[1, 0]);
    assert_eq!(coords(ready.next_trivial_target()), (0, 1));
}
