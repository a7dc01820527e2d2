use async_kartoffel::{
    get_trivial_navigables, pos_east_south, GlobalPos, IncompleteMap, MapError, MapSection,
    TerrainMap, TrueMap, TrueMapImpl,
};

fn lines(rows: &[&str]) -> Vec<String> {
    rows.iter().map(|r| r.to_string()).collect()
}

fn ring_map() -> TerrainMap {
    TerrainMap::from_lines(&lines(&["#####", "#...#", "#.#.#", "#...#", "#####"])).unwrap()
}

fn coords(p: GlobalPos) -> (i16, i16) {
    let v = p.subtract_anchor();
    (v.east(), v.south())
}

#[test]
fn map_from_lines_reads_walkable_tiles() {
    let map = ring_map();
    assert_eq!(map.width, 5);
    assert_eq!(map.height, 5);
    assert_eq!(map.n_walkable(), 8);
    assert!(map.get(pos_east_south(1, 1)));
    assert!(!map.get(pos_east_south(2, 2)));
    assert!(!map.get(pos_east_south(0, 0)));
    // outside the map nothing is walkable
    assert!(!map.get(pos_east_south(7, 1)));
    assert!(!map.get(pos_east_south(-1, 1)));
}

#[test]
fn map_from_lines_errors() {
    assert_eq!(TerrainMap::from_lines(&[]).unwrap_err(), MapError::NoLines);
    assert!(matches!(
        TerrainMap::from_lines(&lines(&["###", "##"])),
        Err(MapError::LineLength { line: 1, expected: 3, found: 2 })
    ));
    assert_eq!(
        TerrainMap::from_lines(&lines(&["#.x"])).unwrap_err(),
        MapError::UnknownChar('x')
    );
}

#[test]
fn map_set_and_new_like() {
    let mut map = ring_map();
    assert_eq!(map.set(pos_east_south(2, 2), true), Ok(()));
    assert!(map.get(pos_east_south(2, 2)));
    assert_eq!(map.n_walkable(), 9);
    assert_eq!(map.set(pos_east_south(5, 0), true), Err(MapError::OutOfBounds));
    let empty = map.new_like();
    assert_eq!((empty.width, empty.height), (5, 5));
    assert_eq!(empty.n_walkable(), 0);
}

#[test]
fn walkable_positions_column_by_column() {
    let map = ring_map();
    let positions = map.walkable_positions();
    assert_eq!(positions.len(), 8);
    assert!(!positions.is_empty());
    let found: Vec<(i16, i16)> = positions.vec().iter().map(|p| coords(*p)).collect();
    assert_eq!(
        found,
        vec![(1, 1), (1, 2), (1, 3), (2, 1), (2, 3), (3, 1), (3, 2), (3, 3)]
    );
    assert_eq!(positions.index_of(pos_east_south(3, 2)), Some(6));
    assert_eq!(positions.index_of(pos_east_south(2, 2)), None);
    let sub = positions.subset(&[7, 0]);
    assert_eq!(sub.len(), 2);
    assert_eq!(coords(sub.vec()[0]), (3, 3));
    assert_eq!(coords(sub.vec()[1]), (1, 1));
}

#[test]
fn incomplete_maps_combine() {
    let a = IncompleteMap::from_lines(&lines(&["#\u{2192}.", "..#"])).unwrap();
    let b = IncompleteMap::from_lines(&lines(&["#..", "\u{2191}.#"])).unwrap();
    assert_eq!(a.tiles[1], None);
    assert_eq!(a.tiles[2], Some(true));
    let map = TerrainMap::from_imcomplete_maps(&[a, b]).unwrap();
    assert_eq!(map.tiles, vec![false, true, true, true, true, false]);
}

#[test]
fn incomplete_maps_errors() {
    assert_eq!(TerrainMap::from_imcomplete_maps(&[]).unwrap_err(), MapError::NoMaps);
    let a = IncompleteMap::from_lines(&lines(&["#.", ".."])).unwrap();
    let b = IncompleteMap::from_lines(&lines(&["#."])).unwrap();
    assert_eq!(TerrainMap::from_imcomplete_maps(&[a, b]).unwrap_err(), MapError::HeightMismatch);
    let a = IncompleteMap::from_lines(&lines(&["#."])).unwrap();
    let b = IncompleteMap::from_lines(&lines(&["#.."])).unwrap();
    assert_eq!(TerrainMap::from_imcomplete_maps(&[a, b]).unwrap_err(), MapError::WidthMismatch);
    let a = IncompleteMap::from_lines(&lines(&["#."])).unwrap();
    let b = IncompleteMap::from_lines(&lines(&["##"])).unwrap();
    assert_eq!(TerrainMap::from_imcomplete_maps(&[a, b]).unwrap_err(), MapError::Conflict);
    let a = IncompleteMap::from_lines(&lines(&["#.", "\u{2190}."])).unwrap();
    assert_eq!(
        TerrainMap::from_imcomplete_maps(&[a]).unwrap_err(),
        MapError::Incomplete { line: 2, col: 1 }
    );
    let short = IncompleteMap { tiles: vec![None], width: 2, height: 1 };
    assert_eq!(
        TerrainMap::from_imcomplete_maps(&[short]).unwrap_err(),
        MapError::LengthMismatch
    );
}

#[test]
fn builder_bits_read_back_through_true_map() {
    let map = ring_map();
    let builder = map.builder();
    assert_eq!(builder.width(), 5);
    assert_eq!(builder.height(), 5);
    assert_eq!(builder.data().len(), 4);
    assert_eq!(builder.type_string(), "::kartoffel_gps::map::TrueMapImpl<5, 5, 4>");
    let mut store = [0u8; 4];
    store.copy_from_slice(builder.data());
    let true_map: TrueMapImpl<5, 5, 4> = TrueMapImpl(store);
    assert_eq!(true_map.width(), 5);
    assert_eq!(true_map.height(), 5);
    for south in 0..5 {
        for east in 0..5 {
            let p = pos_east_south(east, south);
            assert_eq!(true_map.get(p), map.get(p));
        }
    }
    // row 1 holds tiles 5..10, walkable at 6, 7, 8: the bits of byte 0 are 6 and 7
    assert_eq!(builder.data()[0], 0b1100_0000);
}

#[test]
fn trivial_navigables_of_open_ring() {
    let map = ring_map();
    let mut found: Vec<(i16, i16)> = get_trivial_navigables(&map, pos_east_south(1, 1))
        .into_iter()
        .map(coords)
        .collect();
    found.sort();
    found.dedup();
    // every walkable tile of the ring reaches the corner by a trivial path
    assert_eq!(
        found,
        vec![(1, 1), (1, 2), (1, 3), (2, 1), (2, 3), (3, 1), (3, 2), (3, 3)]
    );
}

#[test]
fn get_chunks_groups_equal_surroundings() {
    // A corridor: each of its tiles sees something else within one step.
    let map = TerrainMap::from_lines(&lines(&["#####", "#...#", "#####"])).unwrap();
    let chunks = map.get_chunks::<MapSection<3>>();
    assert_eq!(chunks.len(), 3);
    let counts: Vec<usize> = chunks.iter().map(|(_, l)| l.len()).collect();
    assert_eq!(counts, vec![1, 1, 1]);
    let firsts: Vec<GlobalPos> = chunks.iter().map(|(_, l)| l[0]).collect();
    assert_eq!(firsts, vec![pos_east_south(1, 1), pos_east_south(2, 1), pos_east_south(3, 1)]);
    assert_eq!(chunks[0].0, map.get_chunk::<MapSection<3>>(pos_east_south(1, 1)));
}

#[test]
fn get_chunks_merges_repeated_patterns() {
    let map = TerrainMap::from_lines(&lines(&["#######", "#.#.#.#", "#######"])).unwrap();
    let chunks = map.get_chunks::<MapSection<3>>();
    assert_eq!(chunks.len(), 1);
    assert_eq!(chunks[0].1, vec![pos_east_south(1, 1), pos_east_south(3, 1), pos_east_south(5, 1)]);
    let (unique, total) = map.unique_chunks::<MapSection<3>>();
    assert!(unique.is_empty());
    assert_eq!(total, 3);
}

#[test]
fn unique_chunks_keeps_single_tiles() {
    let map = TerrainMap::from_lines(&lines(&["#######", "#.#...#", "#######"])).unwrap();
    let (unique, total) = map.unique_chunks::<MapSection<3>>();
    assert_eq!(total, 4);
    let mut places: Vec<(i16, i16)> = unique
        .iter()
        .map(|(_, p)| {
            let v = p.subtract_anchor();
            (v.east(), v.south())
        })
        .collect();
    places.sort();
    assert_eq!(places, vec![(1, 1), (3, 1), (4, 1), (5, 1)]);
}

#[test]
fn to_lines_renders_the_map() {
    let rows = ["#####", "#...#", "#.#.#", "#...#", "#####"];
    let map = ring_map();
    let text = map.to_lines();
    let expected: Vec<String> = rows.iter().map(|r| r.to_string()).collect();
    assert_eq!(text, expected);
    assert_eq!(TerrainMap::from_lines(&text).unwrap().to_lines(), expected);
}
