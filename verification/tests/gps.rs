use async_kartoffel::{
    pos_east_south, Direction, MapSection, MapSectionTrait, OutOfBounds,
    RadarScan, TerrainMap, Vec2, D3,
};

#[test]
fn section_get_and_set() {
    let mut s = MapSection::<3>::empty();
    assert_eq!(s.get(Vec2::zero()), Ok(false));
    assert_eq!(s.set(Vec2::new_east(1), true), Ok(()));
    assert_eq!(s.get(Vec2::new_east(1)), Ok(true));
    assert_eq!(s.get(Vec2::new_west(1)), Ok(false));
    assert_eq!(s.get(Vec2::new_east(2)), Err(OutOfBounds));
    assert_eq!(s.set(Vec2::new_south(2), true), Err(OutOfBounds));
    assert!(!s.at_center());
}

#[test]
fn compress_needs_a_walkable_center() {
    let mut s = MapSection::<3>::empty();
    s.set(Vec2::new_east(1), true).unwrap();
    assert_eq!(s.compress(), None);
    s.set(Vec2::zero(), true).unwrap();
    assert!(s.at_center());
    // east of the center: (1 + 1) * 3 + (0 + 1) = 7, minus the center: bit 6
    assert_eq!(s.compress(), Some([0b0100_0000]));
    s.set(Vec2::new_north(1), true).unwrap();
    // north of the center: (0 + 1) * 3 + (1 + 1) = 5, minus the center: bit 4
    assert_eq!(s.compress(), Some([0b0101_0000]));
}

#[test]
fn compress_roundtrip_on_every_size() {
    let f = |v: Vec2<async_kartoffel::Global>| (v.east() + 2 * v.south()).rem_euclid(3) == 0;
    let s3 = MapSection::<3>::from_function(f);
    assert_eq!(MapSection::<3>::from_compressed(s3.compress().unwrap()), s3);
    let s5 = MapSection::<5>::from_function(f);
    assert_eq!(MapSection::<5>::from_compressed(s5.compress().unwrap()), s5);
    let s7 = MapSection::<7>::from_function(f);
    assert_eq!(MapSection::<7>::from_compressed(s7.compress().unwrap()), s7);
    let s9 = MapSection::<9>::from_function(f);
    assert_eq!(MapSection::<9>::from_compressed(s9.compress().unwrap()), s9);
    assert_eq!(MapSection::<3>::compressed_type(), "[u8; 1]");
    assert_eq!(MapSection::<5>::compressed_type(), "[u8; 3]");
    assert_eq!(MapSection::<7>::compressed_type(), "[u8; 6]");
    assert_eq!(MapSection::<9>::compressed_type(), "[u8; 10]");
}

#[test]
fn compressed_forms_of_different_sections_differ() {
    let a = MapSection::<5>::from_function(|v| v.east() >= 0);
    let b = MapSection::<5>::from_function(|v| v.south() >= 0);
    assert_ne!(a, b);
    assert_ne!(a.compress(), b.compress());
}

#[test]
fn section_from_scan_turns_with_the_bot() {
    // the wall is in front of the bot
    let chars: Vec<char> = ".#...@.....".chars().take(9).collect();
    let scan = RadarScan::<D3>::from_cells(&chars, vec![0; 9], 1).unwrap();
    let north = MapSection::<3>::from_scan(&scan, Direction::North);
    assert_eq!(north.get(Vec2::new_north(1)), Ok(false));
    assert_eq!(north.get(Vec2::new_east(1)), Ok(true));
    let east = MapSection::<3>::from_scan(&scan, Direction::East);
    assert_eq!(east.get(Vec2::new_east(1)), Ok(false));
    assert_eq!(east.get(Vec2::new_north(1)), Ok(true));
}

#[test]
fn section_of_a_terrain_map() {
    let lines: Vec<String> = ["#####", "#...#", "#.#.#", "#...#", "#####"]
        .iter()
        .map(|r| r.to_string())
        .collect();
    let map = TerrainMap::from_lines(&lines).unwrap();
    let s: MapSection<3> = map.get_chunk(pos_east_south(1, 1));
    assert!(s.at_center());
    assert_eq!(s.get(Vec2::new_east(1)), Ok(true));
    assert_eq!(s.get(Vec2::new_south(1)), Ok(true));
    assert_eq!(s.get(Vec2::new_west(1)), Ok(false));
    assert_eq!(s.get(Vec2::new_east(1) + Vec2::new_south(1)), Ok(false));
}
