use async_kartoffel::{
    get_trivial_navigables, is_navigation_trivial, pos_east_south, Direction, GlobalPos, TerrainMap, TrueMap, TrueMapImpl,
    Vec2,
};

/// A map from rows of walkable flags, north first.
fn terrain(rows: &[&[bool]]) -> TerrainMap {
    let lines: Vec<String> = rows
        .iter()
        .map(|r| r.iter().map(|&b| if b { '.' } else { '#' }).collect())
        .collect();
    TerrainMap::from_lines(&lines).unwrap()
}

fn true_map<const W: u16, const H: u16, const S: usize>(map: &TerrainMap) -> TrueMapImpl<W, H, S> {
    let builder = map.builder();
    let mut store = [0u8; S];
    store.copy_from_slice(builder.data());
    TrueMapImpl(store)
}

fn corners(w: i16, h: i16) -> [GlobalPos; 4] {
    [
        pos_east_south(0, 0),
        pos_east_south(w - 1, 0),
        pos_east_south(0, h - 1),
        pos_east_south(w - 1, h - 1),
    ]
}

#[test]
fn trivial_nav1() {
    let rows: [&[bool]; 6] = [&[true; 6]; 6];
    let map: TrueMapImpl<6, 6, 5> = true_map(&terrain(&rows));
    let [nw, ne, sw, se] = corners(6, 6);
    assert_eq!(is_navigation_trivial::<64, _>(&map, nw, se), Ok(true));
    assert_eq!(is_navigation_trivial::<64, _>(&map, se, nw), Ok(true));
    assert_eq!(is_navigation_trivial::<64, _>(&map, sw, ne), Ok(true));
    assert_eq!(is_navigation_trivial::<64, _>(&map, ne, sw), Ok(true));
}

#[test]
fn trivial_nav2() {
    let t = true;
    let f = false;
    let rows: [&[bool]; 5] = [
        &[t, t, t, t, t, t],
        &[t, f, t, t, f, t],
        &[t, t, f, f, t, t],
        &[t, f, t, t, f, t],
        &[t, t, t, t, t, t],
    ];
    let map: TrueMapImpl<6, 5, 4> = true_map(&terrain(&rows));
    let [nw, ne, sw, se] = corners(6, 5);
    assert_eq!(is_navigation_trivial::<64, _>(&map, nw, se), Ok(false));
    assert_eq!(is_navigation_trivial::<64, _>(&map, se, nw), Ok(false));
    assert_eq!(is_navigation_trivial::<64, _>(&map, sw, ne), Ok(false));
    assert_eq!(is_navigation_trivial::<64, _>(&map, ne, sw), Ok(false));
}

#[test]
fn trivial_nav3() {
    let t = true;
    let f = false;
    let rows: [&[bool]; 4] = [&[t, t, t], &[t, t, t], &[t, t, t], &[t, f, t]];
    let map: TrueMapImpl<3, 4, 2> = true_map(&terrain(&rows));
    let [nw, ne, sw, se] = corners(3, 4);
    assert_eq!(is_navigation_trivial::<64, _>(&map, nw, se), Ok(false));
    assert_eq!(is_navigation_trivial::<64, _>(&map, se, nw), Ok(true));
    assert_eq!(is_navigation_trivial::<64, _>(&map, sw, ne), Ok(true));
    assert_eq!(is_navigation_trivial::<64, _>(&map, ne, sw), Ok(false));
    // a destination outside the map is never reached
    assert_eq!(is_navigation_trivial::<64, _>(&map, ne, pos_east_south(3, -3)), Ok(false));
}

/// The tile one step in `dir`.
fn step(p: GlobalPos, dir: Direction, n: i16) -> GlobalPos {
    p + Vec2::new_in_direction(dir, n)
}

/// Trivially navigable, checked by filling the set of trivially navigable tiles outwards from
/// the destination, diagonal by diagonal.
fn is_trivial_navigable_test(map: &TerrainMap, start: GlobalPos, destination: GlobalPos) -> bool {
    let mut triv = map.new_like();
    if !map.get(destination) {
        return false;
    }
    triv.set(destination, true).unwrap();
    if destination == start {
        return true;
    }
    for dir in Direction::all() {
        let mut i = 1i16;
        loop {
            let pos = step(destination, dir, i);
            if map.get(pos) {
                triv.set(pos, true).unwrap();
                if pos == start {
                    return true;
                }
                i += 1;
            } else {
                break;
            }
        }
    }
    for dir_ew in [Direction::East, Direction::West] {
        for dir_ns in [Direction::North, Direction::South] {
            let mut i_manhattan = 2i16;
            loop {
                let mut any = triv.get(step(destination, dir_ew, i_manhattan))
                    || triv.get(step(destination, dir_ns, i_manhattan));
                for i_ew in 1..i_manhattan {
                    let i_ns = i_manhattan - i_ew;
                    let pos = step(step(destination, dir_ew, i_ew), dir_ns, i_ns);
                    let neighbor_ew = step(pos, dir_ew, -1);
                    let neighbor_ns = step(pos, dir_ns, -1);
                    let walk = map.get(pos);
                    let triv_ns = triv.get(neighbor_ns);
                    let triv_ew = triv.get(neighbor_ew);
                    let wall_ns = !map.get(neighbor_ns);
                    let wall_ew = !map.get(neighbor_ew);
                    if walk && (triv_ns || wall_ns) && (triv_ew || wall_ew) && (triv_ew || triv_ns) {
                        triv.set(pos, true).unwrap();
                        if pos == start {
                            return true;
                        }
                        any = true;
                    }
                }
                if !any {
                    break;
                }
                i_manhattan += 1;
            }
        }
    }
    false
}

/// A small deterministic random number generator.
struct XorShift(u64);

impl XorShift {
    fn next(&mut self) -> u64 {
        let mut x = self.0;
        x ^= x << 13;
        x ^= x >> 7;
        x ^= x << 17;
        self.0 = x;
        x
    }

    fn below(&mut self, n: u64) -> u64 {
        self.next() % n
    }
}

fn for_size<const W: u16, const H: u16, const S: usize, const B: usize>(rng: &mut XorShift) {
    let rows: Vec<Vec<bool>> = (0..H)
        .map(|_| (0..W).map(|_| rng.below(5) < 4).collect())
        .collect();
    let row_refs: Vec<&[bool]> = rows.iter().map(|r| r.as_slice()).collect();
    let terrain_map = terrain(&row_refs);
    let map: TrueMapImpl<W, H, S> = true_map(&terrain_map);
    let [nw, ne, sw, se] = corners(W as i16, H as i16);
    let cases = [
        (nw, se, Direction::South, Direction::East),
        (sw, ne, Direction::North, Direction::East),
        (se, nw, Direction::North, Direction::West),
        (ne, sw, Direction::South, Direction::West),
    ];
    for (start, dest, dir0, dir1) in cases {
        let triv_nav = is_navigation_trivial::<B, _>(&map, start, dest).unwrap();
        if triv_nav {
            // every walk towards the destination reaches it
            let mut pos = start;
            for _ in 0..(W + H - 2) {
                let dirs: Vec<Direction> = [dir0, dir1]
                    .into_iter()
                    .filter(|&dir| {
                        let new_pos = step(pos, dir, 1);
                        (dest - new_pos).in_direction(dir) >= 0 && map.get(new_pos)
                    })
                    .collect();
                assert!(!dirs.is_empty());
                pos = step(pos, dirs[rng.below(dirs.len() as u64) as usize], 1);
            }
            assert_eq!(pos, dest);
            assert!(is_trivial_navigable_test(&terrain_map, start, dest) || !map.get(start));
        } else {
            assert!(!is_trivial_navigable_test(&terrain_map, start, dest));
        }
    }
}

#[test]
fn trivial_nav_positive() {
    let mut rng = XorShift(0x2545_f491_4f6c_dd1d);
    for _ in 0..100 {
        for_size::<1, 5, 1, 3>(&mut rng);
        for_size::<2, 5, 2, 3>(&mut rng);
        for_size::<3, 5, 2, 4>(&mut rng);
        for_size::<4, 5, 3, 4>(&mut rng);
        for_size::<5, 5, 4, 5>(&mut rng);
        for_size::<5, 4, 3, 4>(&mut rng);
        for_size::<5, 3, 2, 4>(&mut rng);
        for_size::<5, 2, 2, 3>(&mut rng);
        for_size::<5, 1, 1, 3>(&mut rng);
    }
}

#[test]
fn trivial_navigables_on_a_long_corridor() {
    // wider than 8192 tiles: every tile of a straight corridor leads trivially to its west end
    let width = 9000;
    let map = TerrainMap { tiles: vec![true; width], width, height: 1 };
    let dest = pos_east_south(0, 0);
    let found = get_trivial_navigables(&map, dest);
    assert_eq!(found.len(), width);
    assert_eq!(found[0], dest);
    assert!(found.contains(&pos_east_south(8999, 0)));
}
