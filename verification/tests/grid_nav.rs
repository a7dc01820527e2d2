use async_kartoffel::{
    to_chunk_pos, ChunkBool, ChunkMap, ChunkMapHash, Direction, Navigation, NavigationTask,
    NoTarget, OutOfMemory, PosMap, Position, State, Vec2,
};

type Distances = ChunkMapHash<16, Option<u16>, [[Option<u16>; 8]; 8]>;

fn at(east: i16, south: i16) -> Position {
    Position::add_to_anchor(Vec2::new_east_south(east, south))
}

fn coords(p: Position) -> (i16, i16) {
    let v = p.subtract_anchor();
    (v.east(), v.south())
}

/// Open ground with a wall three cells long at east 2, from south -1 to south 1.
fn open_but_wall(p: Position) -> bool {
    let (e, s) = coords(p);
    !(e == 2 && (-1..=1).contains(&s))
}

#[test]
fn chunk_map_stores_values_by_position() {
    let mut map: ChunkMapHash<2, bool, ChunkBool> = ChunkMapHash::new();
    assert_eq!(map.get_value(at(3, 3)), None);
    assert_eq!(map.set_value(at(3, 3), true), Ok(()));
    assert_eq!(map.get_value(at(3, 3)), Some(true));
    // the rest of a new chunk is blank
    assert_eq!(map.get_value(at(7, 0)), Some(false));
    assert_eq!(map.get_value(at(8, 0)), None);
    assert_eq!(map.set_value(at(-1, 0), true), Ok(()));
    assert_eq!(map.get_value(at(-1, 0)), Some(true));
    // a third chunk does not fit
    assert_eq!(map.set_value(at(20, 20), true), Err(true));
    assert_eq!(map.get_value(at(20, 20)), None);
    assert!(map.get_chunk(to_chunk_pos(at(3, 3)).0).is_some());
    assert!(map.get_chunk(to_chunk_pos(at(30, 3)).0).is_none());
    ChunkMap::clear(&mut map);
    assert_eq!(map.get_value(at(3, 3)), None);
}

#[test]
fn pos_map_of_optional_distances() {
    let mut map: Distances = ChunkMapHash::new();
    assert_eq!(PosMap::get(&map, at(5, -9)), None);
    assert_eq!(PosMap::set(&mut map, at(5, -9), Some(4)), Ok(()));
    assert_eq!(PosMap::get(&map, at(5, -9)), Some(Some(4)));
    assert_eq!(PosMap::get(&map, at(6, -9)), Some(None));
    PosMap::clear(&mut map);
    assert_eq!(PosMap::get(&map, at(5, -9)), None);
}

#[test]
fn navigation_goes_around_a_wall() {
    let mut nav: Navigation<Distances, 64> = Navigation::new(ChunkMapHash::new());
    assert!(matches!(nav.get_state(), State::Ready));
    assert_eq!(nav.update_start(at(0, 0)), Err(NoTarget));
    let from = at(0, 0);
    let to = at(4, 0);
    nav.initialize(from, to);
    assert!(matches!(nav.get_state(), State::Running(_)));
    assert_eq!(nav.get_dist_at(to), Some(0));
    nav.run(open_but_wall);
    let state = nav.get_state();
    assert!(state.is_success());
    assert_eq!(state.task(), Some(NavigationTask { from, to }));
    // the shortest way around the wall takes eight steps
    assert_eq!(nav.get_dist_at(from), Some(8));
    // following the steps reaches the target
    let mut pos = from;
    let mut steps = 0;
    while pos != to {
        let dirs = nav.next_step(pos);
        assert!(dirs.any());
        let dir = dirs.all()[0];
        let (e, s) = coords(pos);
        pos = match dir {
            Direction::East => at(e + 1, s),
            Direction::West => at(e - 1, s),
            Direction::North => at(e, s - 1),
            Direction::South => at(e, s + 1),
        };
        assert!(open_but_wall(pos));
        steps += 1;
    }
    assert_eq!(steps, 8);
}

#[test]
fn navigation_moves_its_start() {
    let mut nav: Navigation<Distances, 64> = Navigation::new(ChunkMapHash::new());
    nav.initialize(at(0, 0), at(4, 0));
    nav.run(open_but_wall);
    assert!(nav.get_state().is_success());
    // a cell on the found way already has its distance
    let on_way = (-1..=1)
        .flat_map(|e| (-2..=2).map(move |s| at(e, s)))
        .find(|p| *p != at(0, 0) && nav.get_dist_at(*p).is_some())
        .unwrap();
    assert_eq!(nav.update_start(on_way), Ok(()));
    assert!(nav.get_state().is_success());
    // far away the search has to go on
    assert_eq!(nav.update_start(at(-6, 0)), Ok(()));
    assert!(matches!(nav.get_state(), State::Running(_)));
    nav.run(open_but_wall);
    assert!(nav.get_state().is_success());
    assert_eq!(nav.get_dist_at(at(-6, 0)), Some(14));
    assert!(nav.n_active().is_some());
}

#[test]
fn navigation_to_a_refused_target_is_impossible() {
    let mut nav: Navigation<Distances, 64> = Navigation::new(ChunkMapHash::new());
    nav.initialize(at(0, 0), at(2, 0));
    nav.run(open_but_wall);
    assert!(matches!(nav.get_state(), State::Impossible(_)));
}

#[test]
fn navigation_to_an_enclosed_target_is_impossible() {
    let mut nav: Navigation<Distances, 64> = Navigation::new(ChunkMapHash::new());
    nav.initialize(at(0, 0), at(5, 5));
    // only the target and its east neighbor can be entered
    nav.run(|p: Position| {
        let c = coords(p);
        c == (5, 5) || c == (6, 5)
    });
    assert!(matches!(nav.get_state(), State::Impossible(_)));
    assert_eq!(nav.get_dist_at(at(6, 5)), Some(1));
    assert_eq!(nav.get_dist_at(at(0, 0)), None);
}

#[test]
fn navigation_start_at_target_succeeds_at_once() {
    let mut nav: Navigation<Distances, 64> = Navigation::new(ChunkMapHash::new());
    nav.initialize(at(1, 1), at(1, 1));
    assert!(nav.get_state().is_success());
    assert!(!nav.next_step(at(1, 1)).any());
}

#[test]
fn navigation_without_room_fails() {
    let mut nav: Navigation<ChunkMapHash<1, Option<u16>, [[Option<u16>; 8]; 8]>, 64> =
        Navigation::new(ChunkMapHash::new());
    // the way leaves the one chunk there is room for
    nav.initialize(at(0, 0), at(4, 0));
    nav.run(open_but_wall);
    assert!(matches!(nav.get_state(), State::Error(OutOfMemory)));
}

#[test]
fn navigation_with_a_tiny_queue_runs_out_of_room() {
    // a single cell to expand: the target's neighbors at the same cost do not all fit
    let mut nav: Navigation<Distances, 1> = Navigation::new(ChunkMapHash::new());
    nav.initialize(at(0, 0), at(4, 0));
    nav.run(open_but_wall);
    assert!(matches!(nav.get_state(), State::Error(OutOfMemory)));
}

#[test]
fn navigation_with_full_distances_runs_out_of_room() {
    // room for the target's chunk only; the way around the wall leaves it
    let mut nav: Navigation<ChunkMapHash<1, Option<u16>, [[Option<u16>; 8]; 8]>, 64> =
        Navigation::new(ChunkMapHash::new());
    nav.initialize(at(0, 0), at(4, 0));
    assert!(matches!(nav.get_state(), State::Running(_)));
    nav.run(open_but_wall);
    assert!(matches!(nav.get_state(), State::Error(OutOfMemory)));
}

#[test]
fn navigation_on_open_ground_takes_the_manhattan_distance() {
    let mut nav: Navigation<Distances, 64> = Navigation::new(ChunkMapHash::new());
    nav.initialize(at(0, 0), at(3, -2));
    nav.run(|_p: Position| true);
    assert!(nav.get_state().is_success());
    assert_eq!(nav.get_dist_at(at(0, 0)), Some(5));
}
