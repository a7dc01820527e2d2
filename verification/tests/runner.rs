use async_kartoffel::{
    apply_motor, test_summary, TestError, bot_eval_func, get_bot_list, instincts, movement, ArmAction, ClockBackend, Direction, Guard,
    Instant, MotorAction, Position, RadarError, RadarScan, Tile, Transform, Vec2, D3, D5,
    MAX_STAB_WAIT,
};

struct TestClock;

impl ClockBackend for TestClock {
    fn ticks_per_milli_spec() -> u32 {
        64
    }

    fn now() -> u32 {
        5_000
    }

    fn ticks_per_milli() -> u32 {
        64
    }
}

/// A 3 by 3 scan from its cells in storage order: the row in front (left, middle, right),
/// the bot's own row, then the row behind.
fn scan3(cells: &str, bots: [u64; 9]) -> RadarScan<D3> {
    let chars: Vec<char> = cells.chars().collect();
    RadarScan::from_cells(&chars, bots.to_vec(), 1).unwrap()
}

#[test]
fn scan_cells_in_storage_order() {
    let scan = scan3("#.|.@.-.+", [0, 0, 0, 0, 9, 0, 0, 0, 0]);
    assert_eq!(scan.at(Vec2::new_front_right(1, -1)), Some(Tile::WallCave));
    assert_eq!(scan.at(Vec2::new_front(1)), Some(Tile::Empty));
    assert_eq!(scan.at(Vec2::new_front_right(1, 1)), Some(Tile::WallVertical));
    assert_eq!(scan.at(Vec2::zero()), Some(Tile::Bot));
    assert_eq!(scan.at(Vec2::new_back(1)), Some(Tile::Empty));
    assert_eq!(scan.at(Vec2::new_front_right(-1, 1)), Some(Tile::EntryExit));
    assert_eq!(scan.at(Vec2::new_front(2)), None);
    assert_eq!(scan.bot_at(Vec2::zero()), Some(9));
    assert!(scan.contains(Vec2::new_right(1)));
    assert!(!scan.contains(Vec2::new_right(2)));
    // the bot's own cell is left out
    assert_eq!(scan.iter_tile(Tile::Bot), vec![]);
    assert_eq!(scan.iter_tile(Tile::Empty), vec![
        Vec2::new_left(1),
        Vec2::new_front(1),
        Vec2::new_back(1),
        Vec2::new_right(1)
    ]);
    assert_eq!(scan.iter().len(), 8);
    // a character that shows no tile, or a wrong number of cells, gives no scan
    assert!(RadarScan::<D3>::from_cells(&"x........".chars().collect(), vec![0; 9], 1).is_none());
    assert!(RadarScan::<D5>::from_cells(&".........".chars().collect(), vec![0; 9], 1).is_none());
}

#[test]
fn radar_guard_counts_scans() {
    let mut guard = Guard::new();
    assert_eq!(guard.try_execute_scan(false), Err(RadarError::NotReady));
    assert_eq!(guard.try_execute_scan(true), Ok(()));
    assert!(guard.try_create(guard.get_active_uuid()));
    assert!(!guard.try_create(guard.get_active_uuid().wrapping_add(1)));
}

#[test]
fn bot_evaluation_table() {
    // a bot right in front that gets stabbed counts nothing
    assert_eq!(bot_eval_func(Vec2::new_front(1), true, false), (0, true));
    assert_eq!(bot_eval_func(Vec2::new_front(1), false, false), (13, false));
    assert_eq!(bot_eval_func(Vec2::new_front(2), false, false), (5, false));
    assert_eq!(bot_eval_func(Vec2::zero(), false, false), (255, false));
    assert_eq!(bot_eval_func(Vec2::new_back(1), false, false), (26, false));
    // behind while the back is against a wall: nothing
    assert_eq!(bot_eval_func(Vec2::new_back(1), false, true), (0, false));
    // too far away
    assert_eq!(bot_eval_func(Vec2::new_front(4), false, false), (0, false));
    assert_eq!(bot_eval_func(Vec2::new_front_right(-4, 1), false, false), (0, false));
    // three behind and one to the right: the last row of the table
    assert_eq!(bot_eval_func(Vec2::new_front_right(-3, 1), false, false), (1, false));
}

#[test]
fn instincts_stab_a_bot_in_front() {
    let scan = scan3(".@..@....", [0, 7, 0, 0, 1, 0, 0, 0, 0]);
    let now: Instant<TestClock> = Instant::from_ticks(100);
    let r = instincts(true, true, &scan, now);
    assert_eq!(r.motor, None);
    assert_eq!(r.arm, Some(ArmAction::Stab));
    assert_eq!(r.arm_timeout.as_ticks(), 100 + MAX_STAB_WAIT);
    // with the arm busy nothing happens
    let r = instincts(false, true, &scan, now);
    assert_eq!((r.motor, r.arm), (None, None));
}

#[test]
fn instincts_turn_to_a_bot_at_the_side() {
    let scan = scan3("...@@....", [0, 0, 0, 7, 1, 0, 0, 0, 0]);
    let r = instincts(true, true, &scan, Instant::<TestClock>::from_ticks(0));
    assert_eq!(r.motor, Some(MotorAction::TurnLeft));
    assert_eq!(r.arm, Some(ArmAction::Stab));
    let scan = scan3("....@@...", [0, 0, 0, 0, 1, 7, 0, 0, 0]);
    let r = instincts(true, true, &scan, Instant::<TestClock>::from_ticks(0));
    assert_eq!(r.motor, Some(MotorAction::TurnRight));
}

#[test]
fn movement_in_the_open_steps_forward() {
    let scan = scan3("....@....", [0, 0, 0, 0, 1, 0, 0, 0, 0]);
    let r = movement(
        Position::default(),
        Direction::North,
        Transform::identity(),
        &scan,
        &[],
        false,
        Instant::<TestClock>::from_ticks(0),
    );
    assert_eq!(r.motor, Some(MotorAction::Step));
    assert_eq!(r.arm, None);
    assert_eq!(r.arm_timeout.as_ticks(), MAX_STAB_WAIT);
}

#[test]
fn movement_boxed_in_does_nothing_but_turn() {
    // walls all around: only turning, or staying, keeps the bot on walkable ground
    let scan = scan3("####@####", [0, 0, 0, 0, 1, 0, 0, 0, 0]);
    let r = movement(
        Position::default(),
        Direction::North,
        Transform::identity(),
        &scan,
        &[],
        false,
        Instant::<TestClock>::from_ticks(0),
    );
    assert!(r.motor != Some(MotorAction::Step) && r.motor != Some(MotorAction::StepBack));
    assert_eq!(r.arm, None);
}

#[test]
fn bot_list_drops_the_stabbed_bot() {
    let scan = scan3(".@..@...@", [0, 7, 0, 0, 1, 0, 0, 0, 8]);
    let all = get_bot_list(Transform::identity(), false, &scan);
    assert_eq!(all, vec![Vec2::new_front(1), Vec2::new_front_right(-1, 1)]);
    let left = get_bot_list(Transform::identity(), true, &scan);
    assert_eq!(left, vec![Vec2::new_front_right(-1, 1)]);
}

#[test]
fn apply_motor_turns_and_steps() {
    let start = Position::default();
    let (p, d) = apply_motor(MotorAction::TurnLeft, start, Direction::North).unwrap();
    assert_eq!(p, start);
    assert_eq!(d, Direction::West);
    let (p, d) = apply_motor(MotorAction::TurnRight, start, Direction::West).unwrap();
    assert_eq!(p, start);
    assert_eq!(d, Direction::North);
    let (p, d) = apply_motor(MotorAction::Step, start, Direction::East).unwrap();
    let v = p.subtract_anchor();
    assert_eq!((v.east(), v.south()), (1, 0));
    assert_eq!(d, Direction::East);
    let (p, _) = apply_motor(MotorAction::StepBack, start, Direction::North).unwrap();
    let v = p.subtract_anchor();
    assert_eq!((v.east(), v.south()), (0, 1));
}

#[test]
fn apply_motor_refuses_to_leave_the_grid() {
    let edge = Position::default() + Vec2::new_east_south(i16::MAX, 0);
    assert_eq!(apply_motor(MotorAction::Step, edge, Direction::East), None);
    assert!(apply_motor(MotorAction::StepBack, edge, Direction::East).is_some());
}

#[test]
fn guard_counts_handles() {
    let mut guard = Guard::new();
    assert_eq!(guard.n_scans(), 0);
    guard.try_execute_scan(true).unwrap();
    guard.create_active();
    guard.create_active();
    assert_eq!(guard.n_scans(), 2);
    assert!(!guard.decrease_count());
    assert!(guard.decrease_count());
    assert_eq!(guard.n_scans(), 0);
}

#[test]
fn test_summary_counts_results() {
    assert_eq!(test_summary(&[]), (0, 0));
    assert_eq!(test_summary(&[true, false, true, true]), (3, 1));
    assert_eq!(test_summary(&[false, false]), (0, 2));
    assert_eq!(TestError, TestError);
}
