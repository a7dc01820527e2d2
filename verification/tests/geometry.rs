use async_kartoffel::{
    AnchorDefault, Direction, Global, Local, Position, Rotation, Tile, Transform, Vec2,
};

#[test]
fn direction_plus_rotation() {
    assert_eq!(Direction::North + Rotation::Right, Direction::East);
    assert_eq!(Direction::East + Rotation::Left, Direction::North);
    assert_eq!(Direction::South + Rotation::Inverse, Direction::North);
    assert_eq!(Direction::West + Rotation::Id, Direction::West);
}

#[test]
fn direction_difference_is_rotation() {
    // the rotation that turns North into East
    assert_eq!(Direction::East - Direction::North, Rotation::Right);
    for a in Direction::all() {
        for b in Direction::all() {
            // law: b + (a - b) == a
            assert_eq!(b + (a - b), a);
        }
    }
}

#[test]
fn rotation_inverse_and_compose() {
    for r in Rotation::all() {
        assert_eq!(r + (-r), Rotation::Id);
        for s in Rotation::all() {
            assert_eq!(r + s, s + r);
        }
    }
    let mut d = Direction::North;
    d += Rotation::Right;
    d += Rotation::Right;
    assert_eq!(d, Direction::South);
    d -= Rotation::Left;
    assert_eq!(d, Direction::West);
}

#[test]
fn vec2_components() {
    let v: Vec2<Global> = Vec2::new_east_south(3, -2);
    assert_eq!(v.east(), 3);
    assert_eq!(v.west(), -3);
    assert_eq!(v.south(), -2);
    assert_eq!(v.north(), 2);
    assert_eq!(Vec2::new_north(2) + Vec2::new_east(3), v);
    assert_eq!(v - v, Vec2::zero());
    assert_eq!(-v, Vec2::new_east_south(-3, 2));
    assert_eq!(v * 2, Vec2::new_east_south(6, -4));
}

#[test]
fn vec2_local_global_roundtrip() {
    let v: Vec2<Global> = Vec2::new_east_south(3, -2);
    for d in Direction::all() {
        assert_eq!(v.local(d).global(d), v);
    }
    // facing north, east is to the right
    let l = Vec2::new_east(1).local(Direction::North);
    assert_eq!(l, Vec2::new_right(1));
    assert_eq!(Vec2::<Local>::new_front(2).global(Direction::West), Vec2::new_west(2));
}

#[test]
fn vec2_rotate() {
    let v: Vec2<Global> = Vec2::new_east(1);
    assert_eq!(v.rotate(Rotation::Right), Vec2::new_south(1));
    assert_eq!(v.rotate(Rotation::Inverse), Vec2::new_west(1));
    let w: Vec2<Global> = Vec2::new_east_south(4, 7);
    for r in Rotation::all() {
        assert_eq!(w.rotate(r).rotate(-r), w);
    }
}

#[test]
fn vec2_directions() {
    let v: Vec2<Global> = Vec2::new_east_south(2, -5);
    let dirs = v.directions();
    assert_eq!(dirs.len(), 2);
    assert!(dirs.contains(&Direction::East));
    assert!(dirs.contains(&Direction::North));
    assert!(Vec2::<Global>::zero().directions().is_empty());
}

#[test]
fn position_arithmetic() {
    let p: Position<AnchorDefault> = Position::default() + Vec2::new_east_south(4, 5);
    let q = p + Vec2::new_west(1);
    assert_eq!(p - q, Vec2::new_east(1));
    assert_eq!(q - Vec2::new_west(1), p);
    assert_eq!(p.subtract_anchor(), Vec2::new_east_south(4, 5));
    let n = p.neighbors();
    assert_eq!(n[0], (p + Vec2::new_east(1), Direction::East));
    assert_eq!(n[3], (p + Vec2::new_south(1), Direction::South));
}

#[test]
fn transform_chain_and_inverse() {
    let t = Transform::new(Vec2::new_front(1), Rotation::Right);
    let back = t.chain(t.inverse());
    assert_eq!(back, Transform::identity());
    let u = Transform::from(Rotation::Left).chain(Transform::from(Vec2::new_front(2)));
    // turning left first, the step forward points to the old left
    assert_eq!(u.translation(), Vec2::new_left(2));
    assert_eq!(u.rotation(), Rotation::Left);
    let start: Position<AnchorDefault> = Position::default();
    let (pos, dir) = t.apply(start, Direction::North);
    assert_eq!(pos, start + Vec2::new_north(1));
    assert_eq!(dir, Direction::East);
}

#[test]
fn tile_chars_roundtrip() {
    for c in ['@', '.', ' ', '|', '-', '#', '+', '*', '='] {
        let t = Tile::from_char(c).unwrap();
        assert_eq!(t.to_char(), c);
    }
    assert_eq!(Tile::from_char('x'), None);
    assert!(Tile::Empty.is_walkable_terrain());
    assert!(!Tile::WallCave.is_walkable_terrain());
    assert!(Tile::Bot.is_bot());
    assert!(Tile::Diamond.is_item());
    assert!(Tile::Empty.is_empty());
}
