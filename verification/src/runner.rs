use vstd::prelude::*;

use crate::clock::{ClockBackend, Duration, Instant};
use crate::direction::{Direction, Rotation};
use crate::position::Position;
use crate::radar::{vec_to_offset, within, RadarScan, RadarSize};
use crate::measure::{abs, unsigned_abs};
use crate::radar::{iteration_order, offset_to_vec};
use crate::tile::Tile;
use crate::transform::{chain_spec, identity_spec, inverse_spec, Transform, TransformView};
use crate::vec2::{fits_i16, local_to_global, Local, Vec2};

verus! {

/// What the arm does.
#[derive(Clone, Copy, Debug, PartialEq, Eq, Structural)]
pub enum ArmAction {
    Stab,
}

/// What the motor does.
#[derive(Clone, Copy, Debug, PartialEq, Eq, Structural)]
pub enum MotorAction {
    Step,
    StepBack,
    TurnRight,
    TurnLeft,
}

/// A decision for the motor and the arm; the arm waits for its action until `arm_timeout`.
#[derive(Clone, Copy)]
pub struct MotorArmAction<C: ClockBackend> {
    pub motor: Option<MotorAction>,
    pub arm: Option<ArmAction>,
    pub arm_timeout: Instant<C>,
}

/// How long the arm waits for a stab, in ticks.
pub const MAX_STAB_WAIT: u32 = 10_000;

/// The move of the bot that a motor action makes.
pub open spec fn motor_transform(motor: Option<MotorAction>) -> TransformView {
    match motor {
        Some(MotorAction::Step) => TransformView { vec: (1, 0), rotation: Rotation::Id },
        Some(MotorAction::TurnLeft) => TransformView { vec: (0, 0), rotation: Rotation::Left },
        Some(MotorAction::TurnRight) => TransformView { vec: (0, 0), rotation: Rotation::Right },
        Some(MotorAction::StepBack) => TransformView { vec: (-1, 0), rotation: Rotation::Id },
        None => identity_spec(),
    }
}

impl MotorAction {
    /// Every motor action, and then doing nothing.
    pub fn all_and_nothing() -> (r: [Option<MotorAction>; 5])
        ensures
            r@ == seq![
                Some(MotorAction::Step),
                Some(MotorAction::StepBack),
                Some(MotorAction::TurnRight),
                Some(MotorAction::TurnLeft),
                None::<MotorAction>,
            ],
    {
        [
            Some(MotorAction::Step),
            Some(MotorAction::StepBack),
            Some(MotorAction::TurnRight),
            Some(MotorAction::TurnLeft),
            None,
        ]
    }

    /// The move of the bot that `motor` makes.
    pub fn to_transform(motor: Option<MotorAction>) -> (r: Transform)
        ensures
            r@ == motor_transform(motor),
    {
        match motor {
            Some(MotorAction::Step) => {
                let v = Vec2::new_front(1);
                proof {
                    Transform::lemma_from_values(v, Rotation::Id);
                }
                Transform::from(v)
            },
            Some(MotorAction::TurnLeft) => {
                proof {
                    Transform::lemma_from_values(Vec2::zero_spec(), Rotation::Left);
                }
                Transform::from(Rotation::Left)
            },
            Some(MotorAction::TurnRight) => {
                proof {
                    Transform::lemma_from_values(Vec2::zero_spec(), Rotation::Right);
                }
                Transform::from(Rotation::Right)
            },
            Some(MotorAction::StepBack) => {
                let v = Vec2::new_back(1);
                proof {
                    Transform::lemma_from_values(v, Rotation::Id);
                }
                Transform::from(v)
            },
            None => Transform::identity(),
        }
    }
}

/// The scan shows a bot at the local vector `v`.
pub open spec fn bot_seen<D: RadarSize>(scan: &RadarScan<D>, v: (int, int)) -> bool {
    within(vec_to_offset(v), D::radius_spec()) && scan.tile_at(vec_to_offset(v)) == Tile::Bot
}

/// The scan shows an empty tile at the local vector `v`.
pub open spec fn empty_seen<D: RadarSize>(scan: &RadarScan<D>, v: (int, int)) -> bool {
    within(vec_to_offset(v), D::radius_spec()) && scan.tile_at(vec_to_offset(v)) == Tile::Empty
}

/// The urgent reaction to a scan: with the arm ready, stab a bot in front, turn to one at the
/// side and stab, or step towards one two tiles ahead and stab if the tile between is empty and
/// the motor is ready; otherwise do nothing.
pub open spec fn instinct_choice<D: RadarSize>(arm_ready: bool, motor_ready: bool, scan: &RadarScan<D>) -> (
    Option<MotorAction>,
    Option<ArmAction>,
) {
    if !arm_ready {
        (None, None)
    } else if bot_seen(scan, (1, 0)) {
        (None, Some(ArmAction::Stab))
    } else if bot_seen(scan, (0, -1)) {
        (Some(MotorAction::TurnLeft), Some(ArmAction::Stab))
    } else if bot_seen(scan, (0, 1)) {
        (Some(MotorAction::TurnRight), Some(ArmAction::Stab))
    } else if bot_seen(scan, (2, 0)) && empty_seen(scan, (1, 0)) && motor_ready {
        (Some(MotorAction::Step), Some(ArmAction::Stab))
    } else {
        (None, None)
    }
}

/// The urgent reaction: without the arm ready nothing happens; every move it makes comes with a
/// stab, so the bot never turns or steps towards a bot without stabbing it; every stab goes to
/// a tile where the scan shows a bot, in front of the bot once its move is made; and with no bot
/// adjacent, a bot two tiles ahead, an empty tile between and the motor ready, the bot steps
/// forward and stabs.
pub proof fn law_instincts_stab<D: RadarSize>(arm_ready: bool, motor_ready: bool, scan: &RadarScan<D>)
    ensures
        !arm_ready ==> instinct_choice(arm_ready, motor_ready, scan) == (None::<MotorAction>, None::<ArmAction>),
        instinct_choice(arm_ready, motor_ready, scan).0 is Some ==> instinct_choice(arm_ready, motor_ready, scan).1
            == Some(ArmAction::Stab),
        instinct_choice(arm_ready, motor_ready, scan).1 is None ==> instinct_choice(arm_ready, motor_ready, scan).0
            is None,
        instinct_choice(arm_ready, motor_ready, scan).0 == Some(MotorAction::Step) ==> motor_ready,
        instinct_choice(arm_ready, motor_ready, scan).1 is Some ==> bot_seen(
            scan,
            scan_vec(motor_transform(instinct_choice(arm_ready, motor_ready, scan).0), (1, 0)),
        ),
        arm_ready && bot_seen(scan, (1, 0)) ==> instinct_choice(arm_ready, motor_ready, scan) == (
            None::<MotorAction>,
            Some(ArmAction::Stab),
        ),
        arm_ready && !bot_seen(scan, (1, 0)) && !bot_seen(scan, (0, -1)) && !bot_seen(scan, (0, 1)) && bot_seen(
            scan,
            (2, 0),
        ) && empty_seen(scan, (1, 0)) && motor_ready ==> instinct_choice(arm_ready, motor_ready, scan) == (
            Some(MotorAction::Step),
            Some(ArmAction::Stab),
        ),
{
}

/// Whether the scan shows a bot at `vec`; `false` outside the scan.
fn is_bot_at<D: RadarSize>(scan: &RadarScan<D>, vec: Vec2<Local>) -> (r: bool)
    requires
        -2 <= vec@.0 <= 2,
    ensures
        r == bot_seen(scan, vec@),
{
    match scan.at(vec) {
        Some(t) => t.is_bot(),
        None => false,
    }
}

/// Whether the scan shows an empty tile at `vec`; `false` outside the scan.
fn is_empty_at<D: RadarSize>(scan: &RadarScan<D>, vec: Vec2<Local>) -> (r: bool)
    requires
        -2 <= vec@.0 <= 2,
    ensures
        r == empty_seen(scan, vec@),
{
    match scan.at(vec) {
        Some(t) => t.is_empty(),
        None => false,
    }
}

/// The urgent reaction to `radar_scan`, taken at `time_stamp`, given whether the arm and the
/// motor are ready; the arm waits for a stab until `MAX_STAB_WAIT` ticks after the scan.
pub fn instincts<C: ClockBackend, D: RadarSize>(
    arm_ready: bool,
    motor_ready: bool,
    radar_scan: &RadarScan<D>,
    time_stamp: Instant<C>,
) -> (r: MotorArmAction<C>)
    requires
        time_stamp@ + MAX_STAB_WAIT <= u32::MAX,
    ensures
        (r.motor, r.arm) == instinct_choice(arm_ready, motor_ready, radar_scan),
        r.arm_timeout@ == time_stamp@ + MAX_STAB_WAIT,
{
    proof {
        D::lemma_radius();
    }
    let max_stab_wait = Duration::from_ticks(MAX_STAB_WAIT);
    let arm_timeout = time_stamp + max_stab_wait;
    if arm_ready {
        // overwrite the next movement with an urgent one
        if is_bot_at(radar_scan, Vec2::new_front(1)) {
            MotorArmAction { motor: None, arm: Some(ArmAction::Stab), arm_timeout }
        } else if is_bot_at(radar_scan, Vec2::new_left(1)) {
            MotorArmAction { motor: Some(MotorAction::TurnLeft), arm: Some(ArmAction::Stab), arm_timeout }
        } else if is_bot_at(radar_scan, Vec2::new_right(1)) {
            MotorArmAction { motor: Some(MotorAction::TurnRight), arm: Some(ArmAction::Stab), arm_timeout }
        } else if is_bot_at(radar_scan, Vec2::new_front(2)) && is_empty_at(
            radar_scan,
            Vec2::new_front(1),
        ) && motor_ready {
            MotorArmAction { motor: Some(MotorAction::Step), arm: Some(ArmAction::Stab), arm_timeout }
        } else {
            MotorArmAction { motor: None, arm: None, arm_timeout }
        }
    } else {
        MotorArmAction { motor: None, arm: None, arm_timeout }
    }
}


/// The worth of a bot at a relative position (back, right), each in `-3..=3`: high where a
/// bot is dangerous.
pub open spec fn bot_table() -> Seq<Seq<int>> {
    seq![
        seq![0, 0, 0, 1, 0, 0, 0],
        seq![0, 1, 1, 5, 1, 1, 0],
        seq![1, 2, 3, 13, 3, 2, 1],
        seq![2, 7, 17, 255, 17, 7, 2],
        seq![1, 2, 5, 26, 5, 2, 1],
        seq![0, 1, 2, 13, 2, 1, 0],
        seq![0, 0, 1, 4, 1, 0, 0],
    ]
}

/// The evaluation of a bot at local vector `dir` (front, right): a bot right in front that is
/// stabbed counts nothing and is stabbed; one farther than three tiles along an axis, or behind
/// while the back is against a wall, counts nothing; otherwise the table gives its worth.
pub open spec fn bot_eval(dir: (int, int), stab: bool, back_against_wall: bool) -> (int, bool) {
    if stab && dir == (1int, 0int) {
        (0, true)
    } else if abs(dir.0) > 3 || abs(dir.1) > 3 {
        (0, false)
    } else if back_against_wall && -dir.0 > 0 {
        (0, false)
    } else {
        (bot_table()[-dir.0 + 3][dir.1 + 3], false)
    }
}

/// The evaluation of a bot at local vector `dir`, and whether a stab removes it.
pub fn bot_eval_func(dir: Vec2<Local>, stab: bool, back_against_wall: bool) -> (r: (u8, bool))
    ensures
        (r.0 as int, r.1) == bot_eval(dir@, stab, back_against_wall),
{
    let values: [[u8; 7]; 7] = [
        [0, 0, 0, 1, 0, 0, 0],
        [0, 1, 1, 5, 1, 1, 0],
        [1, 2, 3, 13, 3, 2, 1],
        [2, 7, 17, 255, 17, 7, 2],
        [1, 2, 5, 26, 5, 2, 1],
        [0, 1, 2, 13, 2, 1, 0],
        [0, 0, 1, 4, 1, 0, 0],
    ];
    if stab && dir == Vec2::new_front(1) {
        // this bot will no longer exist
        (0, true)
    } else if unsigned_abs(dir.front()) > 3 || unsigned_abs(dir.right()) > 3 {
        // this bot is far away
        (0, false)
    } else if back_against_wall && dir.back() > 0 {
        (0, false)
    } else {
        // indexed by (back, right) rather than (right, front), to read the table intuitively
        let row = values[(dir.back() + 3) as usize];
        let v = row[(dir.right() + 3) as usize];
        assert(values@ =~= seq![
            values[0], values[1], values[2], values[3], values[4], values[5], values[6]
        ]);
        assert(v as int == bot_table()[-dir@.0 + 3][dir@.1 + 3]);
        (v, false)
    }
}

/// What the scan shows at local vector `v`: `Some(walkable)` within the scan, `None` outside.
pub open spec fn scan_walkable<D: RadarSize>(scan: &RadarScan<D>, v: (int, int)) -> Option<bool> {
    if within(vec_to_offset(v), D::radius_spec()) {
        Some(scan.tile_at(vec_to_offset(v)).walkable())
    } else {
        None
    }
}

/// The pure translation by `v`.
pub open spec fn shift(v: (int, int)) -> TransformView {
    TransformView { vec: v, rotation: Rotation::Id }
}

/// Whether the terrain that `probe` reports at `v` is a wall (known and not walkable).
pub open spec fn wall(probe: spec_fn((int, int)) -> Option<bool>, v: (int, int)) -> bool {
    probe(v) == Some(false)
}

/// How good the terrain around is, from what `probe` reports at local vectors: the back
/// against a wall is very good, walls at the sides are good (better with one free tile between),
/// a wall right in front is very bad, and one a tile further ahead is a little good.
pub open spec fn terrain_eval(probe: spec_fn((int, int)) -> Option<bool>) -> int {
    (if wall(probe, (-1, 0)) {
        8int
    } else if wall(probe, (-2, 0)) {
        4int
    } else {
        0int
    }) + (if wall(probe, (0, -1)) {
        2int
    } else if wall(probe, (0, -2)) {
        3int
    } else {
        0int
    }) + (if wall(probe, (0, 1)) {
        2int
    } else if wall(probe, (0, 2)) {
        3int
    } else {
        0int
    }) + (if wall(probe, (1, 0)) {
        -10int
    } else if wall(probe, (2, 0)) {
        1int
    } else {
        0int
    })
}

/// A local vector within two tiles along each axis.
pub open spec fn near(v: (int, int)) -> bool {
    -2 <= v.0 <= 2 && -2 <= v.1 <= 2
}

/// Whether `get_terrain` reports a wall at `v`.
fn wall_at<F: Fn(Vec2<Local>) -> Option<bool>>(
    get_terrain: &F,
    v: Vec2<Local>,
    Ghost(probe): Ghost<spec_fn((int, int)) -> Option<bool>>,
) -> (b: bool)
    requires
        near(v@),
        forall|v: Vec2<Local>| near(v@) ==> #[trigger] get_terrain.requires((v,)),
        forall|v: Vec2<Local>, o: Option<bool>| #[trigger]
            get_terrain.ensures((v,), o) ==> o == probe(v@),
    ensures
        b == wall(probe, v@),
{
    match get_terrain(v) {
        Some(walkable) => !walkable,
        None => false,
    }
}

/// How good the terrain around is, from what `get_terrain` reports at local vectors (`Some`
/// walkable, `None` unknown).
fn terrain_eval_func<F: Fn(Vec2<Local>) -> Option<bool>>(
    get_terrain: F,
    Ghost(probe): Ghost<spec_fn((int, int)) -> Option<bool>>,
) -> (r: i8)
    requires
        forall|v: Vec2<Local>| near(v@) ==> #[trigger] get_terrain.requires((v,)),
        forall|v: Vec2<Local>, o: Option<bool>| #[trigger]
            get_terrain.ensures((v,), o) ==> o == probe(v@),
    ensures
        r == terrain_eval(probe),
{
    let mut eval: i8 = 0;
    // back against the wall, very important
    if wall_at(&get_terrain, Vec2::new_back(1), Ghost(probe)) {
        eval = eval + 8;
    } else if wall_at(&get_terrain, Vec2::new_back(2), Ghost(probe)) {
        eval = eval + 4;
    }
    // left
    if wall_at(&get_terrain, Vec2::new_left(1), Ghost(probe)) {
        eval = eval + 2;
    } else if wall_at(&get_terrain, Vec2::new_left(2), Ghost(probe)) {
        // a free tile between the bot and the wall is better: from there it stabs bots safely
        eval = eval + 3;
    }
    // right
    if wall_at(&get_terrain, Vec2::new_right(1), Ghost(probe)) {
        eval = eval + 2;
    } else if wall_at(&get_terrain, Vec2::new_right(2), Ghost(probe)) {
        eval = eval + 3;
    }
    // front
    if wall_at(&get_terrain, Vec2::new_front(1), Ghost(probe)) {
        // even more important than the back against the wall: keep able to move at once
        eval = eval - 10;
    } else if wall_at(&get_terrain, Vec2::new_front(2), Ghost(probe)) {
        // one free tile in front is best, as then the bot stabs without moving first
        eval = eval + 1;
    }
    eval
}


/// The transform by `v`.
fn shifted(v: Vec2<Local>) -> (r: Transform)
    ensures
        r@ == shift(v@),
{
    proof {
        Transform::lemma_from_values(v, Rotation::Id);
    }
    Transform::from(v)
}

/// The candidate moves, in the order in which they are considered.
pub open spec fn motor_options() -> Seq<Option<MotorAction>> {
    seq![
        Some(MotorAction::Step),
        Some(MotorAction::StepBack),
        Some(MotorAction::TurnRight),
        Some(MotorAction::TurnLeft),
        None::<MotorAction>,
    ]
}

/// Where the bot is after the scan and the move `m`, relative to where it scanned.
pub open spec fn after_move(after_scan: TransformView, m: Option<MotorAction>) -> TransformView {
    chain_spec(after_scan, motor_transform(m))
}

/// The sum of the evaluations of `bots` (saturating at 255), and whether one of them is
/// stabbed, seen from `t`.
pub open spec fn bots_eval(bots: Seq<(int, int)>, t: TransformView, can_stab: bool, back_against_wall: bool) -> (
    int,
    bool,
)
    decreases bots.len(),
{
    if bots.len() == 0 {
        (0, false)
    } else {
        let acc = bots_eval(bots.drop_last(), t, can_stab, back_against_wall);
        let e = bot_eval(
            chain_spec(inverse_spec(t), shift(bots.last())).vec,
            can_stab,
            back_against_wall,
        );
        (if acc.0 + e.0 > 255 {
            255
        } else {
            acc.0 + e.0
        }, acc.1 || e.1)
    }
}

/// The evaluation of the move `m`: `None` where the bot cannot go there, otherwise whether it
/// stabs a bot, the evaluation of the bots, and that of the terrain (both lower is better).
#[verifier::opaque]
pub open spec fn candidate<D: RadarSize>(
    scan: &RadarScan<D>,
    after_scan: TransformView,
    bots: Seq<(int, int)>,
    can_stab: bool,
    m: Option<MotorAction>,
) -> Option<(bool, int, int)> {
    let t = after_move(after_scan, m);
    if scan_walkable(scan, t.vec) == Some(true) {
        let back_against_wall = scan_walkable(scan, chain_spec(t, shift((-1, 0))).vec) == Some(
            false,
        );
        let (bot, stab) = bots_eval(bots, t, can_stab, back_against_wall);
        let terrain = terrain_eval(|v: (int, int)| scan_walkable(scan, chain_spec(t, shift(v)).vec));
        Some((stab, bot, -terrain))
    } else {
        None
    }
}

/// Where the bot at `v`, local to `t`, stands in the frame of the scan.
pub open spec fn scan_vec(t: TransformView, v: (int, int)) -> (int, int) {
    chain_spec(t, shift(v)).vec
}

/// A vector seen from `t` is where it stands in the frame of the scan, seen from `t`.
proof fn lemma_seen_from(t: TransformView, v: (int, int))
    ensures
        chain_spec(inverse_spec(t), shift(scan_vec(t, v))).vec == v,
{
    match t.rotation {
        Rotation::Id => {},
        Rotation::Right => {},
        Rotation::Left => {},
        Rotation::Inverse => {},
    }
}

/// How a single bot near the moved bot counts in the evaluation of a move: one directly behind
/// counts 26, and nothing only where the tile directly behind the bot after the move is a known
/// wall (the enemy cannot come from there); one directly at either side counts 17 whatever the
/// walls; neither is stabbed.
pub proof fn law_bot_behind<D: RadarSize>(
    scan: &RadarScan<D>,
    after_scan: TransformView,
    can_stab: bool,
    m: Option<MotorAction>,
)
    ensures
        ({
            let t = after_move(after_scan, m);
            let behind = scan_vec(t, (-1, 0));
            candidate(scan, after_scan, seq![behind], can_stab, m) matches Some(c) ==> c.1 == (if scan_walkable(
                scan,
                behind,
            ) == Some(false) {
                0int
            } else {
                26int
            }) && !c.0
        }),
        ({
            let t = after_move(after_scan, m);
            candidate(scan, after_scan, seq![scan_vec(t, (0, 1))], can_stab, m) matches Some(c) ==> c.1 == 17 && !c.0
        }),
        ({
            let t = after_move(after_scan, m);
            candidate(scan, after_scan, seq![scan_vec(t, (0, -1))], can_stab, m) matches Some(c) ==> c.1 == 17
                && !c.0
        }),
{
    reveal(candidate);
    let t = after_move(after_scan, m);
    let back_against_wall = scan_walkable(scan, chain_spec(t, shift((-1, 0))).vec) == Some(false);
    let row3: Seq<int> = seq![2, 7, 17, 255, 17, 7, 2];
    let row4: Seq<int> = seq![1, 2, 5, 26, 5, 2, 1];
    assert(bot_table()[3] == row3);
    assert(bot_table()[4] == row4);
    assert(row3[4] == 17 && row3[2] == 17 && row4[3] == 26);
    lemma_single_bot(t, (-1, 0), can_stab, back_against_wall);
    lemma_single_bot(t, (0, 1), can_stab, back_against_wall);
    lemma_single_bot(t, (0, -1), can_stab, back_against_wall);
}

/// A single bot at local `v` of `t` is evaluated as `bot_eval` evaluates `v`.
proof fn lemma_single_bot(t: TransformView, v: (int, int), can_stab: bool, back_against_wall: bool)
    requires
        0 <= bot_eval(v, can_stab, back_against_wall).0 <= 255,
    ensures
        bots_eval(seq![scan_vec(t, v)], t, can_stab, back_against_wall) == bot_eval(v, can_stab, back_against_wall),
{
    let bots = seq![scan_vec(t, v)];
    assert(bots.drop_last() =~= Seq::<(int, int)>::empty());
    assert(bots_eval(Seq::<(int, int)>::empty(), t, can_stab, back_against_wall) == (0int, false));
    lemma_seen_from(t, v);
    assert(bots.last() == scan_vec(t, v));
}

/// The key by which moves are compared, lowest first: the evaluation of the bots (with a
/// penalty for stepping back while there are bots, as it takes long), that of the terrain,
/// then stepping forward first, then not moving first.
pub open spec fn move_key(m: Option<MotorAction>, any_bots: bool, bot: int, terrain: int) -> (
    int,
    int,
    bool,
    bool,
) {
    (
        bot + if m == Some(MotorAction::StepBack) && any_bots {
            3int
        } else {
            0int
        },
        terrain,
        m != Some(MotorAction::Step),
        m is Some,
    )
}

/// Key `a` comes strictly before key `b`.
pub open spec fn key_lt(a: (int, int, bool, bool), b: (int, int, bool, bool)) -> bool {
    ||| a.0 < b.0
    ||| a.0 == b.0 && a.1 < b.1
    ||| a.0 == b.0 && a.1 == b.1 && !a.2 && b.2
    ||| a.0 == b.0 && a.1 == b.1 && a.2 == b.2 && !a.3 && b.3
}

/// The key of option `j`, which must be a possible move.
pub open spec fn option_key<D: RadarSize>(
    scan: &RadarScan<D>,
    after_scan: TransformView,
    bots: Seq<(int, int)>,
    can_stab: bool,
    j: int,
) -> (int, int, bool, bool) {
    let c = candidate(scan, after_scan, bots, can_stab, motor_options()[j]).unwrap();
    move_key(motor_options()[j], bots.len() > 0, c.1, c.2)
}

/// Option `k` is the first of the possible moves with the lowest key.
pub open spec fn best_option<D: RadarSize>(
    scan: &RadarScan<D>,
    after_scan: TransformView,
    bots: Seq<(int, int)>,
    can_stab: bool,
    k: int,
) -> bool {
    &&& 0 <= k < 5
    &&& candidate(scan, after_scan, bots, can_stab, motor_options()[k]) is Some
    &&& forall|j: int|
        0 <= j < 5 && #[trigger] candidate(scan, after_scan, bots, can_stab, motor_options()[j])
            is Some ==> !key_lt(
            option_key(scan, after_scan, bots, can_stab, j),
            option_key(scan, after_scan, bots, can_stab, k),
        ) && (j < k ==> key_lt(
            option_key(scan, after_scan, bots, can_stab, k),
            option_key(scan, after_scan, bots, can_stab, j),
        ))
}

/// A transform with a translation of at most `n` tiles along each axis.
pub open spec fn small_transform(t: TransformView, n: int) -> bool {
    -n <= t.vec.0 <= n && -n <= t.vec.1 <= n
}

/// The evaluation of the move `m` after `after_scan`.
fn evaluate<D: RadarSize>(
    after_scan: Transform,
    m: Option<MotorAction>,
    radar_scan: &RadarScan<D>,
    bots: &[Vec2<Local>],
    can_stab: bool,
) -> (r: Option<(bool, u8, i8)>)
    requires
        small_transform(after_scan@, 1),
        forall|k: int| 0 <= k < bots@.len() ==> -4 <= (#[trigger] bots@[k])@.0 <= 4 && -4 <= bots@[k]@.1 <= 4,
    ensures
        match r {
            Some((stab, bot, terrain)) => candidate(
                radar_scan,
                after_scan@,
                bots@.map_values(|b: Vec2<Local>| b@),
                can_stab,
                m,
            ) == Some((stab, bot as int, terrain as int)),
            None => candidate(
                radar_scan,
                after_scan@,
                bots@.map_values(|b: Vec2<Local>| b@),
                can_stab,
                m,
            ) is None,
        },
{
    reveal(candidate);
    let ghost bv = bots@.map_values(|b: Vec2<Local>| b@);
    let mt = MotorAction::to_transform(m);
    let t = after_scan.chain(mt);
    let next_location = t.translation();
    let possible = match radar_scan.at(next_location) {
        Some(tile) => tile.is_walkable_terrain(),
        None => false,
    };
    if !possible {
        return None;
    }
    let back = t.chain(shifted(Vec2::new_back(1)));
    let back_against_wall = match radar_scan.at(back.translation()) {
        Some(tile) => !tile.is_walkable_terrain(),
        None => false,
    };
    // add the evaluation of all bots
    let inv = t.inverse();
    let mut bot_eval: u8 = 0;
    let mut stab = false;
    let mut k: usize = 0;
    while k < bots.len()
        invariant
            k <= bots@.len(),
            bv == bots@.map_values(|b: Vec2<Local>| b@),
            inv@ == inverse_spec(t@),
            small_transform(t@, 2),
            forall|j: int| 0 <= j < bots@.len() ==> -4 <= (#[trigger] bots@[j])@.0 <= 4 && -4 <= bots@[j]@.1 <= 4,
            (bot_eval as int, stab) == bots_eval(bv.subrange(0, k as int), t@, can_stab, back_against_wall),
        decreases bots@.len() - k,
    {
        let rel = inv.chain(shifted(bots[k])).translation();
        let (value, s) = bot_eval_func(rel, can_stab, back_against_wall);
        proof {
            assert(bv.subrange(0, k as int + 1).drop_last() =~= bv.subrange(0, k as int));
            assert(bv.subrange(0, k as int + 1).last() == bots@[k as int]@);
        }
        bot_eval = bot_eval.saturating_add(value);
        stab = stab || s;
        k = k + 1;
    }
    assert(bv.subrange(0, k as int) =~= bv);
    let ghost probe = |v: (int, int)| scan_walkable(radar_scan, chain_spec(t@, shift(v)).vec);
    let get_terrain = |vec: Vec2<Local>| -> (o: Option<bool>)
        requires
            near(vec@),
        ensures
            o == scan_walkable(radar_scan, chain_spec(t@, shift(vec@)).vec),
        {
            let moved = t.chain(shifted(vec));
            match radar_scan.at(moved.translation()) {
                Some(tile) => Some(tile.is_walkable_terrain()),
                None => None,
            }
        };
    let terrain = terrain_eval_func(get_terrain, Ghost(probe));
    assert(-128 <= -(terrain as int) <= 127) by {
        assert(-10 <= terrain_eval(probe) <= 16);
    }
    Some((stab, bot_eval, -terrain))
}

/// Key `a` comes strictly before key `b`.
fn key_less(a: (u16, i8, bool, bool), b: (u16, i8, bool, bool)) -> (r: bool)
    ensures
        r == key_lt((a.0 as int, a.1 as int, a.2, a.3), (b.0 as int, b.1 as int, b.2, b.3)),
{
    if a.0 != b.0 {
        a.0 < b.0
    } else if a.1 != b.1 {
        a.1 < b.1
    } else if a.2 != b.2 {
        !a.2
    } else {
        !a.3 && b.3
    }
}

/// The next move, after `after_scan` since `radar_scan` was taken at `time_stamp`: the first of
/// the possible moves with the lowest key, and a stab where that move lets the bot stab another;
/// no move and no stab where the bot can go nowhere.
pub fn movement<C: ClockBackend, D: RadarSize>(
    _pos: Position,
    _direction: Direction,
    after_scan: Transform,
    radar_scan: &RadarScan<D>,
    bots: &[Vec2<Local>],
    can_stab: bool,
    time_stamp: Instant<C>,
) -> (r: MotorArmAction<C>)
    requires
        small_transform(after_scan@, 1),
        forall|k: int| 0 <= k < bots@.len() ==> -4 <= (#[trigger] bots@[k])@.0 <= 4 && -4 <= bots@[k]@.1 <= 4,
        time_stamp@ + MAX_STAB_WAIT <= u32::MAX,
    ensures
        ({
            let bv = bots@.map_values(|b: Vec2<Local>| b@);
            &&& (forall|j: int|
                0 <= j < 5 ==> #[trigger] candidate(radar_scan, after_scan@, bv, can_stab, motor_options()[j])
                    is None) ==> r.motor is None && r.arm is None
            &&& (exists|j: int|
                0 <= j < 5 && #[trigger] candidate(radar_scan, after_scan@, bv, can_stab, motor_options()[j])
                    is Some) ==> exists|k: int|
                best_option(radar_scan, after_scan@, bv, can_stab, k) && r.motor == motor_options()[k]
                    && (r.arm is Some <==> candidate(
                    radar_scan,
                    after_scan@,
                    bv,
                    can_stab,
                    motor_options()[k],
                ).unwrap().0)
        }),
        r.arm is Some ==> r.arm == Some(ArmAction::Stab),
        r.arm_timeout@ == time_stamp@ + MAX_STAB_WAIT,
{
    let ghost bv = bots@.map_values(|b: Vec2<Local>| b@);
    let max_stab_wait = Duration::from_ticks(MAX_STAB_WAIT);
    let options = MotorAction::all_and_nothing();
    let any_bots = bots.len() > 0;
    let mut best: Option<(usize, bool, (u16, i8, bool, bool))> = None;
    let mut j: usize = 0;
    while j < 5
        invariant
            j <= 5,
            options@ == motor_options(),
            bv == bots@.map_values(|b: Vec2<Local>| b@),
            any_bots == (bots@.len() > 0),
            small_transform(after_scan@, 1),
            forall|k: int| 0 <= k < bots@.len() ==> -4 <= (#[trigger] bots@[k])@.0 <= 4 && -4 <= bots@[k]@.1 <= 4,
            best is None <==> forall|i: int|
                0 <= i < j ==> #[trigger] candidate(radar_scan, after_scan@, bv, can_stab, motor_options()[i])
                    is None,
            best matches Some((k, stab, key)) ==> {
                &&& k < j
                &&& candidate(radar_scan, after_scan@, bv, can_stab, motor_options()[k as int]) is Some
                &&& stab == candidate(radar_scan, after_scan@, bv, can_stab, motor_options()[k as int]).unwrap().0
                &&& (key.0 as int, key.1 as int, key.2, key.3) == option_key(radar_scan, after_scan@, bv, can_stab, k as int)
                &&& forall|i: int|
                    0 <= i < j && #[trigger] candidate(radar_scan, after_scan@, bv, can_stab, motor_options()[i])
                        is Some ==> !key_lt(
                        option_key(radar_scan, after_scan@, bv, can_stab, i),
                        option_key(radar_scan, after_scan@, bv, can_stab, k as int),
                    ) && (i < k ==> key_lt(
                        option_key(radar_scan, after_scan@, bv, can_stab, k as int),
                        option_key(radar_scan, after_scan@, bv, can_stab, i),
                    ))
            },
        decreases 5 - j,
    {
        let m = options[j];
        match evaluate(after_scan, m, radar_scan, bots, can_stab) {
            Some((stab, bot_eval, wall_eval)) => {
                // stepping back costs time, which counts where there are bots
                let penalty: u16 = if m == Some(MotorAction::StepBack) && any_bots {
                    3
                } else {
                    0
                };
                let key = (bot_eval as u16 + penalty, wall_eval, m != Some(MotorAction::Step), m.is_some());
                assert((key.0 as int, key.1 as int, key.2, key.3) == option_key(radar_scan, after_scan@, bv, can_stab, j as int));
                let better = match best {
                    None => true,
                    Some((_, _, best_key)) => key_less(key, best_key),
                };
                if better {
                    best = Some((j, stab, key));
                }
            },
            None => {},
        }
        j = j + 1;
    }
    let (motor, stab) = match best {
        Some((k, stab, _)) => (options[k], stab),
        None => (None, false),
    };
    MotorArmAction {
        motor,
        arm: if stab {
            Some(ArmAction::Stab)
        } else {
            None
        },
        arm_timeout: time_stamp + max_stab_wait,
    }
}


/// The bots the scan shows, as local vectors in iteration order.
pub open spec fn scanned_bots<D: RadarSize>(scan: &RadarScan<D>) -> Seq<(int, int)> {
    iteration_order(D::radius_spec()).filter(
        |o: (int, int)| o != (0int, 0int) && scan.tile_at(o) == Tile::Bot,
    ).map_values(|o: (int, int)| offset_to_vec(o))
}

/// The bots in the scan that have not been stabbed: where the bot has stabbed after the move
/// `transform`, the bot in front of it then is gone.
pub fn get_bot_list<D: RadarSize>(transform: Transform, has_stabbed: bool, radar_scan: &RadarScan<D>) -> (r: Vec<Vec2<Local>>)
    requires
        small_transform(transform@, 1),
    ensures
        r@.map_values(|v: Vec2<Local>| v@) == scanned_bots(radar_scan).filter(
            |v: (int, int)| !has_stabbed || v != chain_spec(transform@, shift((1, 0))).vec,
        ),
{
    let all = radar_scan.iter_tile(Tile::Bot);
    let ghost stabbed = chain_spec(transform@, shift((1, 0))).vec;
    let ghost keep = |v: (int, int)| !has_stabbed || v != stabbed;
    let stabbed_location = transform.chain(shifted(Vec2::new_front(1))).translation();
    let ghost av = all@.map_values(|v: Vec2<Local>| v@);
    let mut r: Vec<Vec2<Local>> = Vec::new();
    let mut k: usize = 0;
    while k < all.len()
        invariant
            k <= all@.len(),
            av == all@.map_values(|v: Vec2<Local>| v@),
            stabbed_location@ == stabbed,
            keep == (|v: (int, int)| !has_stabbed || v != stabbed),
            r@.map_values(|v: Vec2<Local>| v@) == av.subrange(0, k as int).filter(keep),
        decreases all@.len() - k,
    {
        let v = all[k];
        proof {
            let s = av.subrange(0, k as int + 1);
            assert(s.drop_last() =~= av.subrange(0, k as int));
            assert(s.last() == v@);
            av.subrange(0, k as int).lemma_filter_push(v@, keep);
            assert(s =~= av.subrange(0, k as int).push(v@));
        }
        let ghost r0 = r@;
        if !has_stabbed || v != stabbed_location {
            r.push(v);
            assert(r@.map_values(|v: Vec2<Local>| v@) =~= r0.map_values(|v: Vec2<Local>| v@).push(v@));
        }
        k = k + 1;
    }
    assert(av.subrange(0, k as int) =~= av);
    r
}


/// The tile one step ahead (`forward`) or behind, for a bot facing `direction`.
pub open spec fn step_vec(direction: Direction, forward: bool) -> (int, int) {
    local_to_global(if forward { (1int, 0int) } else { (-1int, 0int) }, direction)
}

/// Whether `p` moved by `v` stays on the `i16` grid.
pub open spec fn step_fits(p: (int, int), v: (int, int)) -> bool {
    fits_i16(p.0 + v.0) && fits_i16(p.1 + v.1)
}

/// Where the bot stands and where it faces after carrying out `action`: a turn changes the
/// facing, a step moves one tile ahead or back. `None` where the step would leave the `i16` grid.
pub fn apply_motor(action: MotorAction, position: Position, direction: Direction) -> (r: Option<(Position, Direction)>)
    ensures
        match action {
            MotorAction::TurnLeft => r == Some((position, direction.rotated(Rotation::Left))),
            MotorAction::TurnRight => r == Some((position, direction.rotated(Rotation::Right))),
            MotorAction::Step => {
                let v = step_vec(direction, true);
                &&& r is Some <==> step_fits(position@, v)
                &&& r matches Some(pd) ==> pd.0@ == (position@.0 + v.0, position@.1 + v.1) && pd.1 == direction
            },
            MotorAction::StepBack => {
                let v = step_vec(direction, false);
                &&& r is Some <==> step_fits(position@, v)
                &&& r matches Some(pd) ==> pd.0@ == (position@.0 + v.0, position@.1 + v.1) && pd.1 == direction
            },
        },
{
    let local = match action {
        MotorAction::TurnLeft => {
            return Some((position, direction + Rotation::Left));
        },
        MotorAction::TurnRight => {
            return Some((position, direction + Rotation::Right));
        },
        MotorAction::Step => Vec2::new_front(1),
        MotorAction::StepBack => Vec2::new_back(1),
    };
    let v = local.global(direction);
    let p = position.subtract_anchor();
    let east = p.east() as i32 + v.east() as i32;
    let south = p.south() as i32 + v.south() as i32;
    if east < i16::MIN as i32 || east > i16::MAX as i32 || south < i16::MIN as i32 || south > i16::MAX as i32 {
        return None;
    }
    Some((position + v, direction))
}

} // verus!
