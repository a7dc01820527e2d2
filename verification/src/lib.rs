//! Verified building blocks for kartoffel bots: grid geometry, clocks, radar scans, chunked maps,
//! distance measures, and beacon based navigation.
mod beacon;
mod beacon_search;
mod beacon_nav;
mod beacon_graph;
mod chunk_map;
mod chunk_map_hash;
mod pos_map;
mod clock;
mod const_graph;
mod const_graph_builder;
pub mod const_global_pos;
pub mod const_vec2;
mod decimal;
mod direction;
mod gps;
pub mod graph;
mod grid_nav;
mod map_chunks;
mod measure;
mod navigation;
mod navigator;
mod pos;
mod vec2;
mod position;
mod radar;
mod runner;
mod stats;
mod tile;
mod trivial_nav;
mod true_map;
mod terrain_map;
mod testing;
mod transform;

pub use direction::{Direction, Rotation};
pub use vec2::{Coords, Global, Local, Vec2};
pub use position::{AnchorDefault, Position, PositionAnchor};
pub use tile::Tile;
pub use transform::Transform;
pub use clock::{law_elapsed, ClockBackend, Cooldown, CooldownType, Duration, Instant, Timer};
pub use radar::{Guard, Radar, RadarError, RadarScan, RadarScanTrait, RadarScanWeak, RadarSize, D3, D5, D7, D9};
pub use measure::{
    distance_walk_with_rotation, DistanceBotStab, DistanceBotWalk, DistanceManhattan, DistanceMax,
    DistanceMeasure, DistanceMin,
};
pub use chunk_map::{to_chunk_pos, Chunk, ChunkBool, ChunkIndex, ChunkLocation, ChunkMap, IterInChunk};
pub use chunk_map_hash::ChunkMapHash;
pub use pos_map::PosMap;
pub use grid_nav::{law_shortest_walk, Navigation};
pub use navigation::{law_next_step_descends, DirectionCombination, NavigationTask, NoTarget, OutOfMemory, State};
pub use stats::StatsDog;
pub use const_graph::{ConstSparseGraph, ConstSparseGraphNode, Graph};
pub use const_graph_builder::{is_sorted_deduplicated, law_builder_graph, ConstSparseGraphBuilder};
pub use decimal::push_decimal;
pub use pos::{pos_east_south, GlobalPos, GpsAnchor};
pub use true_map::{TrueMap, TrueMapImpl};
pub use beacon::{BeaconInfo, Buffer, NavigatorError, ScheduledUpdate, UpdateType};
pub use trivial_nav::{is_navigation_trivial, law_trivial_nav_local};
pub use beacon_search::{heap_alloc_array, NavigatorContext, NavigatorResourcesImpl};
pub use beacon_nav::{get_trivial_navigables, law_trivial_predicates_agree};
pub use beacon_graph::{build_trivial_navigation_graph, find_beacons, get_beacon_info, law_greedy_beacons, PosGraph};
pub use gps::{law_compress_unique, law_section_roundtrip, MapSection, MapSectionTrait, OutOfBounds};
pub use runner::{
    apply_motor, bot_eval_func, get_bot_list, instincts, law_bot_behind, law_instincts_stab, movement, ArmAction,
    MotorAction, MotorArmAction,
    MAX_STAB_WAIT,
};
pub use terrain_map::{
    law_builder_true_map, IncompleteMap, MapError, PositionBiMap, TerrainMap, TrueMapBuilder,
};
pub use navigator::{
    Failed, Initialized, Navigator, NavigatorEnum, NavigatorResources, NavigatorState,
    NavigatorStateFailed, NavigatorStateHasDestination, NavigatorStateHasDestinationNoPath,
    NavigatorStateHasPath, NavigatorStateHasStart, NavigatorStateResettable, New, OnlyDestination,
    OnlyStart, Ready, UpdateFailed, UpdateScheduled,
};
pub use testing::{test_summary, TestError};
