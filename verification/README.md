# async_kartoffel

Building blocks for bots of the kartoffels game, written in Verus: every function of the
library carries a `requires`/`ensures` contract that Verus proves.

What the library holds:

- geometry: directions, rotations, local and global vectors, positions and transforms
  (`direction`, `vec2`, `position`, `transform`, `pos`);
- the bot's clock, timers and cooldowns (`clock`), and a running statistic of durations
  (`stats`);
- radar scans and the rule that a scan cannot be replaced while it is still read (`radar`);
- the decisions of the simple runner bot: which way to turn, step or stab given a scan
  (`runner`);
- maps: chunked storage of positions (`chunk_map`, `chunk_map_hash`), the terrain map read
  from text and its compact bit form (`terrain_map`, `true_map`), map sections for GPS
  (`gps`, `map_chunks`);
- navigation on the grid: a resumable search from the target outwards (`grid_nav`,
  `navigation`);
- navigation with beacons: trivial navigation between two cells (`trivial_nav`), the beacon
  graph and its construction (`graph`, `const_graph`, `const_graph_builder`, `beacon_graph`,
  `beacon_nav`), and the best-first search over beacons that finds the shortest route from
  the start to the destination (`beacon_search`), driven through the typed states of
  `navigator`.

Laws of the library are public proof functions whose names begin with `law_`.

Layout:

- `src/`: the verified library;
- `tests/`: tests that run the library on concrete values;
- `app/`: the parts that talk to the bot's hardware or to files, and the command-line tools;
  Verus does not read it.

Collections of fixed capacity are `Vec`s whose capacity, and where it matters their order,
are stated and proved as invariants; the `heapless`, `ndarray`, `ndarray-stats` and
`critical-section` entries of `Cargo.toml` are not used by the code.
