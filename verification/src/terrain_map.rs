use vstd::prelude::*;
use vstd::string::{StrSliceExecFns, StringExecFns};

use crate::pos::GlobalPos;
use crate::position::Position;
use crate::decimal::{decimal, push_decimal};
use crate::gps::MapSectionTrait;
use crate::radar::{within, RadarSize};
use crate::vec2::Global;
use crate::tile::Tile;
use crate::true_map::{bit_of, TrueMap, TrueMapImpl};
use crate::vec2::Vec2;

verus! {

/// Why building a map failed.
#[derive(Debug, Clone, Copy, PartialEq, Eq, Structural)]
pub enum MapError {
    /// A position lies outside the map.
    OutOfBounds,
    /// A character shows no tile.
    UnknownChar(char),
    /// Line `line` (counted from 0) has `found` characters where the first line has `expected`.
    LineLength { line: usize, expected: usize, found: usize },
    /// There are no lines, so the width is unknown.
    NoLines,
    /// There is no map to combine.
    NoMaps,
    /// The maps to combine differ in height.
    HeightMismatch,
    /// The maps to combine differ in width.
    WidthMismatch,
    /// The tiles of a map to combine do not match its size.
    LengthMismatch,
    /// Two maps to combine disagree on a tile.
    Conflict,
    /// No map to combine knows the tile at line `line` and column `col` (counted from 1).
    Incomplete { line: usize, col: usize },
}

/// A complete map of walkable terrain, row by row from the north-west corner.
#[derive(Debug)]
pub struct TerrainMap {
    pub tiles: Vec<bool>,
    pub width: usize,
    pub height: usize,
}

/// A map of walkable terrain where some tiles are unknown (`None`).
#[derive(Debug)]
pub struct IncompleteMap {
    pub tiles: Vec<Option<bool>>,
    pub width: usize,
    pub height: usize,
}

/// The number of `true` entries of `s`.
pub open spec fn count_true(s: Seq<bool>) -> nat
    decreases s.len(),
{
    if s.len() == 0 {
        0
    } else {
        count_true(s.drop_last()) + if s.last() {
            1nat
        } else {
            0nat
        }
    }
}

pub(crate) proof fn lemma_count_true_bound(s: Seq<bool>)
    ensures
        count_true(s) <= s.len(),
    decreases s.len(),
{
    if s.len() > 0 {
        lemma_count_true_bound(s.drop_last());
    }
}

/// The index of the cell `east` tiles east and `south` tiles south of the north-west corner of
/// a map of width `width`, for a cell inside a map of height `height`, lies within the map.
pub(crate) proof fn lemma_cell_index(east: int, south: int, width: int, height: int)
    requires
        0 <= east < width,
        0 <= south < height,
    ensures
        0 <= south * width + east < width * height,
{
    assert(south * width + east < width * height) by (nonlinear_arith)
        requires
            0 <= east < width,
            0 <= south < height,
    ;
    assert(0 <= south * width) by (nonlinear_arith)
        requires
            0 <= south,
            0 <= width,
    ;
}

impl TerrainMap {
    /// The tiles match the size.
    pub open spec fn wf(&self) -> bool {
        self.tiles@.len() == self.width * self.height
    }

    /// Whether `pos` (east, south of the north-west corner) is walkable; outside the map it is
    /// not.
    pub open spec fn walkable(&self, pos: (int, int)) -> bool {
        &&& 0 <= pos.0 < self.width
        &&& 0 <= pos.1 < self.height
        &&& self.tiles@[pos.1 * self.width + pos.0]
    }

    /// A map of the same size with no walkable tile.
    pub fn new_like(&self) -> (r: Self)
        requires
            self.width * self.height <= usize::MAX,
        ensures
            r.width == self.width,
            r.height == self.height,
            r.wf(),
            forall|i: int| 0 <= i < r.tiles@.len() ==> !(#[trigger] r.tiles@[i]),
    {
        let n = self.width * self.height;
        let mut tiles: Vec<bool> = Vec::new();
        let mut i: usize = 0;
        while i < n
            invariant
                i <= n,
                tiles@.len() == i,
                forall|j: int| 0 <= j < i ==> !(#[trigger] tiles@[j]),
            decreases n - i,
        {
            tiles.push(false);
            i = i + 1;
        }
        Self { tiles, width: self.width, height: self.height }
    }

    /// The number of walkable tiles.
    pub fn n_walkable(&self) -> (r: usize)
        ensures
            r == count_true(self.tiles@),
    {
        let mut count: usize = 0;
        let mut i: usize = 0;
        while i < self.tiles.len()
            invariant
                i <= self.tiles@.len(),
                count == count_true(self.tiles@.subrange(0, i as int)),
            decreases self.tiles@.len() - i,
        {
            proof {
                let s = self.tiles@.subrange(0, i as int + 1);
                assert(s.drop_last() =~= self.tiles@.subrange(0, i as int));
                lemma_count_true_bound(s);
            }
            if self.tiles[i] {
                count = count + 1;
            }
            i = i + 1;
        }
        assert(self.tiles@.subrange(0, i as int) =~= self.tiles@);
        count
    }

    /// Whether `pos` is walkable; outside the map it is not.
    pub fn get(&self, pos: GlobalPos) -> (r: bool)
        requires
            self.wf(),
        ensures
            r == self.walkable(pos@),
    {
        let vec = pos.subtract_anchor();
        let len = self.tiles.len();
        let south = vec.south();
        let east = vec.east();
        if south < 0 || east < 0 {
            return false;
        }
        let south = south as usize;
        let east = east as usize;
        if south < self.height && east < self.width {
            proof {
                lemma_cell_index(east as int, south as int, self.width as int, self.height as int);
            }
            self.tiles[south * self.width + east]
        } else {
            false
        }
    }

    /// Sets whether `pos` is walkable; fails outside the map.
    pub fn set(&mut self, pos: GlobalPos, val: bool) -> (r: Result<(), MapError>)
        requires
            old(self).wf(),
        ensures
            final(self).wf(),
            final(self).width == old(self).width,
            final(self).height == old(self).height,
            r is Ok <==> (0 <= pos@.0 < old(self).width && 0 <= pos@.1 < old(self).height),
            r is Err ==> r == Err::<(), MapError>(MapError::OutOfBounds) && final(self).tiles@
                == old(self).tiles@,
            r is Ok ==> final(self).tiles@ == old(self).tiles@.update(
                pos@.1 * old(self).width + pos@.0,
                val,
            ),
            forall|p: (int, int)|
                #[trigger] final(self).walkable(p) == if p == pos@ && r is Ok {
                    val
                } else {
                    old(self).walkable(p)
                },
    {
        let vec = pos.subtract_anchor();
        let len = self.tiles.len();
        let south = vec.south();
        let east = vec.east();
        if south < 0 || east < 0 {
            return Err(MapError::OutOfBounds);
        }
        let south = south as usize;
        let east = east as usize;
        if south < self.height && east < self.width {
            proof {
                lemma_cell_index(east as int, south as int, self.width as int, self.height as int);
            }
            let ghost w = self.width as int;
            let ghost h = self.height as int;
            let ghost before = self.tiles@;
            self.tiles.set(south * self.width + east, val);
            proof {
                assert forall|p: (int, int)| #[trigger] self.walkable(p) == if p == pos@ {
                    val
                } else {
                    0 <= p.0 < w && 0 <= p.1 < h && before[p.1 * w + p.0]
                } by {
                    if 0 <= p.0 < w && 0 <= p.1 < h && p != pos@ {
                        lemma_cell_index(p.0, p.1, w, h);
                        if p.1 * w + p.0 == south * w + east {
                            assert(p.1 == south as int && p.0 == east as int) by (nonlinear_arith)
                                requires
                                    p.1 * w + p.0 == south * w + east,
                                    0 <= p.0 < w,
                                    0 <= east < w,
                                    0 <= p.1,
                                    0 <= south,
                            ;
                        }
                    }
                }
            }
            Ok(())
        } else {
            Err(MapError::OutOfBounds)
        }
    }
}


/// Whether `c` shows a tile of walkable terrain.
pub open spec fn walkable_char(c: char) -> bool {
    c == '@' || c == '.' || c == '+' || c == '*' || c == '='
}

/// Whether `c` is one of the arrows that show a bot, and hide the terrain below it.
pub open spec fn arrow_char(c: char) -> bool {
    c == '\u{2190}' || c == '\u{2191}' || c == '\u{2192}' || c == '\u{2193}'
}

/// The walkable terrain shown by a line.
pub open spec fn parse_line(s: Seq<char>) -> Seq<bool> {
    s.map_values(|c: char| walkable_char(c))
}

/// The terrain shown by a line where arrows hide it.
pub open spec fn parse_incomplete_line(s: Seq<char>) -> Seq<Option<bool>> {
    s.map_values(|c: char| if arrow_char(c) { None } else { Some(walkable_char(c)) })
}

/// The walkable terrain shown by lines, row by row.
pub open spec fn parse_lines(ls: Seq<String>) -> Seq<bool>
    decreases ls.len(),
{
    if ls.len() == 0 {
        Seq::empty()
    } else {
        parse_lines(ls.drop_last()) + parse_line(ls.last()@)
    }
}

/// The terrain shown by lines where arrows hide it, row by row.
pub open spec fn parse_incomplete_lines(ls: Seq<String>) -> Seq<Option<bool>>
    decreases ls.len(),
{
    if ls.len() == 0 {
        Seq::empty()
    } else {
        parse_incomplete_lines(ls.drop_last()) + parse_incomplete_line(ls.last()@)
    }
}

/// Every character of `s` shows a tile.
pub open spec fn all_tile_chars(s: Seq<char>) -> bool {
    forall|i: int| 0 <= i < s.len() ==> Tile::is_tile_char(#[trigger] s[i])
}

/// Every character of `s` shows a tile or is an arrow.
pub open spec fn all_incomplete_chars(s: Seq<char>) -> bool {
    forall|i: int| 0 <= i < s.len() ==> Tile::is_tile_char(#[trigger] s[i]) || arrow_char(s[i])
}

/// `c` is the first character of `s` that shows no tile.
pub open spec fn first_bad_char(s: Seq<char>, c: char) -> bool {
    exists|k: int|
        0 <= k < s.len() && s[k] == c && !Tile::is_tile_char(c) && forall|j: int|
            0 <= j < k ==> Tile::is_tile_char(#[trigger] s[j])
}

/// `c` is the first character of `s` that shows no tile and is no arrow.
pub open spec fn first_bad_incomplete_char(s: Seq<char>, c: char) -> bool {
    exists|k: int|
        0 <= k < s.len() && s[k] == c && !Tile::is_tile_char(c) && !arrow_char(c) && forall|j: int|
            0 <= j < k ==> Tile::is_tile_char(#[trigger] s[j]) || arrow_char(s[j])
}

proof fn lemma_tile_char_walkable(c: char)
    requires
        Tile::is_tile_char(c),
    ensures
        (choose|t: Tile| t.char_of() == c).walkable() == walkable_char(c),
{
    let t = choose|t: Tile| t.char_of() == c;
    assert(t.char_of() == c);
}

/// The lines `ls` all have length `w` and show `parse_lines(ls)`, of length `ls.len() * w`.
proof fn lemma_parse_lines_len(ls: Seq<String>, w: int)
    requires
        forall|i: int| 0 <= i < ls.len() ==> (#[trigger] ls[i])@.len() == w,
    ensures
        parse_lines(ls).len() == ls.len() * w,
        parse_incomplete_lines(ls).len() == ls.len() * w,
    decreases ls.len(),
{
    if ls.len() > 0 {
        assert forall|i: int| 0 <= i < ls.drop_last().len() implies (#[trigger] ls.drop_last()[i])@.len()
            == w by {
            assert(ls.drop_last()[i] == ls[i]);
        }
        lemma_parse_lines_len(ls.drop_last(), w);
        assert(ls.last() == ls[ls.len() - 1]);
        assert((ls.len() - 1) * w + w == ls.len() * w) by (nonlinear_arith);
    }
}

impl TerrainMap {
    /// Appends the walkable terrain shown by `line` to `vec`; fails at the first character that
    /// shows no tile.
    fn process_line(vec: &mut Vec<bool>, line: &str) -> (r: Result<(), MapError>)
        ensures
            r is Ok <==> all_tile_chars(line@),
            r is Ok ==> final(vec)@ == old(vec)@ + parse_line(line@),
            r matches Err(e) ==> e matches MapError::UnknownChar(c) && first_bad_char(line@, c),
    {
        let n = line.unicode_len();
        let ghost v0 = vec@;
        let mut i: usize = 0;
        while i < n
            invariant
                i <= n,
                n == line@.len(),
                vec@ == v0 + parse_line(line@.subrange(0, i as int)),
                forall|j: int| 0 <= j < i ==> Tile::is_tile_char(#[trigger] line@[j]),
            decreases n - i,
        {
            let c = line.get_char(i);
            match Tile::from_char(c) {
                Some(tile) => {
                    proof {
                        assert(Tile::is_tile_char(c));
                        lemma_tile_char_walkable(c);
                        law_char_tile(tile, c);
                    }
                    vec.push(tile.is_walkable_terrain());
                    proof {
                        assert(parse_line(line@.subrange(0, i as int + 1)) =~= parse_line(
                            line@.subrange(0, i as int),
                        ).push(walkable_char(c)));
                    }
                },
                None => {
                    assert(first_bad_char(line@, c)) by {
                        assert(line@[i as int] == c);
                    }
                    return Err(MapError::UnknownChar(c));
                },
            }
            i = i + 1;
        }
        assert(line@.subrange(0, n as int) =~= line@);
        Ok(())
    }

    /// The map shown by `lines`, one row of tiles per line; fails where a line differs in
    /// length from the first, at the first character that shows no tile, or where there is no
    /// line at all.
    pub fn from_lines(lines: &[String]) -> (r: Result<Self, MapError>)
        ensures
            lines@.len() == 0 ==> r == Err::<Self, MapError>(MapError::NoLines),
            lines@.len() > 0 ==> (r is Ok <==> forall|i: int|
                0 <= i < lines@.len() ==> (#[trigger] lines@[i])@.len() == lines@[0]@.len()
                    && all_tile_chars(lines@[i]@)),
            r matches Ok(m) ==> {
                &&& m.width == lines@[0]@.len()
                &&& m.height == lines@.len()
                &&& m.tiles@ == parse_lines(lines@)
                &&& m.wf()
            },
            r matches Err(e) ==> lines@.len() == 0 || exists|j: int|
                #![trigger lines@[j]]
                0 <= j < lines@.len() && (forall|i: int|
                    0 <= i < j ==> (#[trigger] lines@[i])@.len() == lines@[0]@.len()
                        && all_tile_chars(lines@[i]@)) && if lines@[j]@.len() != lines@[0]@.len() {
                    e == MapError::LineLength {
                        line: j as usize,
                        expected: lines@[0]@.len() as usize,
                        found: lines@[j]@.len() as usize,
                    }
                } else {
                    e matches MapError::UnknownChar(c) && first_bad_char(lines@[j]@, c)
                },
    {
        if lines.len() == 0 {
            return Err(MapError::NoLines);
        }
        let width = lines[0].as_str().unicode_len();
        let mut tiles: Vec<bool> = Vec::new();
        let mut height: usize = 0;
        while height < lines.len()
            invariant
                0 < lines@.len(),
                height <= lines@.len(),
                width == lines@[0]@.len(),
                tiles@ == parse_lines(lines@.subrange(0, height as int)),
                forall|i: int|
                    0 <= i < height ==> (#[trigger] lines@[i])@.len() == width && all_tile_chars(
                        lines@[i]@,
                    ),
            decreases lines@.len() - height,
        {
            let line = lines[height].as_str();
            let line_width = line.unicode_len();
            if line_width != width {
                return Err(MapError::LineLength { line: height, expected: width, found: line_width });
            }
            let ghost t0 = tiles@;
            match Self::process_line(&mut tiles, line) {
                Ok(()) => {},
                Err(e) => {
                    return Err(e);
                },
            }
            proof {
                let ls = lines@.subrange(0, height as int + 1);
                assert(ls.drop_last() =~= lines@.subrange(0, height as int));
                assert(ls.last() == lines@[height as int]);
            }
            height = height + 1;
        }
        proof {
            assert(lines@.subrange(0, height as int) =~= lines@);
            lemma_parse_lines_len(lines@, width as int);
            assert(lines@.len() * width == width * lines@.len()) by (nonlinear_arith);
        }
        Ok(Self { tiles, width, height })
    }
}

impl IncompleteMap {
    /// The tiles match the size.
    pub open spec fn wf(&self) -> bool {
        self.tiles@.len() == self.width * self.height
    }

    /// Appends the terrain shown by `line` to `vec`, unknown where an arrow shows a bot; fails
    /// at the first character that shows no tile and is no arrow.
    fn process_line(vec: &mut Vec<Option<bool>>, line: &str) -> (r: Result<(), MapError>)
        ensures
            r is Ok <==> all_incomplete_chars(line@),
            r is Ok ==> final(vec)@ == old(vec)@ + parse_incomplete_line(line@),
            r matches Err(e) ==> e matches MapError::UnknownChar(c) && first_bad_incomplete_char(
                line@,
                c,
            ),
    {
        let n = line.unicode_len();
        let ghost v0 = vec@;
        let mut i: usize = 0;
        while i < n
            invariant
                i <= n,
                n == line@.len(),
                vec@ == v0 + parse_incomplete_line(line@.subrange(0, i as int)),
                forall|j: int|
                    0 <= j < i ==> Tile::is_tile_char(#[trigger] line@[j]) || arrow_char(line@[j]),
            decreases n - i,
        {
            let c = line.get_char(i);
            let walkable = if c == '\u{2190}' || c == '\u{2191}' || c == '\u{2192}' || c
                == '\u{2193}' {
                None
            } else {
                match Tile::from_char(c) {
                    Some(tile) => {
                        proof {
                            law_char_tile(tile, c);
                        }
                        Some(tile.is_walkable_terrain())
                    },
                    None => {
                        assert(first_bad_incomplete_char(line@, c)) by {
                            assert(line@[i as int] == c);
                        }
                        return Err(MapError::UnknownChar(c));
                    },
                }
            };
            vec.push(walkable);
            proof {
                assert(parse_incomplete_line(line@.subrange(0, i as int + 1)) =~= parse_incomplete_line(
                    line@.subrange(0, i as int),
                ).push(if arrow_char(c) {
                    None
                } else {
                    Some(walkable_char(c))
                }));
            }
            i = i + 1;
        }
        assert(line@.subrange(0, n as int) =~= line@);
        Ok(())
    }

    /// The map shown by `lines`, one row of tiles per line, unknown where an arrow shows a bot;
    /// fails where a line differs in length from the first, at the first character that shows
    /// no tile and is no arrow, or where there is no line at all.
    pub fn from_lines(lines: &[String]) -> (r: Result<Self, MapError>)
        ensures
            lines@.len() == 0 ==> r == Err::<Self, MapError>(MapError::NoLines),
            lines@.len() > 0 ==> (r is Ok <==> forall|i: int|
                0 <= i < lines@.len() ==> (#[trigger] lines@[i])@.len() == lines@[0]@.len()
                    && all_incomplete_chars(lines@[i]@)),
            r matches Ok(m) ==> {
                &&& m.width == lines@[0]@.len()
                &&& m.height == lines@.len()
                &&& m.tiles@ == parse_incomplete_lines(lines@)
                &&& m.wf()
            },
            r matches Err(e) ==> lines@.len() == 0 || exists|j: int|
                #![trigger lines@[j]]
                0 <= j < lines@.len() && (forall|i: int|
                    0 <= i < j ==> (#[trigger] lines@[i])@.len() == lines@[0]@.len()
                        && all_incomplete_chars(lines@[i]@)) && if lines@[j]@.len()
                    != lines@[0]@.len() {
                    e == MapError::LineLength {
                        line: j as usize,
                        expected: lines@[0]@.len() as usize,
                        found: lines@[j]@.len() as usize,
                    }
                } else {
                    e matches MapError::UnknownChar(c) && first_bad_incomplete_char(lines@[j]@, c)
                },
    {
        if lines.len() == 0 {
            return Err(MapError::NoLines);
        }
        let width = lines[0].as_str().unicode_len();
        let mut tiles: Vec<Option<bool>> = Vec::new();
        let mut height: usize = 0;
        while height < lines.len()
            invariant
                0 < lines@.len(),
                height <= lines@.len(),
                width == lines@[0]@.len(),
                tiles@ == parse_incomplete_lines(lines@.subrange(0, height as int)),
                forall|i: int|
                    0 <= i < height ==> (#[trigger] lines@[i])@.len() == width
                        && all_incomplete_chars(lines@[i]@),
            decreases lines@.len() - height,
        {
            let line = lines[height].as_str();
            let line_width = line.unicode_len();
            if line_width != width {
                return Err(MapError::LineLength { line: height, expected: width, found: line_width });
            }
            match Self::process_line(&mut tiles, line) {
                Ok(()) => {},
                Err(e) => {
                    return Err(e);
                },
            }
            proof {
                let ls = lines@.subrange(0, height as int + 1);
                assert(ls.drop_last() =~= lines@.subrange(0, height as int));
                assert(ls.last() == lines@[height as int]);
            }
            height = height + 1;
        }
        proof {
            assert(lines@.subrange(0, height as int) =~= lines@);
            lemma_parse_lines_len(lines@, width as int);
            assert(lines@.len() * width == width * lines@.len()) by (nonlinear_arith);
        }
        Ok(Self { tiles, width, height })
    }
}

/// A tile read from its character is walkable exactly where the character shows walkable
/// terrain.
proof fn law_char_tile(t: Tile, c: char)
    requires
        t.char_of() == c,
    ensures
        t.walkable() == walkable_char(c),
        !arrow_char(c),
{
}


/// Some map knows tile `i`.
pub open spec fn known(maps: Seq<IncompleteMap>, i: int) -> bool {
    exists|m: int| 0 <= m < maps.len() && (#[trigger] maps[m]).tiles@[i] is Some
}

/// Two maps disagree on tile `i`.
pub open spec fn conflicting(maps: Seq<IncompleteMap>, i: int) -> bool {
    exists|m1: int, m2: int|
        0 <= m1 < maps.len() && 0 <= m2 < maps.len() && (#[trigger] maps[m1]).tiles@[i] == Some(
            true,
        ) && (#[trigger] maps[m2]).tiles@[i] == Some(false)
}

/// All tiles before `k` are known and free of conflict.
pub open spec fn combinable_before(maps: Seq<IncompleteMap>, k: int) -> bool {
    forall|i: int|
        #![trigger known(maps, i)]
        #![trigger conflicting(maps, i)]
        0 <= i < k ==> known(maps, i) && !conflicting(maps, i)
}

/// The maps have the size of the first: its height, its width, and tiles to match.
pub open spec fn same_size(maps: Seq<IncompleteMap>) -> bool {
    forall|m: int|
        0 <= m < maps.len() ==> (#[trigger] maps[m]).height == maps[0].height && maps[m].width
            == maps[0].width && maps[m].tiles@.len() == maps[m].height * maps[m].width
}

/// A tile that is unknown or in conflict, after tiles that are all known and free of conflict,
/// is the first such tile.
proof fn lemma_first_bad(maps: Seq<IncompleteMap>, n: int, i: int)
    requires
        0 <= i < n,
        combinable_before(maps, i),
        !known(maps, i) || conflicting(maps, i),
    ensures
        !combinable_before(maps, n),
        forall|j: int|
            0 <= j < n && j != i && #[trigger] combinable_before(maps, j) ==> known(maps, j)
                && !conflicting(maps, j),
        conflicting(maps, i) ==> known(maps, i),
{
    assert(!(known(maps, i) && !conflicting(maps, i)));
    assert forall|j: int|
        0 <= j < n && j != i && #[trigger] combinable_before(maps, j) implies known(maps, j)
        && !conflicting(maps, j) by {
        if j > i {
            assert(known(maps, i) && !conflicting(maps, i));
        } else {
            assert(known(maps, j) && !conflicting(maps, j));
        }
    }
    if conflicting(maps, i) {
        let (m1, m2) = choose|m1: int, m2: int|
            0 <= m1 < maps.len() && 0 <= m2 < maps.len() && (#[trigger] maps[m1]).tiles@[i] == Some(
                true,
            ) && (#[trigger] maps[m2]).tiles@[i] == Some(false);
        assert(maps[m1].tiles@[i] is Some);
    }
}

impl TerrainMap {
    /// Combines maps that each know part of the terrain: a tile is walkable where a map that
    /// knows it says so. Fails where there is no map, where the maps differ in size or their
    /// tiles do not match their size, at the first tile on which two maps disagree, and at the
    /// first tile that no map knows, whichever comes first.
    pub fn from_imcomplete_maps(maps: &[IncompleteMap]) -> (r: Result<Self, MapError>)
        ensures
            maps@.len() == 0 <==> r == Err::<Self, MapError>(MapError::NoMaps),
            maps@.len() > 0 ==> ((r == Err::<Self, MapError>(MapError::HeightMismatch)) <==> exists|
                m: int,
            | 0 <= m < maps@.len() && (#[trigger] maps@[m]).height != maps@[0].height),
            maps@.len() > 0 ==> ((r == Err::<Self, MapError>(MapError::WidthMismatch)) <==> (
            forall|m: int| 0 <= m < maps@.len() ==> (#[trigger] maps@[m]).height == maps@[0].height)
                && exists|m: int| 0 <= m < maps@.len() && (#[trigger] maps@[m]).width != maps@[0].width),
            maps@.len() > 0 ==> ((r == Err::<Self, MapError>(MapError::LengthMismatch)) <==> (
            forall|m: int|
                0 <= m < maps@.len() ==> (#[trigger] maps@[m]).height == maps@[0].height
                    && maps@[m].width == maps@[0].width) && exists|m: int|
                0 <= m < maps@.len() && (#[trigger] maps@[m]).tiles@.len() != maps@[m].height
                    * maps@[m].width),
            maps@.len() > 0 && same_size(maps@) ==> {
                let n = maps@[0].tiles@.len() as int;
                let w = maps@[0].width as int;
                &&& r is Ok <==> combinable_before(maps@, n)
                &&& (r == Err::<Self, MapError>(MapError::Conflict)) <==> exists|j: int|
                    0 <= j < n && #[trigger] conflicting(maps@, j) && combinable_before(maps@, j)
                &&& (r matches Err(MapError::Incomplete { .. })) <==> exists|k: int|
                    0 <= k < n && !#[trigger] known(maps@, k) && combinable_before(maps@, k)
                &&& r matches Err(MapError::Incomplete { line, col }) ==> exists|k: int|
                    0 <= k < n && !#[trigger] known(maps@, k) && combinable_before(maps@, k) && line
                        == k / w + 1 && col == k % w + 1
                &&& r is Err ==> r == Err::<Self, MapError>(MapError::Conflict) || r matches Err(
                    MapError::Incomplete { .. },
                )
            },
            r matches Ok(t) ==> {
                &&& t.width == maps@[0].width
                &&& t.height == maps@[0].height
                &&& t.wf()
                &&& forall|i: int, m: int|
                    0 <= i < t.tiles@.len() && 0 <= m < maps@.len() && (#[trigger] maps@[m]).tiles@[i]
                        is Some ==> maps@[m].tiles@[i] == Some(#[trigger] t.tiles@[i])
            },
    {
        if maps.len() == 0 {
            return Err(MapError::NoMaps);
        }
        let height = maps[0].height;
        let width = maps[0].width;
        let mut m: usize = 0;
        while m < maps.len()
            invariant
                m <= maps@.len(),
                height == maps@[0].height,
                forall|j: int| 0 <= j < m ==> (#[trigger] maps@[j]).height == height,
            decreases maps@.len() - m,
        {
            if maps[m].height != height {
                assert(maps@[m as int].height != maps@[0].height);
                return Err(MapError::HeightMismatch);
            }
            m = m + 1;
        }
        let mut m: usize = 0;
        while m < maps.len()
            invariant
                m <= maps@.len(),
                width == maps@[0].width,
                height == maps@[0].height,
                forall|j: int| 0 <= j < maps@.len() ==> (#[trigger] maps@[j]).height == height,
                forall|j: int| 0 <= j < m ==> (#[trigger] maps@[j]).width == width,
            decreases maps@.len() - m,
        {
            if maps[m].width != width {
                assert(maps@[m as int].width != maps@[0].width);
                return Err(MapError::WidthMismatch);
            }
            m = m + 1;
        }
        let mut m: usize = 0;
        while m < maps.len()
            invariant
                m <= maps@.len(),
                width == maps@[0].width,
                height == maps@[0].height,
                forall|j: int| 0 <= j < maps@.len() ==> (#[trigger] maps@[j]).height == height,
                forall|j: int| 0 <= j < maps@.len() ==> (#[trigger] maps@[j]).width == width,
                forall|j: int|
                    0 <= j < m ==> (#[trigger] maps@[j]).tiles@.len() == maps@[j].height
                        * maps@[j].width,
            decreases maps@.len() - m,
        {
            let len = maps[m].tiles.len();
            let ok = match maps[m].height.checked_mul(maps[m].width) {
                Some(n) => len == n,
                None => false,
            };
            if !ok {
                assert(maps@[m as int].tiles@.len() != maps@[m as int].height * maps@[m as int].width);
                assert(!same_size(maps@)) by {
                    assert(maps@[m as int].tiles@.len() != maps@[m as int].height * maps@[m as int].width);
                }
                return Err(MapError::LengthMismatch);
            }
            m = m + 1;
        }
        assert(same_size(maps@));
        let n = maps[0].tiles.len();
        let mut tiles: Vec<bool> = Vec::new();
        let mut i: usize = 0;
        while i < n
            invariant
                i <= n,
                n == maps@[0].tiles@.len(),
                maps@.len() > 0,
                same_size(maps@),
                width == maps@[0].width,
                height == maps@[0].height,
                tiles@.len() == i,
                combinable_before(maps@, i as int),
                forall|k: int, m: int|
                    0 <= k < i && 0 <= m < maps@.len() && (#[trigger] maps@[m]).tiles@[k] is Some
                        ==> maps@[m].tiles@[k] == Some(#[trigger] tiles@[k]),
            decreases n - i,
        {
            assert(maps@[0].width == width && maps@[0].height == height);
            let mut combined: Option<bool> = None;
            let mut m: usize = 0;
            while m < maps.len()
                invariant
                    m <= maps@.len(),
                    i < n,
                    n == maps@[0].tiles@.len(),
                    maps@.len() > 0,
                    same_size(maps@),
                    combined is None <==> forall|j: int|
                        0 <= j < m ==> (#[trigger] maps@[j]).tiles@[i as int] is None,
                    combined matches Some(a) ==> forall|j: int|
                        0 <= j < m && (#[trigger] maps@[j]).tiles@[i as int] is Some
                            ==> maps@[j].tiles@[i as int] == Some(a),
                    combinable_before(maps@, i as int),
                    width == maps@[0].width,
                    height == maps@[0].height,
                    tiles@.len() == i,
                    forall|k: int, m: int|
                        0 <= k < i && 0 <= m < maps@.len() && (#[trigger] maps@[m]).tiles@[k] is Some
                            ==> maps@[m].tiles@[k] == Some(#[trigger] tiles@[k]),
                decreases maps@.len() - m,
            {
                assert(maps@[m as int].tiles@.len() == n);
                match maps[m].tiles[i] {
                    Some(this) => {
                        match combined {
                            Some(all) => {
                                if this != all {
                                    proof {
                                        let j = choose|j: int|
                                            0 <= j < m && (#[trigger] maps@[j]).tiles@[i as int] is Some;
                                        if this {
                                            assert(conflicting(maps@, i as int)) by {
                                                assert(maps@[m as int].tiles@[i as int] == Some(true));
                                                assert(maps@[j].tiles@[i as int] == Some(false));
                                            }
                                        } else {
                                            assert(conflicting(maps@, i as int)) by {
                                                assert(maps@[j].tiles@[i as int] == Some(true));
                                                assert(maps@[m as int].tiles@[i as int] == Some(false));
                                            }
                                        }
                                    }
                                    proof {
                                        lemma_first_bad(maps@, n as int, i as int);
                                        assert(conflicting(maps@, i as int));
                                    }
                                    return Err(MapError::Conflict);
                                }
                            },
                            None => {
                                combined = Some(this);
                            },
                        }
                    },
                    None => {},
                }
                m = m + 1;
            }
            match combined {
                None => {
                    assert(maps@[0].width == width);
                    assert(n == height * width);
                    proof {
                        if width == 0 {
                            assert(height * width == 0) by (nonlinear_arith)
                                requires
                                    width == 0,
                            ;
                        }
                        assert(i / width <= i) by (nonlinear_arith)
                            requires
                                width > 0,
                                i >= 0,
                        ;
                    }
                    let line = i / width + 1;
                    let col = i % width + 1;
                    proof {
                        assert(!known(maps@, i as int)) by {
                            if known(maps@, i as int) {
                                let j = choose|j: int|
                                    0 <= j < maps@.len() && (#[trigger] maps@[j]).tiles@[i as int] is Some;
                                assert(maps@[j].tiles@[i as int] is None);
                            }
                        }
                    }
                    proof {
                        lemma_first_bad(maps@, n as int, i as int);
                        assert(!known(maps@, i as int));
                        assert(!conflicting(maps@, i as int));
                        assert(width > 0) by {
                            assert(n == height * width);
                            if width == 0 {
                                assert(height * width == 0) by (nonlinear_arith)
                                    requires
                                        width == 0,
                                ;
                            }
                        }
                    }
                    return Err(MapError::Incomplete { line, col });
                },
                Some(value) => {
                    proof {
                        assert(known(maps@, i as int)) by {
                            let j = choose|j: int|
                                0 <= j < maps@.len() && (#[trigger] maps@[j]).tiles@[i as int] is Some;
                        }
                        assert(!conflicting(maps@, i as int)) by {
                            if conflicting(maps@, i as int) {
                                let (m1, m2) = choose|m1: int, m2: int|
                                    0 <= m1 < maps@.len() && 0 <= m2 < maps@.len() && (#[trigger] maps@[m1]).tiles@[i as int]
                                        == Some(true) && (#[trigger] maps@[m2]).tiles@[i as int] == Some(false);
                                assert(maps@[m1].tiles@[i as int] == Some(value));
                                assert(maps@[m2].tiles@[i as int] == Some(value));
                            }
                        }
                    }
                    tiles.push(value);
                },
            }
            i = i + 1;
        }
        proof {
            assert(n == height * width);
            assert(width * height == height * width) by (nonlinear_arith);
        }
        Ok(Self { tiles, width, height })
    }
}


/// Whether `a` comes before `b` when positions are listed column by column from the west, each
/// column from the north.
pub open spec fn column_major_before(a: (int, int), b: (int, int)) -> bool {
    a.0 < b.0 || (a.0 == b.0 && a.1 < b.1)
}

/// A list of positions that can also be searched by position.
pub struct PositionBiMap {
    v: Vec<GlobalPos>,
}

impl View for PositionBiMap {
    type V = Seq<(int, int)>;

    closed spec fn view(&self) -> Seq<(int, int)> {
        self.v@.map_values(|p: GlobalPos| p@)
    }
}

impl PositionBiMap {
    /// The positions, in order.
    pub closed spec fn positions(&self) -> Seq<GlobalPos> {
        self.v@
    }

    /// The positions, in order.
    pub fn vec(&self) -> (r: &Vec<GlobalPos>)
        ensures
            r@.map_values(|p: GlobalPos| p@) == self@,
            r@ == self.positions(),
    {
        &self.v
    }

    /// The index of the last occurrence of `pos`, if any.
    pub fn index_of(&self, pos: GlobalPos) -> (r: Option<usize>)
        ensures
            r is None <==> !self@.contains(pos@),
            r matches Some(k) ==> k < self@.len() && self@[k as int] == pos@ && forall|j: int|
                k < j < self@.len() ==> self@[j] != pos@,
    {
        let mut i = self.v.len();
        while i > 0
            invariant
                i <= self@.len(),
                self@.len() == self.v@.len(),
                forall|j: int| i <= j < self@.len() ==> self@[j] != pos@,
            decreases i,
        {
            i = i - 1;
            if self.v[i].same_as(&pos) {
                assert(self@[i as int] == self.v@[i as int]@);
                return Some(i);
            }
            assert(self@[i as int] == self.v@[i as int]@);
        }
        proof {
            if self@.contains(pos@) {
                let k = choose|k: int| 0 <= k < self@.len() && self@[k] == pos@;
                assert(self@[k] != pos@);
            }
        }
        None
    }

    /// The number of positions.
    pub fn len(&self) -> (r: usize)
        ensures
            r == self@.len(),
    {
        self.v.len()
    }

    /// Whether there is no position.
    pub fn is_empty(&self) -> (r: bool)
        ensures
            r == (self@.len() == 0),
    {
        self.v.len() == 0
    }

    /// The positions at `indices`, in that order.
    pub fn subset(&self, indices: &[usize]) -> (r: Self)
        requires
            forall|k: int| 0 <= k < indices@.len() ==> (#[trigger] indices@[k]) < self@.len(),
        ensures
            r@.len() == indices@.len(),
            forall|k: int| 0 <= k < indices@.len() ==> #[trigger] r@[k] == self@[indices@[k] as int],
    {
        let mut v: Vec<GlobalPos> = Vec::new();
        let mut k: usize = 0;
        while k < indices.len()
            invariant
                k <= indices@.len(),
                v@.len() == k,
                self@.len() == self.v@.len(),
                forall|j: int| 0 <= j < indices@.len() ==> (#[trigger] indices@[j]) < self@.len(),
                forall|j: int| 0 <= j < k ==> (#[trigger] v@[j])@ == self@[indices@[j] as int],
            decreases indices@.len() - k,
        {
            let index = indices[k];
            v.push(self.v[index]);
            k = k + 1;
        }
        let r = Self { v };
        assert forall|j: int| 0 <= j < indices@.len() implies #[trigger] r@[j] == self@[
            indices@[j] as int] by {
            assert(r@[j] == v@[j]@);
        }
        r
    }
}

impl TerrainMap {
    /// The walkable positions, column by column from the west, each column from the north.
    pub fn walkable_positions(&self) -> (r: PositionBiMap)
        requires
            self.wf(),
            self.width <= 0x8000,
            self.height <= 0x8000,
        ensures
            forall|k: int| 0 <= k < r@.len() ==> self.walkable(#[trigger] r@[k]),
            forall|k1: int, k2: int|
                0 <= k1 < k2 < r@.len() ==> column_major_before(#[trigger] r@[k1], #[trigger] r@[k2]),
            forall|p: (int, int)| #[trigger] self.walkable(p) ==> r@.contains(p),
    {
        let mut v: Vec<GlobalPos> = Vec::new();
        let mut i_east: usize = 0;
        while i_east < self.width
            invariant
                self.wf(),
                self.width <= 0x8000,
                self.height <= 0x8000,
                i_east <= self.width,
                forall|k: int| 0 <= k < v@.len() ==> self.walkable(#[trigger] v@[k]@),
                forall|k: int| 0 <= k < v@.len() ==> (#[trigger] v@[k]@).0 < i_east,
                forall|k1: int, k2: int|
                    0 <= k1 < k2 < v@.len() ==> column_major_before(
                        (#[trigger] v@[k1])@,
                        (#[trigger] v@[k2])@,
                    ),
                forall|p: (int, int)|
                    #[trigger] self.walkable(p) && p.0 < i_east ==> exists|k: int|
                        0 <= k < v@.len() && v@[k]@ == p,
            decreases self.width - i_east,
        {
            let mut i_south: usize = 0;
            while i_south < self.height
                invariant
                    self.wf(),
                    self.width <= 0x8000,
                    self.height <= 0x8000,
                    i_east < self.width,
                    i_south <= self.height,
                    forall|k: int| 0 <= k < v@.len() ==> self.walkable(#[trigger] v@[k]@),
                    forall|k: int|
                        0 <= k < v@.len() ==> (#[trigger] v@[k]@).0 < i_east || (v@[k]@.0 == i_east
                            && v@[k]@.1 < i_south),
                    forall|k1: int, k2: int|
                        0 <= k1 < k2 < v@.len() ==> column_major_before(
                            (#[trigger] v@[k1])@,
                            (#[trigger] v@[k2])@,
                        ),
                    forall|p: (int, int)|
                        #[trigger] self.walkable(p) && (p.0 < i_east || (p.0 == i_east && p.1
                            < i_south)) ==> exists|k: int| 0 <= k < v@.len() && v@[k]@ == p,
                decreases self.height - i_south,
            {
                let pos = GlobalPos::default() + Vec2::new_east(i_east as i16) + Vec2::new_south(
                    i_south as i16,
                );
                assert(pos@ == (i_east as int, i_south as int));
                if self.get(pos) {
                    let ghost v0 = v@;
                    v.push(pos);
                    proof {
                        assert forall|p: (int, int)|
                            #[trigger] self.walkable(p) && (p.0 < i_east || (p.0 == i_east && p.1
                                < i_south + 1)) implies exists|k: int|
                            0 <= k < v@.len() && v@[k]@ == p by {
                            if p == pos@ {
                                assert(v@[v0.len() as int]@ == p);
                            } else {
                                let k = choose|k: int| 0 <= k < v0.len() && v0[k]@ == p;
                                assert(v@[k] == v0[k]);
                            }
                        }
                    }
                }
                i_south = i_south + 1;
            }
            i_east = i_east + 1;
        }
        let r = PositionBiMap { v };
        proof {
            assert forall|k: int| 0 <= k < r@.len() implies self.walkable(#[trigger] r@[k]) by {
                assert(r@[k] == v@[k]@);
            }
            assert forall|k1: int, k2: int|
                0 <= k1 < k2 < r@.len() implies column_major_before(
                #[trigger] r@[k1],
                #[trigger] r@[k2],
            ) by {
                assert(r@[k1] == v@[k1]@ && r@[k2] == v@[k2]@);
            }
            assert forall|p: (int, int)| #[trigger] self.walkable(p) implies r@.contains(p) by {
                let k = choose|k: int| 0 <= k < v@.len() && v@[k]@ == p;
                assert(r@[k] == p);
            }
        }
        r
    }
}


/// The bits of a map of walkable terrain, one per tile, row by row from the north-west corner,
/// as the data of a map generated at compile time.
pub struct TrueMapBuilder {
    data: Vec<u8>,
    width: usize,
    height: usize,
}

impl TrueMapBuilder {
    /// The bytes of data.
    pub closed spec fn data_of(&self) -> Seq<u8> {
        self.data@
    }

    /// The width of the map.
    pub closed spec fn width_of(&self) -> int {
        self.width as int
    }

    /// The height of the map.
    pub closed spec fn height_of(&self) -> int {
        self.height as int
    }

    /// The data hold the terrain of `map`: one bit per tile, and as many bytes as that takes.
    pub open spec fn encodes(&self, map: TerrainMap) -> bool {
        &&& self.width_of() == map.width
        &&& self.height_of() == map.height
        &&& self.data_of().len() == (map.width * map.height + 7) / 8
        &&& forall|i: int| 0 <= i < map.width * map.height ==> #[trigger] bit_of(self.data_of(), i) == map.tiles@[i]
    }

    /// The bytes of data, to be written out.
    pub fn data(&self) -> (r: &[u8])
        ensures
            r@ == self.data_of(),
    {
        self.data.as_slice()
    }

    /// The width of the map.
    pub fn width(&self) -> (r: usize)
        ensures
            r == self.width_of(),
    {
        self.width
    }

    /// The height of the map.
    pub fn height(&self) -> (r: usize)
        ensures
            r == self.height_of(),
    {
        self.height
    }

    /// The type of the map generated from the data.
    pub fn type_string(&self) -> (r: String)
        ensures
            r@ == "::kartoffel_gps::map::TrueMapImpl<"@ + decimal(self.width_of() as nat) + ", "@
                + decimal(self.height_of() as nat) + ", "@ + decimal(self.data_of().len()) + ">"@,
    {
        let mut s = String::from_str("::kartoffel_gps::map::TrueMapImpl<");
        push_decimal(&mut s, self.width);
        s.append(", ");
        push_decimal(&mut s, self.height);
        s.append(", ");
        push_decimal(&mut s, self.data.len());
        s.append(">");
        s
    }
}

/// Setting bit `r` of a byte whose bits from `r` on are clear sets that bit, keeps the others,
/// and leaves the bits above it clear.
proof fn lemma_set_bit(b: u8, r: u8, j: u8)
    requires
        r < 8,
        j < 8,
        b >> r == 0,
    ensures
        ((b ^ (1u8 << r)) >> j) & 1 == if j == r {
            1u8
        } else {
            (b >> j) & 1
        },
        r < 7 ==> (b ^ (1u8 << r)) >> ((r + 1) as u8) == 0,
        r < 7 ==> b >> ((r + 1) as u8) == 0,
        (b >> r) & 1 == 0,
{
    assert(((b ^ (1u8 << r)) >> j) & 1 == if j == r {
        1u8
    } else {
        (b >> j) & 1
    }) by (bit_vector)
        requires
            r < 8,
            j < 8,
            b >> r == 0,
    ;
    assert(r < 7 ==> (b ^ (1u8 << r)) >> ((r + 1) as u8) == 0) by (bit_vector)
        requires
            r < 8,
            b >> r == 0,
    ;
    assert(r < 7 ==> b >> ((r + 1) as u8) == 0) by (bit_vector)
        requires
            r < 8,
            b >> r == 0,
    ;
    assert((b >> r) & 1 == 0) by (bit_vector)
        requires
            b >> r == 0,
    ;
}

proof fn lemma_zero_byte(r: u8)
    requires
        r < 8,
    ensures
        0u8 >> r == 0,
{
    assert(0u8 >> r == 0) by (bit_vector);
}

impl TerrainMap {
    /// The bits of the map, for a map generated at compile time.
    pub fn builder(&self) -> (r: TrueMapBuilder)
        requires
            self.wf(),
            self.width <= 0x8000,
            self.height <= 0x8000,
        ensures
            r.encodes(*self),
    {
        let mut data: Vec<u8> = Vec::new();
        let ghost w = self.width as int;
        let ghost h = self.height as int;
        let total = self.tiles.len();
        let mut index: usize = 0;
        let mut i_south: usize = 0;
        while i_south < self.height
            invariant
                self.wf(),
                w == self.width,
                h == self.height,
                self.width <= 0x8000,
                self.height <= 0x8000,
                total == self.tiles@.len(),
                i_south <= self.height,
                index == i_south * w,
                data@.len() == (index + 7) / 8,
                forall|i: int| 0 <= i < index ==> #[trigger] bit_of(data@, i) == self.tiles@[i],
                index % 8 != 0 ==> data@.last() >> ((index % 8) as u8) == 0,
            decreases self.height - i_south,
        {
            let mut i_east: usize = 0;
            while i_east < self.width
                invariant
                    self.wf(),
                    w == self.width,
                    h == self.height,
                    self.width <= 0x8000,
                    self.height <= 0x8000,
                    total == self.tiles@.len(),
                    i_south < self.height,
                    i_east <= self.width,
                    index == i_south * w + i_east,
                    data@.len() == (index + 7) / 8,
                    forall|i: int| 0 <= i < index ==> #[trigger] bit_of(data@, i) == self.tiles@[i],
                    index % 8 != 0 ==> data@.last() >> ((index % 8) as u8) == 0,
                decreases self.width - i_east,
            {
                proof {
                    lemma_cell_index(i_east as int, i_south as int, w, h);
                }
                let pos = GlobalPos::default() + Vec2::new_east(i_east as i16) + Vec2::new_south(
                    i_south as i16,
                );
                assert(pos@ == (i_east as int, i_south as int));
                let rem = index % 8;
                let ghost d0 = data@;
                if rem == 0 {
                    data.push(0u8);
                    proof {
                        lemma_zero_byte(0);
                        assert forall|i: int| 0 <= i < index implies #[trigger] bit_of(data@, i)
                            == self.tiles@[i] by {
                            assert(bit_of(d0, i) == self.tiles@[i]);
                            assert(data@[i / 8] == d0[i / 8]) by {
                                assert(i / 8 < index / 8);
                            }
                        }
                    }
                }
                let ghost d1 = data@;
                let last = data.len() - 1;
                assert(last == index / 8);
                let b = data[last];
                proof {
                    if rem == 0 {
                        lemma_zero_byte(0);
                    }
                    assert(b >> (rem as u8) == 0);
                }
                if self.get(pos) {
                    data.set(last, b ^ (1u8 << (rem as u8)));
                }
                proof {
                    assert(self.tiles@[index as int] == self.walkable(pos@));
                    assert forall|i: int| 0 <= i < index + 1 implies #[trigger] bit_of(data@, i)
                        == self.tiles@[i] by {
                        let j = (i % 8) as u8;
                        lemma_set_bit(b, rem as u8, j);
                        assert(d1[last as int] == b);
                        if i / 8 != last as int {
                            assert(i < index);
                            assert(data@[i / 8] == d1[i / 8]);
                            assert(bit_of(d1, i) == self.tiles@[i]);
                        } else if i < index {
                            assert(bit_of(d1, i) == self.tiles@[i]);
                            assert(i % 8 < rem);
                            assert(j != rem as u8);
                        } else {
                            assert(i == index);
                            assert(j == rem as u8);
                        }
                    }
                    lemma_set_bit(b, rem as u8, 0);
                    if rem < 7 {
                        assert(data@.last() == data@[last as int]);
                    }
                }
                index = index + 1;
                i_east = i_east + 1;
            }
            assert(index == (i_south + 1) * w) by (nonlinear_arith)
                requires
                    index == i_south * w + w,
            ;
            i_south = i_south + 1;
        }
        proof {
            assert(index == w * h) by (nonlinear_arith)
                requires
                    index == h * w,
            ;
        }
        TrueMapBuilder { data, width: self.width, height: self.height }
    }
}

/// A map generated from the data of a builder reads the same terrain as the map the builder
/// was made from, and is a valid map where its size fits.
pub proof fn law_builder_true_map<const WIDTH: u16, const HEIGHT: u16, const STORE: usize>(
    map: TerrainMap,
    builder: TrueMapBuilder,
    true_map: TrueMapImpl<WIDTH, HEIGHT, STORE>,
    p: (int, int),
)
    requires
        map.wf(),
        builder.encodes(map),
        true_map.0@ == builder.data_of(),
        WIDTH == map.width,
        HEIGHT == map.height,
    ensures
        true_map.walkable(p) == map.walkable(p),
        WIDTH <= i16::MAX && HEIGHT <= i16::MAX ==> true_map.valid(),
{
    let w = map.width as int;
    let h = map.height as int;
    if 0 <= p.0 < w && 0 <= p.1 < h {
        lemma_cell_index(p.0, p.1, w, h);
        assert(p.0 + p.1 * w == p.1 * w + p.0);
        assert(bit_of(builder.data_of(), p.1 * w + p.0) == map.tiles@[p.1 * w + p.0]);
    }
    assert(true_map.0@.len() == STORE);
    assert(w * h <= 8 * ((w * h + 7) / 8));
}


impl TerrainMap {
    /// The section of the map around `center`.
    pub fn get_chunk<T: MapSectionTrait>(&self, center: GlobalPos) -> (r: T)
        requires
            self.wf(),
            -0x7000 <= center@.0 <= 0x7000,
            -0x7000 <= center@.1 <= 0x7000,
        ensures
            forall|vec: Vec2<Global>|
                within(vec@, T::Size::radius_spec()) ==> #[trigger] r.cell(vec@) == self.walkable(
                    (center@.0 + vec@.0, center@.1 + vec@.1),
                ),
    {
        proof {
            T::Size::lemma_radius();
        }
        let f = |vec: Vec2<Global>| -> (b: bool)
            requires
                within(vec@, T::Size::radius_spec()),
            ensures
                b == self.walkable((center@.0 + vec@.0, center@.1 + vec@.1)),
            {
                proof {
                    T::Size::lemma_radius();
                }
                self.get(center + vec)
            };
        T::from_function(f)
    }
}


/// The character of a tile in a map file: `.` where walkable, `#` otherwise.
pub open spec fn map_char(walkable: bool) -> char {
    if walkable {
        '.'
    } else {
        '#'
    }
}

impl TerrainMap {
    /// The map as text, one line per row from the north, each from the west: `.` for a walkable
    /// tile, `#` for another.
    pub fn to_lines(&self) -> (r: Vec<String>)
        requires
            self.wf(),
        ensures
            r@.len() == self.height,
            forall|row: int| 0 <= row < self.height ==> (#[trigger] r@[row])@.len() == self.width,
            forall|row: int, col: int|
                0 <= row < self.height && 0 <= col < self.width ==> #[trigger] r@[row]@[col] == map_char(
                    self.walkable((col, row)),
                ),
    {
        let n_tiles = self.tiles.len();
        let mut lines: Vec<String> = Vec::new();
        let mut row: usize = 0;
        while row < self.height
            invariant
                self.wf(),
                n_tiles == self.tiles@.len(),
                row <= self.height,
                lines@.len() == row,
                forall|k: int| 0 <= k < row ==> (#[trigger] lines@[k])@.len() == self.width,
                forall|k: int, col: int|
                    0 <= k < row && 0 <= col < self.width ==> #[trigger] lines@[k]@[col] == map_char(
                        self.walkable((col, k)),
                    ),
            decreases self.height - row,
        {
            let mut line = String::new();
            let mut col: usize = 0;
            while col < self.width
                invariant
                    self.wf(),
                    n_tiles == self.tiles@.len(),
                    row < self.height,
                    col <= self.width,
                    line@.len() == col,
                    forall|c: int| 0 <= c < col ==> line@[c] == map_char(self.walkable((c, row as int))),
                decreases self.width - col,
            {
                proof {
                    lemma_cell_index(col as int, row as int, self.width as int, self.height as int);
                    reveal_strlit(".");
                    reveal_strlit("#");
                }
                let walkable = self.tiles[row * self.width + col];
                if walkable {
                    line.append(".");
                } else {
                    line.append("#");
                }
                col = col + 1;
            }
            lines.push(line);
            row = row + 1;
        }
        lines
    }
}

} // verus!
