use vstd::prelude::*;

verus! {

/// What a radar sees on a grid cell.
#[derive(Clone, Copy, Debug, PartialEq, Eq, Hash, Structural)]
pub enum Tile {
    Bot,
    Empty,
    Void,
    WallHorizontal,
    WallVertical,
    WallCave,
    EntryExit,
    Diamond,
    Flag,
}

impl Tile {
    /// The character that shows this tile.
    pub open spec fn char_of(self) -> char {
        match self {
            Tile::Bot => '@',
            Tile::Empty => '.',
            Tile::Void => ' ',
            Tile::WallVertical => '|',
            Tile::WallHorizontal => '-',
            Tile::WallCave => '#',
            Tile::EntryExit => '+',
            Tile::Diamond => '*',
            Tile::Flag => '=',
        }
    }

    /// Whether `c` shows some tile.
    pub open spec fn is_tile_char(c: char) -> bool {
        exists|t: Tile| t.char_of() == c
    }

    /// Whether a bot can stand on this tile, ignoring whatever stands there now.
    pub open spec fn walkable(self) -> bool {
        match self {
            Tile::Empty | Tile::Bot | Tile::EntryExit | Tile::Diamond | Tile::Flag => true,
            _ => false,
        }
    }

    /// The tile shown by `c`, if any.
    pub fn from_char(c: char) -> (r: Option<Tile>)
        ensures
            r matches Some(t) ==> t.char_of() == c,
            r is None <==> !Tile::is_tile_char(c),
    {
        let r = match c {
            '@' => Some(Tile::Bot),
            '.' => Some(Tile::Empty),
            ' ' => Some(Tile::Void),
            '|' => Some(Tile::WallVertical),
            '-' => Some(Tile::WallHorizontal),
            '+' => Some(Tile::EntryExit),
            '*' => Some(Tile::Diamond),
            '=' => Some(Tile::Flag),
            '#' => Some(Tile::WallCave),
            _ => None,
        };
        proof {
            if r is None {
                assert forall|t: Tile| t.char_of() != c by {
                    match t {
                        Tile::Bot => {},
                        _ => {},
                    }
                }
            } else {
                assert(r->0.char_of() == c);
            }
        }
        r
    }

    pub fn to_char(self) -> (r: char)
        ensures
            r == self.char_of(),
    {
        match self {
            Tile::Bot => '@',
            Tile::Empty => '.',
            Tile::Void => ' ',
            Tile::WallVertical => '|',
            Tile::WallHorizontal => '-',
            Tile::WallCave => '#',
            Tile::EntryExit => '+',
            Tile::Diamond => '*',
            Tile::Flag => '=',
        }
    }

    /// The "." tile. You can go there.
    pub fn is_empty(self) -> (r: bool)
        ensures
            r == (self == Tile::Empty),
    {
        matches!(self, Tile::Empty)
    }

    /// Right now it might be blocked by a bot or an item, but in principle you can go there.
    pub fn is_walkable_terrain(self) -> (r: bool)
        ensures
            r == self.walkable(),
    {
        matches!(self, Tile::Empty | Tile::Bot | Tile::EntryExit | Tile::Diamond | Tile::Flag)
    }

    pub fn is_bot(self) -> (r: bool)
        ensures
            r == (self == Tile::Bot),
    {
        matches!(self, Tile::Bot)
    }

    pub fn is_item(self) -> (r: bool)
        ensures
            r == (self == Tile::Diamond || self == Tile::Flag),
    {
        matches!(self, Tile::Diamond | Tile::Flag)
    }
}

/// A tile's character reads back as that tile, and different tiles have different characters.
pub proof fn law_tile_char_roundtrip(t: Tile, u: Tile)
    ensures
        Tile::is_tile_char(t.char_of()),
        t.char_of() == u.char_of() ==> t == u,
{
}

} // verus!
