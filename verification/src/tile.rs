//! The tile alphabet of the map: one enumerated value per grid cell.

use vstd::prelude::*;

verus! {

/// A single cell of the map.
///
/// Exactly one `Player` tile is expected on a well-formed map; `Floor` and
/// `Gold` can be walked through, while `Wall` and `Trap` block traversal.
#[derive(Clone, Copy, Debug, PartialEq, Eq, Structural)]
pub enum Tile {
    Player,
    Gold,
    Trap,
    Wall,
    Floor,
}

impl Tile {
    /// The display character of each tile.
    pub open spec fn spec_char(self) -> char {
        match self {
            Tile::Player => 'P',
            Tile::Gold => 'G',
            Tile::Trap => 'T',
            Tile::Wall => '#',
            Tile::Floor => '.',
        }
    }

    /// Which characters decode to a tile: the inverse of `spec_char`;
    /// every other character decodes to nothing.
    pub open spec fn spec_from_char(c: char) -> Option<Tile> {
        if c == 'P' {
            Some(Tile::Player)
        } else if c == 'G' {
            Some(Tile::Gold)
        } else if c == 'T' {
            Some(Tile::Trap)
        } else if c == '#' {
            Some(Tile::Wall)
        } else if c == '.' {
            Some(Tile::Floor)
        } else {
            None
        }
    }

    /// A tile can be walked through exactly when it is floor or gold.
    pub open spec fn is_traversable(self) -> bool {
        self is Floor || self is Gold
    }

    /// The character this tile is displayed as.
    pub fn to_char(&self) -> (c: char)
        ensures
            c == self.spec_char(),
    {
        match self {
            Tile::Player => 'P',
            Tile::Gold => 'G',
            Tile::Trap => 'T',
            Tile::Wall => '#',
            Tile::Floor => '.',
        }
    }

    /// Decode one character of the map; unrecognized characters give `None`.
    pub fn from_char(c: char) -> (t: Option<Tile>)
        ensures
            t == Tile::spec_from_char(c),
    {
        match c {
            'P' => Some(Tile::Player),
            'G' => Some(Tile::Gold),
            'T' => Some(Tile::Trap),
            '#' => Some(Tile::Wall),
            '.' => Some(Tile::Floor),
            _ => None,
        }
    }

    /// Round trip: every tile's display character decodes back to the tile.
    pub proof fn lemma_char_round_trip(self)
        ensures
            Tile::spec_from_char(self.spec_char()) == Some(self),
    {
    }
}

} // verus!
