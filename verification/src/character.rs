use vstd::prelude::*;

use crate::spell::Species;

verus! {

/// A grid-resident entity: walls, terminals and axiom nodes are all pieces.
///
/// Pieces live in one owning arena, `world::Manager::characters`; everything
/// that needs to refer to a piece (synapse casters, the reality anchor) holds
/// an index into that arena.
#[derive(Debug)]
pub struct Piece {
    pub species: Species,
    pub x: i32,
    pub y: i32,
    pub z: i32,
    /// The direction of the piece's last movement, read by `MomentumBeam`.
    pub momentum: OrdDir,
}

impl Piece {
    /// A fresh piece of the given species, at rest at the given coordinate.
    pub fn new(species: Species, x: i32, y: i32, z: i32) -> (r: Piece)
        ensures
            r.species == species,
            r.x == x,
            r.y == y,
            r.z == z,
            r.momentum == OrdDir::Down,
    {
        Piece { species, x, y, z, momentum: OrdDir::Down }
    }
}

/// One of the four cardinal directions, on a grid whose `y` axis grows downward.
#[derive(Copy, Clone, PartialEq, Eq, Structural, Debug)]
pub enum OrdDir {
    Up,
    Right,
    Down,
    Left,
}

impl OrdDir {
    /// The unit offset of this direction, as `(dx, dy)`.
    pub open spec fn offset_spec(self) -> (i32, i32) {
        match self {
            OrdDir::Up => (0i32, -1i32),
            OrdDir::Right => (1i32, 0i32),
            OrdDir::Down => (0i32, 1i32),
            OrdDir::Left => (-1i32, 0i32),
        }
    }

    pub fn as_offset(self) -> (r: (i32, i32))
        ensures
            r == self.offset_spec(),
    {
        match self {
            OrdDir::Up => (0, -1),
            OrdDir::Right => (1, 0),
            OrdDir::Down => (0, 1),
            OrdDir::Left => (-1, 0),
        }
    }

    /// The next direction in clockwise order.
    pub open spec fn rotated_spec(self) -> OrdDir {
        match self {
            OrdDir::Up => OrdDir::Right,
            OrdDir::Right => OrdDir::Down,
            OrdDir::Down => OrdDir::Left,
            OrdDir::Left => OrdDir::Up,
        }
    }

    pub fn rotated(self) -> (r: OrdDir)
        ensures
            r == self.rotated_spec(),
    {
        match self {
            OrdDir::Up => OrdDir::Right,
            OrdDir::Right => OrdDir::Down,
            OrdDir::Down => OrdDir::Left,
            OrdDir::Left => OrdDir::Up,
        }
    }
}

/// Anything a character piece can "do".
///
/// This is the only way that character logic or player input should
/// communicate with pieces.
#[derive(Clone, Debug)]
pub enum Action {
    Move(OrdDir),
}

#[derive(Copy, PartialEq, Eq, Structural, Clone, Debug)]
pub enum Alliance {
    Friendly,
    Enemy,
}

impl Default for Alliance {
    fn default() -> (r: Self)
        ensures
            r == Alliance::Enemy,
    {
        Alliance::Enemy
    }
}

#[derive(Clone, Debug)]
pub struct Sheet {
    /// The character's name.
    pub name: String,
    pub level: u32,
    pub stats: Stats,
    /// Action delay, in arbitrary units of time.
    pub speed: u32,
    pub texture_id: i32,
    pub attacks: Vec<String>,
    pub spells: Vec<String>,
}

#[derive(Clone, Debug)]
pub struct Stats {
    /// Health, or HP; Heart Points
    pub heart: u32,
    /// Magic, or SP; Soul Points
    pub soul: u32,
    /// Bonus damage applied to physical attacks.
    pub power: u32,
    /// Damage reduction when receiving physical attacks.
    pub defense: u32,
    /// Bonus damage applied to magical attacks.
    pub magic: u32,
    /// Damage reduction when receiving magical attacks.
    /// Also makes harmful spells more likely to fail.
    pub resistance: u32,
}

impl Default for Stats {
    fn default() -> (r: Self)
        ensures
            r.heart == 0 && r.soul == 0 && r.power == 0 && r.defense == 0 && r.magic == 0
                && r.resistance == 0,
    {
        Stats { heart: 0, soul: 0, power: 0, defense: 0, magic: 0, resistance: 0 }
    }
}

} // verus!
