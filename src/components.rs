use vstd::prelude::*;

verus! {

/// Marker for an entity whose health has run out.
#[derive(Clone, Copy, Debug, PartialEq, Eq, Structural)]
pub struct Dead;

/// The four grid directions. In the tile world `Up` is north (increasing
/// `y`), `Right` is east (increasing `x`), `Down` is south and `Left` is west.
#[derive(Clone, Copy, Debug, PartialEq, Eq, Structural)]
pub enum Direction {
    Up,
    Down,
    Left,
    Right,
}

/// Hit points of an entity.
#[derive(Clone, Copy, Debug, PartialEq, Eq, Structural)]
pub struct Health {
    pub current: u8,
    pub max: u8,
}

/// Marker for a chunk whose perimeter ring is not fully stitched yet.
#[derive(Clone, Copy, Debug, PartialEq, Eq, Structural)]
pub struct Dirty;

/// The direction pointing the other way.
pub open spec fn opposite(d: Direction) -> Direction {
    match d {
        Direction::Up => Direction::Down,
        Direction::Down => Direction::Up,
        Direction::Left => Direction::Right,
        Direction::Right => Direction::Left,
    }
}

impl Direction {
    /// The direction pointing the other way.
    pub fn opposite(self) -> (r: Direction)
        ensures
            r == opposite(self),
    {
        match self {
            Direction::Up => Direction::Down,
            Direction::Down => Direction::Up,
            Direction::Left => Direction::Right,
            Direction::Right => Direction::Left,
        }
    }
}

impl Health {
    /// An entity is dead once its current health is zero.
    pub fn is_depleted(&self) -> (r: bool)
        ensures
            r == (self.current == 0),
    {
        self.current == 0
    }

    /// The marker to attach to an entity with this health, if it has died.
    pub fn check_death(&self) -> (r: Option<Dead>)
        ensures
            r is Some <==> self.current == 0,
    {
        if self.is_depleted() {
            Some(Dead)
        } else {
            None
        }
    }
}

} // verus!
