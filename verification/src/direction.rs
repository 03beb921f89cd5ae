//! Cardinal directions on the tile grid.

use vstd::prelude::*;

verus! {

/// Orientation of a belt segment or of a placed building.
#[derive(Clone, Copy, PartialEq, Eq, Structural, Debug)]
pub enum MapDirection {
    Up,
    Down,
    Left,
    Right,
}

impl MapDirection {
    /// The direction reached by a single counter-clockwise quarter turn.
    pub open spec fn spec_turned_left(self) -> MapDirection {
        match self {
            MapDirection::Up => MapDirection::Left,
            MapDirection::Down => MapDirection::Right,
            MapDirection::Left => MapDirection::Down,
            MapDirection::Right => MapDirection::Up,
        }
    }

    /// Rotate this direction one quarter turn counter-clockwise.
    pub fn turn_left(&mut self)
        ensures
            *final(self) == old(self).spec_turned_left(),
    {
        *self = match *self {
            MapDirection::Up => MapDirection::Left,
            MapDirection::Down => MapDirection::Right,
            MapDirection::Left => MapDirection::Down,
            MapDirection::Right => MapDirection::Up,
        };
    }

    /// The opposite direction: a transfer between a segment and one facing
    /// back at it would be a U-turn, which is never allowed.
    pub open spec fn spec_opposite(self) -> MapDirection {
        match self {
            MapDirection::Up => MapDirection::Down,
            MapDirection::Down => MapDirection::Up,
            MapDirection::Left => MapDirection::Right,
            MapDirection::Right => MapDirection::Left,
        }
    }

    /// Whether `self` and `other` are perpendicular axes (one vertical,
    /// one horizontal); a hand-off between such segments is a turn.
    pub open spec fn is_perpendicular(self, other: MapDirection) -> bool {
        self != other && self != other.spec_opposite()
    }
}

impl Default for MapDirection {
    /// The direction a fresh build tool faces.
    fn default() -> (r: Self)
        ensures
            r == MapDirection::Up,
    {
        MapDirection::Up
    }
}

/// One value of `T` for each of the four directions.
#[derive(Debug)]
pub struct Directional<T> {
    pub up: T,
    pub down: T,
    pub left: T,
    pub right: T,
}

impl<T> Directional<T> {
    /// The entry selected by `dir`.
    pub open spec fn spec_get(self, dir: MapDirection) -> T {
        match dir {
            MapDirection::Up => self.up,
            MapDirection::Down => self.down,
            MapDirection::Left => self.left,
            MapDirection::Right => self.right,
        }
    }

    /// Select the entry for a direction.
    pub fn get(&self, dir: MapDirection) -> (r: &T)
        ensures
            *r == self.spec_get(dir),
    {
        match dir {
            MapDirection::Up => &self.up,
            MapDirection::Down => &self.down,
            MapDirection::Left => &self.left,
            MapDirection::Right => &self.right,
        }
    }
}

} // verus!
