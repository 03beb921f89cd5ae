//! The tile grid: positions, building tile types, and the direction math
//! that resolves a belt segment's downstream neighbor.

use vstd::prelude::*;
use crate::belts::{PROGRESS_SCALE, HALF_ENTRY_OFFSET};

verus! {

/// Width of the tile grid, in tiles.
pub const MAP_WIDTH: u32 = 64;

/// Height of the tile grid, in tiles.
pub const MAP_HEIGHT: u32 = 64;

/// A position on the tile grid.
#[derive(Clone, Copy, PartialEq, Eq, Structural, Debug)]
pub struct TilePos {
    pub x: u32,
    pub y: u32,
}

impl TilePos {
    pub fn new(x: u32, y: u32) -> (r: TilePos)
        ensures
            r == (TilePos { x, y }),
    {
        TilePos { x, y }
    }

    /// Whether the position lies on the grid.
    pub open spec fn spec_in_bounds(self) -> bool {
        self.x < MAP_WIDTH && self.y < MAP_HEIGHT
    }

    pub fn in_bounds(&self) -> (r: bool)
        ensures
            r == self.spec_in_bounds(),
    {
        self.x < MAP_WIDTH && self.y < MAP_HEIGHT
    }
}

/// The kind of structure tile occupying one grid cell.
///
/// Values of this type are only ever constructed by matching, or by the
/// checked conversion [`BuildingTileType::from_texture_index`]; no numeric
/// reinterpretation is involved.
#[derive(Clone, Copy, PartialEq, Eq, Structural, Debug)]
pub enum BuildingTileType {
    BeltUp,
    BeltDown,
    BeltLeft,
    BeltRight,
    MineTopLeft,
    MineTopRight,
    MineBottomLeft,
    MineBottomRight,
    Explosion,
    Chest,
    Unknown,
}

impl BuildingTileType {
    /// The tile type denoted by a texture index, [`BuildingTileType::Unknown`]
    /// for every index outside the known range.
    pub open spec fn spec_from_index(idx: u32) -> BuildingTileType {
        if idx == 0 {
            BuildingTileType::BeltUp
        } else if idx == 1 {
            BuildingTileType::BeltDown
        } else if idx == 2 {
            BuildingTileType::BeltLeft
        } else if idx == 3 {
            BuildingTileType::BeltRight
        } else if idx == 4 {
            BuildingTileType::MineTopLeft
        } else if idx == 5 {
            BuildingTileType::MineTopRight
        } else if idx == 6 {
            BuildingTileType::MineBottomLeft
        } else if idx == 7 {
            BuildingTileType::MineBottomRight
        } else if idx == 8 {
            BuildingTileType::Explosion
        } else if idx == 9 {
            BuildingTileType::Chest
        } else {
            BuildingTileType::Unknown
        }
    }

    /// Checked conversion from a texture index.
    pub fn from_texture_index(idx: u32) -> (r: BuildingTileType)
        ensures
            r == BuildingTileType::spec_from_index(idx),
    {
        if idx == 0 {
            BuildingTileType::BeltUp
        } else if idx == 1 {
            BuildingTileType::BeltDown
        } else if idx == 2 {
            BuildingTileType::BeltLeft
        } else if idx == 3 {
            BuildingTileType::BeltRight
        } else if idx == 4 {
            BuildingTileType::MineTopLeft
        } else if idx == 5 {
            BuildingTileType::MineTopRight
        } else if idx == 6 {
            BuildingTileType::MineBottomLeft
        } else if idx == 7 {
            BuildingTileType::MineBottomRight
        } else if idx == 8 {
            BuildingTileType::Explosion
        } else if idx == 9 {
            BuildingTileType::Chest
        } else {
            BuildingTileType::Unknown
        }
    }

    /// The texture index of a tile type; `u32::MAX` for `Unknown`.
    pub open spec fn spec_texture_index(self) -> u32 {
        match self {
            BuildingTileType::BeltUp => 0,
            BuildingTileType::BeltDown => 1,
            BuildingTileType::BeltLeft => 2,
            BuildingTileType::BeltRight => 3,
            BuildingTileType::MineTopLeft => 4,
            BuildingTileType::MineTopRight => 5,
            BuildingTileType::MineBottomLeft => 6,
            BuildingTileType::MineBottomRight => 7,
            BuildingTileType::Explosion => 8,
            BuildingTileType::Chest => 9,
            BuildingTileType::Unknown => u32::MAX,
        }
    }

    pub fn texture_index(&self) -> (r: u32)
        ensures
            r == self.spec_texture_index(),
    {
        match self {
            BuildingTileType::BeltUp => 0,
            BuildingTileType::BeltDown => 1,
            BuildingTileType::BeltLeft => 2,
            BuildingTileType::BeltRight => 3,
            BuildingTileType::MineTopLeft => 4,
            BuildingTileType::MineTopRight => 5,
            BuildingTileType::MineBottomLeft => 6,
            BuildingTileType::MineBottomRight => 7,
            BuildingTileType::Explosion => 8,
            BuildingTileType::Chest => 9,
            BuildingTileType::Unknown => u32::MAX,
        }
    }

    pub open spec fn spec_is_belt(self) -> bool {
        match self {
            BuildingTileType::BeltUp
            | BuildingTileType::BeltDown
            | BuildingTileType::BeltLeft
            | BuildingTileType::BeltRight => true,
            _ => false,
        }
    }

    /// Whether the tile is a belt segment tile.
    pub fn is_belt(&self) -> (r: bool)
        ensures
            r == self.spec_is_belt(),
    {
        match self {
            BuildingTileType::BeltUp
            | BuildingTileType::BeltDown
            | BuildingTileType::BeltLeft
            | BuildingTileType::BeltRight => true,
            _ => false,
        }
    }

    /// The position a belt tile at `pos` feeds into, if any: up feeds
    /// `(x, y+1)`, down `(x, y-1)` only when `y > 0`, left `(x-1, y)` only
    /// when `x > 0`, right `(x+1, y)`; coordinate overflow and non-belt
    /// tiles resolve to nothing.
    pub open spec fn spec_next_belt_pos(self, pos: TilePos) -> Option<TilePos> {
        match self {
            BuildingTileType::BeltUp => if pos.y < u32::MAX {
                Some(TilePos { x: pos.x, y: (pos.y + 1) as u32 })
            } else {
                None
            },
            BuildingTileType::BeltDown => if pos.y > 0 {
                Some(TilePos { x: pos.x, y: (pos.y - 1) as u32 })
            } else {
                None
            },
            BuildingTileType::BeltLeft => if pos.x > 0 {
                Some(TilePos { x: (pos.x - 1) as u32, y: pos.y })
            } else {
                None
            },
            BuildingTileType::BeltRight => if pos.x < u32::MAX {
                Some(TilePos { x: (pos.x + 1) as u32, y: pos.y })
            } else {
                None
            },
            _ => None,
        }
    }

    /// Resolve the forward neighbor of a belt tile at `pos`.
    pub fn next_belt_pos(&self, pos: TilePos) -> (r: Option<TilePos>)
        ensures
            r == self.spec_next_belt_pos(pos),
    {
        match self {
            BuildingTileType::BeltUp => if pos.y < u32::MAX {
                Some(TilePos { x: pos.x, y: pos.y + 1 })
            } else {
                None
            },
            BuildingTileType::BeltDown => if pos.y > 0 {
                Some(TilePos { x: pos.x, y: pos.y - 1 })
            } else {
                None
            },
            BuildingTileType::BeltLeft => if pos.x > 0 {
                Some(TilePos { x: pos.x - 1, y: pos.y })
            } else {
                None
            },
            BuildingTileType::BeltRight => if pos.x < u32::MAX {
                Some(TilePos { x: pos.x + 1, y: pos.y })
            } else {
                None
            },
            _ => None,
        }
    }

    /// Whether the tile moves tokens along the vertical axis.
    pub open spec fn spec_is_vertical_belt(self) -> bool {
        self == BuildingTileType::BeltUp || self == BuildingTileType::BeltDown
    }

    /// Whether the tile moves tokens along the horizontal axis.
    pub open spec fn spec_is_horizontal_belt(self) -> bool {
        self == BuildingTileType::BeltLeft || self == BuildingTileType::BeltRight
    }

    /// The entry offset a token receives when it hands off from a belt of
    /// type `self` onto one of type `next`: half a segment on a
    /// perpendicular (turning) junction, zero on a straight-through one,
    /// and no transfer at all for any other pair — neither U-turns nor
    /// pairs involving a non-belt tile.
    pub open spec fn spec_next_belt_start(self, next: BuildingTileType) -> Option<u64> {
        if self.spec_is_vertical_belt() && next.spec_is_horizontal_belt() {
            Some(HALF_ENTRY_OFFSET)
        } else if self.spec_is_horizontal_belt() && next.spec_is_vertical_belt() {
            Some(HALF_ENTRY_OFFSET)
        } else if self.spec_is_belt() && self == next {
            Some(0u64)
        } else {
            None
        }
    }

    /// Compute the entry offset for a hand-off from `self` onto `next`.
    pub fn next_belt_start(self, next: BuildingTileType) -> (r: Option<u64>)
        ensures
            r == self.spec_next_belt_start(next),
            r matches Some(off) ==> off <= PROGRESS_SCALE,
    {
        let vertical = match self {
            BuildingTileType::BeltUp | BuildingTileType::BeltDown => true,
            _ => false,
        };
        let horizontal = match self {
            BuildingTileType::BeltLeft | BuildingTileType::BeltRight => true,
            _ => false,
        };
        let next_vertical = match next {
            BuildingTileType::BeltUp | BuildingTileType::BeltDown => true,
            _ => false,
        };
        let next_horizontal = match next {
            BuildingTileType::BeltLeft | BuildingTileType::BeltRight => true,
            _ => false,
        };
        if vertical && next_horizontal {
            Some(HALF_ENTRY_OFFSET)
        } else if horizontal && next_vertical {
            Some(HALF_ENTRY_OFFSET)
        } else if (vertical || horizontal) && self == next {
            Some(0u64)
        } else {
            None
        }
    }
}

/// A request to run the whole-map maintenance actions.
pub enum MapEvent {
    ToggleGrid,
    ClearBuildings,
}

} // verus!
