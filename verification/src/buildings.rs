//! Buildings: types, resolved footprint templates, layouts, and the
//! construction and demolition request events the simulation consumes.

use vstd::prelude::*;
use crate::direction::{Directional, MapDirection};
use crate::map::{BuildingTileType, TilePos};

verus! {

/// Greatest number of tiles a building footprint may occupy.
pub const MAX_BUILDING_SIZE: usize = 9;

/// The kind of structure a build request places.
#[derive(Clone, Copy, PartialEq, Eq, Structural, Debug, Hash)]
pub enum BuildingType {
    Belt,
    Mine,
    Chest,
}

/// Error of parsing a building name nobody knows.
#[derive(Clone, Copy, PartialEq, Eq, Structural, Debug)]
pub struct UnknownBuildingType;

/// Rejection of a build request whose footprint overlaps an existing
/// structure or leaves the grid; nothing is mutated.
#[derive(Clone, Copy, PartialEq, Eq, Structural, Debug)]
pub struct PlacementRejected;

/// Whether the character sequences of two strings are equal.
fn str_content_eq(s: &str, pat: &str) -> (r: bool)
    ensures
        r == (s@ == pat@),
{
    let n = s.unicode_len();
    let m = pat.unicode_len();
    if n != m {
        return false;
    }
    let mut i: usize = 0;
    while i < n
        invariant
            i <= n,
            n == s@.len(),
            n == pat@.len(),
            forall|j: int| 0 <= j < i ==> s@[j] == pat@[j],
        decreases n - i,
    {
        if s.get_char(i) != pat.get_char(i) {
            return false;
        }
        i += 1;
    }
    proof {
        assert(s@ =~= pat@);
    }
    true
}

impl BuildingType {
    /// Parse a building name: `belt`, `mine` or `chest`.
    pub fn from_str(s: &str) -> (r: Result<BuildingType, UnknownBuildingType>)
        ensures
            r == (if s@ == "belt"@ {
                Ok::<BuildingType, UnknownBuildingType>(BuildingType::Belt)
            } else if s@ == "mine"@ {
                Ok::<BuildingType, UnknownBuildingType>(BuildingType::Mine)
            } else if s@ == "chest"@ {
                Ok::<BuildingType, UnknownBuildingType>(BuildingType::Chest)
            } else {
                Err::<BuildingType, UnknownBuildingType>(UnknownBuildingType)
            }),
    {
        if str_content_eq(s, "belt") {
            Ok(BuildingType::Belt)
        } else if str_content_eq(s, "mine") {
            Ok(BuildingType::Mine)
        } else if str_content_eq(s, "chest") {
            Ok(BuildingType::Chest)
        } else {
            Err(UnknownBuildingType)
        }
    }
}

/// A request to place a building, consumed by the construction logic.
#[derive(Clone, Copy, PartialEq, Eq, Structural, Debug)]
pub struct BuildRequestedEvent {
    pub building_type: BuildingType,
    pub direction: MapDirection,
    pub tile_pos: TilePos,
}

/// A request to demolish whatever stands on a tile.
#[derive(Clone, Copy, PartialEq, Eq, Structural, Debug)]
pub struct DemolishEvent {
    pub tile_pos: TilePos,
}

/// The tool the player currently wields.
#[derive(Clone, Copy, PartialEq, Eq, Structural, Debug)]
pub enum SelectedTool {
    NoTool,
    Build { building: BuildingType, direction: MapDirection },
    Buldozer,
}

impl SelectedTool {
    /// The tool after one counter-clockwise rotation: only a build tool's
    /// direction turns, every other tool is unchanged.
    pub open spec fn spec_rotated(self) -> SelectedTool {
        match self {
            SelectedTool::Build { building, direction } => SelectedTool::Build {
                building,
                direction: direction.spec_turned_left(),
            },
            t => t,
        }
    }

    /// Rotate the wielded build tool a quarter turn counter-clockwise.
    pub fn rotate(&mut self)
        ensures
            *final(self) == old(self).spec_rotated(),
    {
        match self {
            SelectedTool::Build { building: _, direction } => {
                direction.turn_left();
            },
            _ => {},
        }
    }
}

/// One footprint entry: a tile offset (or absolute position, once placed)
/// and the structure tile standing there.
pub type FootprintTile = (TilePos, BuildingTileType);

/// The resolved footprint of a building type: for each facing direction, the
/// ordered tile offsets (relative to the build origin) and their tile types.
///
/// Templates arrive already resolved; reading them out of template files is
/// the embedding application's business.
pub struct BuildingTemplate {
    pub building_type: BuildingType,
    pub instructions: Directional<Vec<FootprintTile>>,
}

/// Well-formedness of one facing's footprint: bounded in size, with no
/// tile offset claimed twice.
pub open spec fn footprint_wf(tiles: Seq<FootprintTile>) -> bool {
    &&& tiles.len() <= MAX_BUILDING_SIZE
    &&& forall|i: int, j: int|
        0 <= i < j < tiles.len() ==> (#[trigger] tiles[i]).0 != (#[trigger] tiles[j]).0
}

/// Check one facing's footprint.
fn footprint_check(tiles: &Vec<FootprintTile>) -> (r: bool)
    ensures
        r == footprint_wf(tiles@),
{
    let n = tiles.len();
    if n > MAX_BUILDING_SIZE {
        return false;
    }
    let mut i: usize = 1;
    while i < n
        invariant
            1 <= i <= n || n == 0,
            n == tiles@.len(),
            forall|a: int, b: int|
                0 <= a < b < i ==> (#[trigger] tiles@[a]).0 != (#[trigger] tiles@[b]).0,
        decreases n - i,
    {
        let mut j: usize = 0;
        while j < i
            invariant
                j <= i < n,
                n == tiles@.len(),
                forall|a: int| 0 <= a < j ==> (#[trigger] tiles@[a]).0 != tiles@[i as int].0,
            decreases i - j,
        {
            let (pa, _) = tiles[j];
            let (pb, _) = tiles[i];
            if pa.x == pb.x && pa.y == pb.y {
                proof {
                    assert(tiles@[j as int].0 == tiles@[i as int].0);
                }
                return false;
            }
            j += 1;
        }
        i += 1;
    }
    true
}

impl BuildingTemplate {
    /// Well-formedness: every facing's footprint is bounded and claims no
    /// tile offset twice.
    pub open spec fn wf(self) -> bool {
        &&& footprint_wf(self.instructions.up@)
        &&& footprint_wf(self.instructions.down@)
        &&& footprint_wf(self.instructions.left@)
        &&& footprint_wf(self.instructions.right@)
    }

    /// Check a template for well-formedness; construction requires it, so a
    /// caller holding a template of unknown origin tests it here first.
    pub fn check(&self) -> (r: bool)
        ensures
            r == self.wf(),
    {
        footprint_check(&self.instructions.up) && footprint_check(&self.instructions.down)
            && footprint_check(&self.instructions.left) && footprint_check(
            &self.instructions.right,
        )
    }

    /// The standard resolved footprint of a building type: a single
    /// direction-facing tile for a belt, a two-by-two block for a mine, and
    /// a single chest tile.
    pub fn standard(building_type: BuildingType) -> (t: BuildingTemplate)
        ensures
            t.wf(),
            t.building_type == building_type,
            forall|d: crate::direction::MapDirection|
                #[trigger] t.instructions.spec_get(d)@.len() > 0,
            building_type == BuildingType::Belt ==> {
                &&& t.instructions.up@ == seq![
                    ((TilePos { x: 0, y: 0 }), BuildingTileType::BeltUp),
                ]
                &&& t.instructions.down@ == seq![
                    ((TilePos { x: 0, y: 0 }), BuildingTileType::BeltDown),
                ]
                &&& t.instructions.left@ == seq![
                    ((TilePos { x: 0, y: 0 }), BuildingTileType::BeltLeft),
                ]
                &&& t.instructions.right@ == seq![
                    ((TilePos { x: 0, y: 0 }), BuildingTileType::BeltRight),
                ]
            },
            building_type == BuildingType::Mine ==> forall|d: crate::direction::MapDirection|
                #[trigger] t.instructions.spec_get(d)@ == seq![
                    ((TilePos { x: 0, y: 0 }), BuildingTileType::MineBottomLeft),
                    ((TilePos { x: 1, y: 0 }), BuildingTileType::MineBottomRight),
                    ((TilePos { x: 0, y: 1 }), BuildingTileType::MineTopLeft),
                    ((TilePos { x: 1, y: 1 }), BuildingTileType::MineTopRight),
                ],
            building_type == BuildingType::Chest ==> forall|d: crate::direction::MapDirection|
                #[trigger] t.instructions.spec_get(d)@ == seq![
                    ((TilePos { x: 0, y: 0 }), BuildingTileType::Chest),
                ],
    {
        let origin = TilePos { x: 0, y: 0 };
        let t = match building_type {
            BuildingType::Belt => BuildingTemplate {
                building_type,
                instructions: Directional {
                    up: vec![(origin, BuildingTileType::BeltUp)],
                    down: vec![(origin, BuildingTileType::BeltDown)],
                    left: vec![(origin, BuildingTileType::BeltLeft)],
                    right: vec![(origin, BuildingTileType::BeltRight)],
                },
            },
            BuildingType::Mine => {
                let mine_tiles = || -> (v: Vec<FootprintTile>)
                    ensures
                        footprint_wf(v@),
                        v@.len() == 4,
                        v@ == seq![
                            ((TilePos { x: 0, y: 0 }), BuildingTileType::MineBottomLeft),
                            ((TilePos { x: 1, y: 0 }), BuildingTileType::MineBottomRight),
                            ((TilePos { x: 0, y: 1 }), BuildingTileType::MineTopLeft),
                            ((TilePos { x: 1, y: 1 }), BuildingTileType::MineTopRight),
                        ],
                    {
                    let v: Vec<FootprintTile> = vec![
                        (TilePos { x: 0, y: 0 }, BuildingTileType::MineBottomLeft),
                        (TilePos { x: 1, y: 0 }, BuildingTileType::MineBottomRight),
                        (TilePos { x: 0, y: 1 }, BuildingTileType::MineTopLeft),
                        (TilePos { x: 1, y: 1 }, BuildingTileType::MineTopRight),
                    ];
                    v
                };
                BuildingTemplate {
                    building_type,
                    instructions: Directional {
                        up: mine_tiles(),
                        down: mine_tiles(),
                        left: mine_tiles(),
                        right: mine_tiles(),
                    },
                }
            },
            BuildingType::Chest => BuildingTemplate {
                building_type,
                instructions: Directional {
                    up: vec![(origin, BuildingTileType::Chest)],
                    down: vec![(origin, BuildingTileType::Chest)],
                    left: vec![(origin, BuildingTileType::Chest)],
                    right: vec![(origin, BuildingTileType::Chest)],
                },
            },
        };
        t
    }

    /// Bind the template to a build origin and facing direction.
    pub fn place(&self, origin: TilePos, direction: MapDirection) -> (r: PlacedBuildingTemplate)
        ensures
            r.template == self,
            r.origin == origin,
            r.direction == direction,
    {
        PlacedBuildingTemplate { template: self, origin, direction }
    }
}

/// A template bound to a build origin and facing direction.
pub struct PlacedBuildingTemplate<'t> {
    pub template: &'t BuildingTemplate,
    pub origin: TilePos,
    pub direction: MapDirection,
}

/// The footprint tile `t` translated by `origin`.
pub open spec fn spec_translated(t: FootprintTile, origin: TilePos) -> FootprintTile {
    (TilePos { x: (origin.x + t.0.x) as u32, y: (origin.y + t.0.y) as u32 }, t.1)
}

/// Whether translating footprint tile `t` by `origin` stays within the
/// coordinate range.
pub open spec fn spec_translation_fits(t: FootprintTile, origin: TilePos) -> bool {
    origin.x + t.0.x <= u32::MAX && origin.y + t.0.y <= u32::MAX
}

impl<'t> PlacedBuildingTemplate<'t> {
    /// The footprint tiles this placement selects, before translation.
    pub open spec fn spec_footprint(self) -> Seq<FootprintTile> {
        self.template.instructions.spec_get(self.direction)@
    }

    /// The absolute tile positions and tile types this placement covers:
    /// every footprint tile translated by the origin, or nothing when a
    /// translated coordinate would leave the coordinate range (such a
    /// placement is rejected).
    pub fn instructions(&self) -> (r: Option<Vec<FootprintTile>>)
        ensures
            r is Some <==> (forall|i: int|
                0 <= i < self.spec_footprint().len() ==> spec_translation_fits(
                    #[trigger] self.spec_footprint()[i],
                    self.origin,
                )),
            r matches Some(v) ==> {
                &&& v@.len() == self.spec_footprint().len()
                &&& forall|i: int|
                    0 <= i < v@.len() ==> #[trigger] v@[i] == spec_translated(
                        self.spec_footprint()[i],
                        self.origin,
                    )
            },
    {
        let tiles: &Vec<FootprintTile> = self.template.instructions.get(self.direction);
        let mut out: Vec<FootprintTile> = Vec::new();
        let n = tiles.len();
        let mut i: usize = 0;
        while i < n
            invariant
                i <= n,
                n == self.spec_footprint().len(),
                tiles@ == self.spec_footprint(),
                out@.len() == i,
                forall|j: int|
                    0 <= j < i ==> spec_translation_fits(
                        #[trigger] self.spec_footprint()[j],
                        self.origin,
                    ),
                forall|j: int|
                    0 <= j < i ==> #[trigger] out@[j] == spec_translated(
                        self.spec_footprint()[j],
                        self.origin,
                    ),
            decreases n - i,
        {
            let (offset, tile_type) = tiles[i];
            if offset.x > u32::MAX - self.origin.x || offset.y > u32::MAX - self.origin.y {
                return None;
            }
            out.push((TilePos { x: self.origin.x + offset.x, y: self.origin.y + offset.y }, tile_type));
            i += 1;
        }
        Some(out)
    }
}

/// The tiles a constructed building occupies: absolute positions in
/// placement order, each with its tile type.
#[derive(Clone, PartialEq, Eq, Debug)]
pub struct BuildingLayout {
    pub tiles: Vec<FootprintTile>,
}

impl BuildingLayout {
    /// Whether the layout covers `tile`.
    pub open spec fn spec_contains(self, tile: TilePos) -> bool {
        exists|i: int| 0 <= i < self.tiles@.len() && (#[trigger] self.tiles@[i]).0 == tile
    }

    /// Report whether the layout covers `tile`.
    pub fn contains(&self, tile: &TilePos) -> (r: bool)
        ensures
            r == self.spec_contains(*tile),
    {
        let n = self.tiles.len();
        let mut i: usize = 0;
        while i < n
            invariant
                i <= n,
                n == self.tiles@.len(),
                forall|j: int| 0 <= j < i ==> (#[trigger] self.tiles@[j]).0 != tile,
            decreases n - i,
        {
            let (pos, _) = self.tiles[i];
            if pos.x == tile.x && pos.y == tile.y {
                proof {
                    assert(self.tiles@[i as int].0 == *tile);
                }
                return true;
            }
            i += 1;
        }
        false
    }
}

/// A constructed building: its kind and the tiles it occupies.
pub struct Building {
    pub building_type: BuildingType,
    pub layout: BuildingLayout,
}

} // verus!
