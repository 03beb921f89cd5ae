use beltsim::belts::{Item, ItemType, PROGRESS_SCALE};
use beltsim::buildings::{BuildRequestedEvent, BuildingTemplate, BuildingType};
use beltsim::direction::MapDirection;
use beltsim::map::{BuildingTileType, TilePos};
use beltsim::world::World;

fn at(x: u32, y: u32) -> TilePos {
    TilePos { x, y }
}

fn build(w: &mut World, building_type: BuildingType, direction: MapDirection, pos: TilePos) {
    let template = BuildingTemplate::standard(building_type);
    let event = BuildRequestedEvent {
        building_type,
        direction,
        tile_pos: pos,
    };
    w.build_building(&event, &template).expect("placement was rejected");
}

#[test]
fn map_direction_default_is_up() {
    assert_eq!(MapDirection::default(), MapDirection::Up);
}

#[test]
fn item_type_codes_round_trip() {
    assert_eq!(ItemType::Coal.code(), 0);
    assert_eq!(ItemType::from_code(0), Some(ItemType::Coal));
    assert_eq!(ItemType::from_code(1), None);
    assert_eq!(ItemType::from_code(u64::MAX), None);
}

#[test]
fn belt_front_reports_the_leading_token() {
    let mut b = beltsim::belts::Belt::new();
    assert_eq!(b.front(), None);
    assert!(b.place(
        250,
        Item {
            id: 9,
            item_type: ItemType::Coal,
        }
    ));
    assert_eq!(b.front(), Some((9, 0, 250)));
}

#[test]
fn is_possible_to_build_matches_build_outcome() {
    let mut w = World::new();
    let template = BuildingTemplate::standard(BuildingType::Mine);
    assert!(w.is_possible_to_build(&template, at(4, 4), MapDirection::Up));
    build(&mut w, BuildingType::Belt, MapDirection::Up, at(5, 5));
    // The 2x2 footprint from (4,4) now overlaps the belt at (5,5).
    assert!(!w.is_possible_to_build(&template, at(4, 4), MapDirection::Up));
    // Hanging off the grid is impossible too.
    assert!(!w.is_possible_to_build(&template, at(63, 5), MapDirection::Up));
    // A clear spot remains possible.
    assert!(w.is_possible_to_build(&template, at(10, 10), MapDirection::Up));
}

#[test]
fn build_belt_rejects_cell_occupied_by_building() {
    let mut w = World::new();
    build(&mut w, BuildingType::Chest, MapDirection::Up, at(5, 5));
    // A chest tile is not a belt: laying a belt there changes nothing.
    let r = w.build_belt(at(5, 5), None);
    assert_eq!(r, None);
    assert_eq!(w.grid.len(), 1);
    assert_eq!(w.grid[0].tile, BuildingTileType::Chest);
}

#[test]
fn build_belt_replaces_an_existing_belt() {
    let mut w = World::new();
    let last = w.build_belt(at(5, 5), None);
    let belt = w.grid[0].belt.unwrap();
    {
        let b = w.belts[belt].as_mut().unwrap();
        assert!(b.place(
            100,
            Item {
                id: 1,
                item_type: ItemType::Coal,
            }
        ));
    }
    w.created = 1;
    // Re-laying over the belt (from elsewhere) replaces the segment; its
    // token is despawned, never leaked.
    let r = w.build_belt(at(5, 5), last.map(|_| at(4, 5)));
    assert_eq!(r, Some(at(5, 5)));
    assert_eq!(w.despawned, 1);
    assert_eq!(w.grid.len(), 1);
    let new_belt = w.grid[0].belt.unwrap();
    assert_eq!(w.belts[new_belt].as_ref().unwrap().len(), 0);
    assert_eq!(w.created, w.consumed + w.despawned);
}

#[test]
fn tick_keeps_every_progress_in_range() {
    let mut w = World::new();
    build(&mut w, BuildingType::Belt, MapDirection::Down, at(4, 5));
    build(&mut w, BuildingType::Belt, MapDirection::Right, at(4, 4));
    build(&mut w, BuildingType::Mine, MapDirection::Up, at(5, 5));
    // Odd tick sizes, including oversized ones that saturate.
    for dt in [70, 130, 300, 999999, 1, 310, 70, 130, 300] {
        w.tick(dt);
        for belt in w.belts.iter().flatten() {
            for i in 0..belt.len() {
                let p = belt.get(i).2;
                assert!(p <= PROGRESS_SCALE);
                if i > 0 {
                    // Strictly decreasing, at least one item size apart.
                    assert!(p + PROGRESS_SCALE / 3 <= belt.get(i - 1).2);
                }
            }
        }
    }
}
