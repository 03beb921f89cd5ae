use beltsim::belts::{
    belt_dir_between, Belt, Item, ItemType, HALF_ENTRY_OFFSET, ITEM_SIZE, PROGRESS_SCALE,
};
use beltsim::buildings::{BuildingType, SelectedTool, UnknownBuildingType};
use beltsim::direction::{Directional, MapDirection};
use beltsim::inventory::Inventory;
use beltsim::map::{BuildingTileType, TilePos};
use beltsim::mine::{output_positions, Mine};

fn coal(id: u64) -> Item {
    Item {
        id,
        item_type: ItemType::Coal,
    }
}

#[test]
fn turn_left_cycles_counter_clockwise() {
    let mut d = MapDirection::Up;
    d.turn_left();
    assert_eq!(d, MapDirection::Left);
    d.turn_left();
    assert_eq!(d, MapDirection::Down);
    d.turn_left();
    assert_eq!(d, MapDirection::Right);
    d.turn_left();
    assert_eq!(d, MapDirection::Up);
}

#[test]
fn directional_get_selects_per_direction() {
    let d = Directional {
        up: 1u32,
        down: 2,
        left: 3,
        right: 4,
    };
    assert_eq!(*d.get(MapDirection::Up), 1);
    assert_eq!(*d.get(MapDirection::Down), 2);
    assert_eq!(*d.get(MapDirection::Left), 3);
    assert_eq!(*d.get(MapDirection::Right), 4);
}

#[test]
fn selected_tool_rotate_turns_build_direction_only() {
    let mut t = SelectedTool::Build {
        building: BuildingType::Mine,
        direction: MapDirection::Up,
    };
    t.rotate();
    assert_eq!(
        t,
        SelectedTool::Build {
            building: BuildingType::Mine,
            direction: MapDirection::Left,
        }
    );
    let mut b = SelectedTool::Buldozer;
    b.rotate();
    assert_eq!(b, SelectedTool::Buldozer);
}

#[test]
fn building_type_from_str_parses_known_names() {
    assert_eq!(BuildingType::from_str("belt"), Ok(BuildingType::Belt));
    assert_eq!(BuildingType::from_str("mine"), Ok(BuildingType::Mine));
    assert_eq!(BuildingType::from_str("chest"), Ok(BuildingType::Chest));
}

#[test]
fn building_type_from_str_rejects_unknown_names() {
    assert_eq!(BuildingType::from_str("tree"), Err(UnknownBuildingType));
    assert_eq!(BuildingType::from_str(""), Err(UnknownBuildingType));
    assert_eq!(BuildingType::from_str("belts"), Err(UnknownBuildingType));
}

#[test]
fn texture_index_round_trip() {
    assert_eq!(BuildingTileType::from_texture_index(0), BuildingTileType::BeltUp);
    assert_eq!(BuildingTileType::from_texture_index(1), BuildingTileType::BeltDown);
    assert_eq!(BuildingTileType::from_texture_index(2), BuildingTileType::BeltLeft);
    assert_eq!(BuildingTileType::from_texture_index(3), BuildingTileType::BeltRight);
    assert_eq!(BuildingTileType::from_texture_index(9), BuildingTileType::Chest);
    assert_eq!(BuildingTileType::from_texture_index(10), BuildingTileType::Unknown);
    assert_eq!(
        BuildingTileType::from_texture_index(u32::MAX),
        BuildingTileType::Unknown
    );
    assert_eq!(BuildingTileType::BeltRight.texture_index(), 3);
    assert_eq!(BuildingTileType::Chest.texture_index(), 9);
}

#[test]
fn next_belt_pos_follows_orientation() {
    let p = TilePos { x: 2, y: 3 };
    assert_eq!(
        BuildingTileType::BeltUp.next_belt_pos(p),
        Some(TilePos { x: 2, y: 4 })
    );
    assert_eq!(
        BuildingTileType::BeltDown.next_belt_pos(p),
        Some(TilePos { x: 2, y: 2 })
    );
    assert_eq!(
        BuildingTileType::BeltLeft.next_belt_pos(p),
        Some(TilePos { x: 1, y: 3 })
    );
    assert_eq!(
        BuildingTileType::BeltRight.next_belt_pos(p),
        Some(TilePos { x: 3, y: 3 })
    );
    // Edges of the coordinate range resolve to nothing.
    assert_eq!(
        BuildingTileType::BeltDown.next_belt_pos(TilePos { x: 2, y: 0 }),
        None
    );
    assert_eq!(
        BuildingTileType::BeltLeft.next_belt_pos(TilePos { x: 0, y: 2 }),
        None
    );
    // A non-belt tile feeds nowhere.
    assert_eq!(BuildingTileType::Chest.next_belt_pos(p), None);
}

#[test]
fn entry_offset_perpendicular_is_half() {
    // A turn between perpendicular orientations applies exactly half a
    // segment of entry offset.
    assert_eq!(HALF_ENTRY_OFFSET * 2, PROGRESS_SCALE);
    assert_eq!(
        BuildingTileType::BeltUp.next_belt_start(BuildingTileType::BeltRight),
        Some(HALF_ENTRY_OFFSET)
    );
    assert_eq!(
        BuildingTileType::BeltDown.next_belt_start(BuildingTileType::BeltLeft),
        Some(HALF_ENTRY_OFFSET)
    );
    assert_eq!(
        BuildingTileType::BeltLeft.next_belt_start(BuildingTileType::BeltUp),
        Some(HALF_ENTRY_OFFSET)
    );
    assert_eq!(
        BuildingTileType::BeltRight.next_belt_start(BuildingTileType::BeltDown),
        Some(HALF_ENTRY_OFFSET)
    );
}

#[test]
fn entry_offset_straight_is_zero() {
    assert_eq!(
        BuildingTileType::BeltUp.next_belt_start(BuildingTileType::BeltUp),
        Some(0)
    );
    assert_eq!(
        BuildingTileType::BeltRight.next_belt_start(BuildingTileType::BeltRight),
        Some(0)
    );
}

#[test]
fn entry_offset_reversal_is_rejected() {
    assert_eq!(
        BuildingTileType::BeltUp.next_belt_start(BuildingTileType::BeltDown),
        None
    );
    assert_eq!(
        BuildingTileType::BeltLeft.next_belt_start(BuildingTileType::BeltRight),
        None
    );
    assert_eq!(
        BuildingTileType::BeltUp.next_belt_start(BuildingTileType::Chest),
        None
    );
}

#[test]
fn entry_offset_rejects_non_belt_pairs() {
    // Equal non-belt tiles still transfer nothing: offsets exist only
    // between belt orientations.
    assert_eq!(
        BuildingTileType::Chest.next_belt_start(BuildingTileType::Chest),
        None
    );
    assert_eq!(
        BuildingTileType::Unknown.next_belt_start(BuildingTileType::Unknown),
        None
    );
    assert_eq!(
        BuildingTileType::MineTopLeft.next_belt_start(BuildingTileType::MineTopLeft),
        None
    );
    assert_eq!(
        BuildingTileType::Chest.next_belt_start(BuildingTileType::BeltUp),
        None
    );
}

#[test]
fn belt_dir_between_orthogonal_neighbors() {
    let at = |x, y| TilePos { x, y };
    assert_eq!(
        belt_dir_between(at(3, 2), at(2, 2)),
        Some(BuildingTileType::BeltRight)
    );
    assert_eq!(
        belt_dir_between(at(3, 2), at(4, 2)),
        Some(BuildingTileType::BeltLeft)
    );
    assert_eq!(
        belt_dir_between(at(3, 2), at(3, 1)),
        Some(BuildingTileType::BeltUp)
    );
    assert_eq!(
        belt_dir_between(at(3, 2), at(3, 3)),
        Some(BuildingTileType::BeltDown)
    );
    assert_eq!(belt_dir_between(at(3, 2), at(4, 3)), None);
    assert_eq!(belt_dir_between(at(3, 2), at(3, 2)), None);
}

#[test]
fn belt_place_orders_and_rejects() {
    let mut b = Belt::new();
    assert_eq!(b.len(), 0);
    assert!(b.place(240, coal(1)));
    // A candidate too close behind the last occupant is rejected.
    assert!(!b.place(240 - ITEM_SIZE + 1, coal(2)));
    assert_eq!(b.len(), 1);
    assert!(b.place(140, coal(2)));
    assert!(b.place(0, coal(3)));
    assert_eq!(b.len(), 3);
    assert_eq!(b.get(0), (1, 0, 240));
    assert_eq!(b.get(1), (2, 0, 140));
    assert_eq!(b.get(2), (3, 0, 0));
}

#[test]
fn belt_place_into_full_segment_never_mutates() {
    let mut b = Belt::new();
    assert!(b.place(300, coal(1)));
    assert!(b.place(150, coal(2)));
    assert!(b.place(0, coal(3)));
    let before = [b.get(0), b.get(1), b.get(2)];
    // The segment is full: placement always fails and mutates nothing.
    assert!(!b.place(0, coal(4)));
    assert!(!b.place(300, coal(5)));
    assert_eq!(b.len(), 3);
    assert_eq!([b.get(0), b.get(1), b.get(2)], before);
}

#[test]
fn belt_advance_keeps_order_spacing_and_range() {
    let mut b = Belt::new();
    assert!(b.place(240, coal(1)));
    assert!(b.place(120, coal(2)));
    assert!(b.place(0, coal(3)));
    b.advance(150);
    // The front clamps at the exit; every follower keeps one item size back.
    assert_eq!(b.get(0).2, 300);
    assert_eq!(b.get(1).2, 200);
    assert_eq!(b.get(2).2, 100);
    b.advance(600);
    assert_eq!(b.get(0).2, 300);
    assert_eq!(b.get(1).2, 200);
    assert_eq!(b.get(2).2, 100);
    for i in 0..3 {
        assert!(b.get(i).2 <= PROGRESS_SCALE);
    }
}

#[test]
fn belt_pop_front_shifts_queue() {
    let mut b = Belt::new();
    assert!(b.place(250, coal(7)));
    assert!(b.place(100, coal(8)));
    assert_eq!(b.pop_front(), (7, 0, 250));
    assert_eq!(b.len(), 1);
    assert_eq!(b.get(0), (8, 0, 100));
}

#[test]
fn inventory_stacks_into_partial_slot() {
    let mut inv = Inventory::new(2);
    assert_eq!(inv.num_slots(), 2);
    assert!(inv.insert(3, ItemType::Coal));
    assert_eq!(inv.slot(0), Some((0, 3)));
    // Two more coal fit the partial slot exactly, reaching the stack cap.
    assert!(inv.insert(2, ItemType::Coal));
    assert_eq!(inv.slot(0), Some((0, 5)));
    assert_eq!(inv.slot(1), None);
    // A further unit opens the next slot.
    assert!(inv.insert(1, ItemType::Coal));
    assert_eq!(inv.slot(0), Some((0, 5)));
    assert_eq!(inv.slot(1), Some((0, 1)));
}

#[test]
fn inventory_empty_slot_respects_the_stack_cap() {
    // An empty slot holds at most one full stack: an oversized insertion
    // fails and mutates nothing.
    let mut inv = Inventory::new(1);
    assert!(!inv.insert(6, ItemType::Coal));
    assert_eq!(inv.slot(0), None);
    assert!(inv.insert(5, ItemType::Coal));
    assert_eq!(inv.slot(0), Some((0, 5)));
}

#[test]
fn inventory_full_rejects_deterministically() {
    let mut inv = Inventory::new(1);
    assert!(inv.insert(3, ItemType::Coal));
    assert!(inv.insert(2, ItemType::Coal));
    assert_eq!(inv.slot(0), Some((0, 5)));
    // No slot with room and no empty slot: insertion fails, nothing changes.
    assert!(!inv.insert(1, ItemType::Coal));
    assert_eq!(inv.slot(0), Some((0, 5)));
    assert!(!inv.insert(1, ItemType::Coal));
}

#[test]
fn mine_timer_fires_on_period_and_keeps_remainder() {
    let mut m = Mine::new(300, TilePos { x: 5, y: 5 });
    assert!(!m.tick(299));
    assert_eq!(m.elapsed, 299);
    assert!(m.tick(1));
    assert_eq!(m.elapsed, 0);
    assert!(m.tick(450));
    // The remainder past the period is kept, so no time is lost.
    assert_eq!(m.elapsed, 150);
}

#[test]
fn output_positions_in_attempt_order() {
    assert_eq!(
        output_positions(TilePos { x: 3, y: 4 }),
        vec![TilePos { x: 2, y: 4 }, TilePos { x: 3, y: 3 }]
    );
    assert_eq!(
        output_positions(TilePos { x: 0, y: 4 }),
        vec![TilePos { x: 0, y: 3 }]
    );
    assert_eq!(
        output_positions(TilePos { x: 3, y: 0 }),
        vec![TilePos { x: 2, y: 0 }]
    );
    assert_eq!(output_positions(TilePos { x: 0, y: 0 }), vec![]);
}
