use beltsim::belts::{Item, ItemType, PROGRESS_SCALE};
use beltsim::buildings::{
    BuildRequestedEvent, BuildingTemplate, BuildingType, DemolishEvent, FootprintTile,
    PlacementRejected,
};
use beltsim::direction::{Directional, MapDirection};
use beltsim::map::{BuildingTileType, TilePos};
use beltsim::mine::MINE_OUTPUT_PROGRESS;
use beltsim::world::World;

fn at(x: u32, y: u32) -> TilePos {
    TilePos { x, y }
}

fn coal(id: u64) -> Item {
    Item {
        id,
        item_type: ItemType::Coal,
    }
}

/// Place one building through the public request path; panics on rejection.
fn build(w: &mut World, building_type: BuildingType, direction: MapDirection, pos: TilePos) -> usize {
    let template = BuildingTemplate::standard(building_type);
    assert!(template.check());
    let event = BuildRequestedEvent {
        building_type,
        direction,
        tile_pos: pos,
    };
    w.build_building(&event, &template).expect("placement was rejected")
}

/// The belt arena index registered at `pos`.
fn belt_at(w: &World, pos: TilePos) -> usize {
    w.grid
        .iter()
        .find(|e| e.pos == pos)
        .and_then(|e| e.belt)
        .expect("no belt at that position")
}

/// Total number of tokens riding any belt.
fn tokens_on_belts(w: &World) -> u64 {
    w.belts
        .iter()
        .map(|b| b.as_ref().map_or(0, |belt| belt.len() as u64))
        .sum()
}

fn conservation_holds(w: &World) -> bool {
    w.created == w.consumed + w.despawned + tokens_on_belts(w)
}

#[test]
fn straight_handoff_applies_zero_offset_and_keeps_spacing() {
    let mut w = World::new();
    // The downstream segment first, so the transport pass reaches it before
    // the source and its progress is observable right after the hand-off.
    build(&mut w, BuildingType::Belt, MapDirection::Right, at(6, 5));
    build(&mut w, BuildingType::Belt, MapDirection::Right, at(5, 5));
    let downstream = belt_at(&w, at(6, 5));
    let source = belt_at(&w, at(5, 5));

    // A capacity-3 segment holding tokens at progress 0.8, 0.4, 0.0.
    {
        let b = w.belts[source].as_mut().unwrap();
        assert!(b.place(240, coal(1)));
        assert!(b.place(120, coal(2)));
        assert!(b.place(0, coal(3)));
    }
    w.created = 3;
    assert!(conservation_holds(&w));

    // Advance by 0.5 of a segment.
    w.move_items_on_belts(150);

    // The front token crossed onto the straight downstream segment with a
    // zero entry offset: 0.8 + 0.5 - 1.0 = 0.3 of a segment.
    let d = w.belts[downstream].as_ref().unwrap();
    assert_eq!(d.len(), 1);
    assert_eq!(d.get(0), (1, 0, 90));

    // The two remaining tokens advanced and kept at least 1/3 spacing.
    let s = w.belts[source].as_ref().unwrap();
    assert_eq!(s.len(), 2);
    let front = s.get(0);
    let back = s.get(1);
    assert_eq!(front, (2, 0, 270));
    assert_eq!(back, (3, 0, 150));
    assert!(back.2 + 100 <= front.2);
    assert!(front.2 <= PROGRESS_SCALE);
    assert!(conservation_holds(&w));
}

#[test]
fn perpendicular_handoff_applies_half_offset() {
    let mut w = World::new();
    // A rightward belt feeding a downward one: a turn.
    build(&mut w, BuildingType::Belt, MapDirection::Down, at(6, 5));
    build(&mut w, BuildingType::Belt, MapDirection::Right, at(5, 5));
    let downstream = belt_at(&w, at(6, 5));
    let source = belt_at(&w, at(5, 5));
    {
        let b = w.belts[source].as_mut().unwrap();
        assert!(b.place(240, coal(1)));
    }
    w.created = 1;

    w.move_items_on_belts(150);

    // 0.8 + 0.5 - 1.0 + the 0.5 turn offset = 0.8 of a segment.
    let d = w.belts[downstream].as_ref().unwrap();
    assert_eq!(d.len(), 1);
    assert_eq!(d.get(0), (1, 0, 240));
    assert_eq!(w.belts[source].as_ref().unwrap().len(), 0);
    assert!(conservation_holds(&w));
}

#[test]
fn reversed_segments_never_exchange_tokens() {
    let mut w = World::new();
    // Two belts facing each other: a U-turn, permanently blocked.
    build(&mut w, BuildingType::Belt, MapDirection::Left, at(6, 5));
    build(&mut w, BuildingType::Belt, MapDirection::Right, at(5, 5));
    let source = belt_at(&w, at(5, 5));
    let facing = belt_at(&w, at(6, 5));
    {
        let b = w.belts[source].as_mut().unwrap();
        assert!(b.place(240, coal(1)));
    }
    w.created = 1;

    for _ in 0..5 {
        w.move_items_on_belts(150);
    }
    // The token stalls at the exit of its own segment.
    let s = w.belts[source].as_ref().unwrap();
    assert_eq!(s.len(), 1);
    assert_eq!(s.get(0).2, PROGRESS_SCALE);
    assert_eq!(w.belts[facing].as_ref().unwrap().len(), 0);
    assert!(conservation_holds(&w));
}

#[test]
fn miner_emits_one_token_per_period() {
    let mut w = World::new();
    // An empty belt adjacent to the mine's output tile.
    build(&mut w, BuildingType::Belt, MapDirection::Left, at(4, 5));
    build(&mut w, BuildingType::Mine, MapDirection::Up, at(5, 5));
    let belt = belt_at(&w, at(4, 5));

    // After exactly one elapsed period: exactly one token, at 0.33.
    w.mine_produce(300);
    assert_eq!(w.created, 1);
    let b = w.belts[belt].as_ref().unwrap();
    assert_eq!(b.len(), 1);
    assert_eq!(b.get(0), (0, 0, MINE_OUTPUT_PROGRESS));
    assert!(conservation_holds(&w));

    // Less than a further period: nothing more.
    w.mine_produce(299);
    assert_eq!(w.created, 1);
}

#[test]
fn miner_with_full_belt_creates_nothing_and_still_resets() {
    let mut w = World::new();
    build(&mut w, BuildingType::Belt, MapDirection::Left, at(4, 5));
    build(&mut w, BuildingType::Mine, MapDirection::Up, at(5, 5));
    let belt = belt_at(&w, at(4, 5));
    {
        let b = w.belts[belt].as_mut().unwrap();
        assert!(b.place(240, coal(100)));
        assert!(b.place(120, coal(101)));
        assert!(b.place(0, coal(102)));
    }
    w.created = 3;
    w.next_token = 103;

    // The timer fires, every candidate is full, no token is created.
    w.mine_produce(300);
    assert_eq!(w.created, 3);
    assert_eq!(w.belts[belt].as_ref().unwrap().len(), 3);

    // No backlog accumulated: the timer reset, so the next full period
    // fires exactly once more (and again finds the belt full).
    w.mine_produce(299);
    assert_eq!(w.created, 3);
    w.mine_produce(1);
    assert_eq!(w.created, 3);
    assert!(conservation_holds(&w));
}

#[test]
fn stalled_front_drains_into_chest() {
    let mut w = World::new();
    build(&mut w, BuildingType::Belt, MapDirection::Right, at(5, 5));
    build(&mut w, BuildingType::Chest, MapDirection::Up, at(6, 5));
    let belt = belt_at(&w, at(5, 5));
    {
        let b = w.belts[belt].as_mut().unwrap();
        assert!(b.place(200, coal(1)));
    }
    w.created = 1;

    // Not yet at the exit: nothing is consumed.
    w.input_from_belts();
    assert_eq!(w.consumed, 0);

    // Push the token to the exit (the chest tile is not a belt, so the
    // hand-off fails and the front clamps at the exit, visibly stalled).
    w.move_items_on_belts(150);
    assert_eq!(w.belts[belt].as_ref().unwrap().get(0).2, PROGRESS_SCALE);

    // The drain pass consumes it into the chest's inventory.
    w.input_from_belts();
    assert_eq!(w.consumed, 1);
    assert_eq!(w.belts[belt].as_ref().unwrap().len(), 0);
    let inv_idx = w
        .grid
        .iter()
        .find(|e| e.pos == at(6, 5))
        .and_then(|e| e.belt_input)
        .unwrap()
        .inventory;
    let inv = w.inventories[inv_idx].as_ref().unwrap();
    assert_eq!(inv.slot(0), Some((0, 1)));
    assert!(conservation_holds(&w));
}

#[test]
fn conservation_on_straight_run_with_sink() {
    let mut w = World::new();
    // mine at (5,5) emits onto (4,5); belts carry tokens down to the chest.
    build(&mut w, BuildingType::Belt, MapDirection::Down, at(4, 5));
    build(&mut w, BuildingType::Belt, MapDirection::Down, at(4, 4));
    build(&mut w, BuildingType::Chest, MapDirection::Up, at(4, 3));
    build(&mut w, BuildingType::Mine, MapDirection::Up, at(5, 5));

    for _ in 0..40 {
        w.tick(150);
        // No loss, no duplication, at every tick.
        assert!(conservation_holds(&w));
        assert_eq!(w.despawned, 0);
    }
    // The one-slot chest accepts a full stack of five and then stalls the
    // line; everything created was consumed or is still in flight.
    assert_eq!(w.consumed, 5);
    assert!(w.created >= 5);
    assert_eq!(w.created, w.consumed + tokens_on_belts(&w));
}

#[test]
fn demolishing_a_belt_despawns_its_tokens() {
    let mut w = World::new();
    build(&mut w, BuildingType::Belt, MapDirection::Right, at(5, 5));
    let belt = belt_at(&w, at(5, 5));
    {
        let b = w.belts[belt].as_mut().unwrap();
        assert!(b.place(200, coal(1)));
    }
    w.created = 1;
    assert!(conservation_holds(&w));

    // The documented disposal policy: tokens riding a demolished segment
    // are despawned, and stay accounted for.
    w.demolish_building(DemolishEvent { tile_pos: at(5, 5) });
    assert_eq!(w.despawned, 1);
    assert_eq!(tokens_on_belts(&w), 0);
    assert!(w.grid.iter().all(|e| e.pos != at(5, 5)));
    assert!(conservation_holds(&w));
}

#[test]
fn demolishing_a_mine_removes_all_its_tiles() {
    let mut w = World::new();
    build(&mut w, BuildingType::Mine, MapDirection::Up, at(5, 5));
    assert_eq!(w.grid.len(), 4);
    // Demolishing any covered tile takes the whole building down.
    w.demolish_building(DemolishEvent { tile_pos: at(6, 6) });
    assert_eq!(w.grid.len(), 0);
    assert!(w.miners.iter().all(|m| m.is_none()));
    // Demolishing an empty cell is a no-op.
    w.demolish_building(DemolishEvent { tile_pos: at(5, 5) });
    assert_eq!(w.grid.len(), 0);
}

#[test]
fn placement_rejected_on_overlap_and_out_of_bounds() {
    let mut w = World::new();
    build(&mut w, BuildingType::Belt, MapDirection::Up, at(5, 5));
    let template = BuildingTemplate::standard(BuildingType::Mine);
    // The 2x2 mine would cover the occupied cell.
    let overlapping = BuildRequestedEvent {
        building_type: BuildingType::Mine,
        direction: MapDirection::Up,
        tile_pos: at(4, 4),
    };
    assert_eq!(w.build_building(&overlapping, &template), Err(PlacementRejected));
    // The 2x2 mine would hang off the 64x64 grid.
    let out_of_bounds = BuildRequestedEvent {
        building_type: BuildingType::Mine,
        direction: MapDirection::Up,
        tile_pos: at(63, 63),
    };
    assert_eq!(w.build_building(&out_of_bounds, &template), Err(PlacementRejected));
    // Nothing was mutated by the rejections.
    assert_eq!(w.grid.len(), 1);
    assert_eq!(w.buildings.len(), 1);
}

#[test]
fn build_belt_drag_orients_the_previous_segment() {
    let mut w = World::new();
    let last = w.build_belt(at(2, 2), None);
    assert_eq!(last, Some(at(2, 2)));
    // Laying onto the same cell again changes nothing.
    let again = w.build_belt(at(2, 2), last);
    assert_eq!(again, Some(at(2, 2)));
    assert_eq!(w.grid.len(), 1);

    let last = w.build_belt(at(3, 2), last);
    assert_eq!(last, Some(at(3, 2)));
    let first = w.grid.iter().find(|e| e.pos == at(2, 2)).unwrap();
    let second = w.grid.iter().find(|e| e.pos == at(3, 2)).unwrap();
    // The dragged-from tile was re-oriented to feed the new one, which
    // continues in the drag direction.
    assert_eq!(first.tile, BuildingTileType::BeltRight);
    assert_eq!(second.tile, BuildingTileType::BeltRight);
}

#[test]
fn clear_buildings_despawns_everything() {
    let mut w = World::new();
    build(&mut w, BuildingType::Belt, MapDirection::Right, at(5, 5));
    let belt = belt_at(&w, at(5, 5));
    {
        let b = w.belts[belt].as_mut().unwrap();
        assert!(b.place(200, coal(1)));
        assert!(b.place(50, coal(2)));
    }
    w.created = 2;
    w.clear_buildings();
    assert_eq!(w.grid.len(), 0);
    assert_eq!(w.belts.len(), 0);
    assert_eq!(w.despawned, 2);
    assert!(conservation_holds(&w));
}

#[test]
fn template_check_refuses_duplicate_offsets() {
    let dup: Vec<FootprintTile> = vec![
        (at(0, 0), BuildingTileType::Chest),
        (at(0, 0), BuildingTileType::Chest),
    ];
    let ok: Vec<FootprintTile> = vec![(at(0, 0), BuildingTileType::Chest)];
    let t = BuildingTemplate {
        building_type: BuildingType::Chest,
        instructions: Directional {
            up: dup,
            down: ok.clone(),
            left: ok.clone(),
            right: ok,
        },
    };
    assert!(!t.check());
    assert!(BuildingTemplate::standard(BuildingType::Mine).check());
}
