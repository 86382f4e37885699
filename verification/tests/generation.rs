use dungeon_gen::automata::closest_floor_to;
use dungeon_gen::automata::CellularAutomataArchitect;
use dungeon_gen::drunkard::DrunkardsWalkArchitect;
use dungeon_gen::builder::first_floor_index;
use dungeon_gen::builder::NUM_MONSTERS;
use dungeon_gen::dijkstra::distance_field;
use dungeon_gen::dijkstra::UNREACHABLE;
use dungeon_gen::empty::EmptyArchitect;
use dungeon_gen::prefab::apply_prefab;
use dungeon_gen::rooms::NUM_ROOMS;
use dungeon_gen::GenError;
use dungeon_gen::Grid;
use dungeon_gen::MapBuilder;
use dungeon_gen::Point;
use dungeon_gen::RandomSource;
use dungeon_gen::RoomsArchitect;
use dungeon_gen::ThemeKind;
use dungeon_gen::TileType;

fn dist2(a: Point, b: Point) -> i64 {
    let dx = a.x as i64 - b.x as i64;
    let dy = a.y as i64 - b.y as i64;
    dx * dx + dy * dy
}

#[test]
fn rooms_scenario_80x50_yields_twenty_connected_rooms() {
    let mut rng = RandomSource::new(1);
    let mb = RoomsArchitect {}.new(80, 50, &mut rng).unwrap();
    assert_eq!(mb.rooms.len(), NUM_ROOMS);
    for i in 0..mb.rooms.len() {
        let r = mb.rooms[i];
        assert!(r.x1 >= 1 && r.x2 < 80 && r.y1 >= 1 && r.y2 < 50);
        for j in 0..mb.rooms.len() {
            if i != j {
                assert!(!r.intersect(&mb.rooms[j]));
            }
        }
    }
    assert_eq!(mb.player_start, mb.rooms[0].center());
    // corridors join every room into one component: every room center is
    // reachable from the player start
    let s = mb.map.try_idx(mb.player_start).unwrap();
    let dist = distance_field(&mb.map, s);
    for r in &mb.rooms {
        let c = mb.map.try_idx(r.center()).unwrap();
        assert!(dist[c] != UNREACHABLE);
    }
    // the anchors recorded for spawning are the later rooms' centers
    assert_eq!(mb.monster_spawns.len(), NUM_ROOMS - 1);
    for k in 0..mb.monster_spawns.len() {
        assert_eq!(mb.monster_spawns[k], mb.rooms[k + 1].center());
    }
}

#[test]
fn rooms_on_a_cramped_grid_report_placement_failure() {
    let mut rng = RandomSource::new(5);
    let r = RoomsArchitect {}.new(12, 12, &mut rng);
    assert_eq!(r.err(), Some(GenError::RoomPlacement));
}

#[test]
fn spawn_sampling_caps_at_the_candidate_pool() {
    // a 21x1 all-floor strip from (0,0): exactly the 10 cells with
    // x >= 11 lie strictly farther than 10 units from the start
    let mut g = Grid::new(21, 1);
    g.fill(TileType::Floor);
    let mb = MapBuilder {
        map: g,
        rooms: Vec::new(),
        monster_spawns: Vec::new(),
        player_start: Point::new(0, 0),
        amulet_start: Point::new(0, 0),
        theme: ThemeKind::Dungeon,
    };
    let mut rng = RandomSource::new(99);
    let spawns = mb.spawn_monsters(&Point::new(0, 0), &mut rng);
    assert_eq!(spawns.len(), 10);
    for i in 0..spawns.len() {
        assert!(spawns[i].x >= 11);
        for j in 0..spawns.len() {
            if i != j {
                assert_ne!(spawns[i], spawns[j]);
            }
        }
    }
    assert!(!spawns.contains(&Point::new(10, 0)));
}

#[test]
fn generated_level_satisfies_the_core_invariants() {
    let mut rng = RandomSource::new(2024);
    let mb = MapBuilder::new(80, 50, &mut rng).unwrap();
    // player start addresses a Floor tile after overlay reconciliation
    assert_eq!(mb.map.get(mb.player_start), Some(TileType::Floor));
    // the goal is reachable and no reachable cell lies farther; ties go
    // to the lowest index
    let s = mb.map.try_idx(mb.player_start).unwrap();
    let a = mb.map.try_idx(mb.amulet_start).unwrap();
    let dist = distance_field(&mb.map, s);
    assert!(dist[a] != UNREACHABLE);
    for i in 0..dist.len() {
        if dist[i] != UNREACHABLE {
            assert!(dist[i] < dist[a] || (dist[i] == dist[a] && a <= i));
        }
    }
    // spawns: Floor tiles, strictly beyond the threshold, no duplicates,
    // within the requested count
    assert!(mb.monster_spawns.len() <= NUM_MONSTERS);
    for i in 0..mb.monster_spawns.len() {
        let p = mb.monster_spawns[i];
        assert_eq!(mb.map.get(p), Some(TileType::Floor));
        assert!(dist2(p, mb.player_start) > 100);
        for j in 0..mb.monster_spawns.len() {
            if i != j {
                assert_ne!(p, mb.monster_spawns[j]);
            }
        }
    }
    // rooms, when present, are pairwise disjoint and inside the grid
    for i in 0..mb.rooms.len() {
        let r = mb.rooms[i];
        assert!(r.x1 >= 0 && r.x2 < 80 && r.y1 >= 0 && r.y2 < 50);
        for j in 0..mb.rooms.len() {
            if i != j {
                assert!(!r.intersect(&mb.rooms[j]));
            }
        }
    }
}

#[test]
fn generation_is_bit_identical_under_one_seed() {
    let mut rng1 = RandomSource::new(31337);
    let mut rng2 = RandomSource::new(31337);
    let a = MapBuilder::new(80, 50, &mut rng1).unwrap();
    let b = MapBuilder::new(80, 50, &mut rng2).unwrap();
    assert_eq!(a.map.width, b.map.width);
    assert_eq!(a.map.height, b.map.height);
    assert_eq!(a.map.tiles, b.map.tiles);
    assert_eq!(a.rooms, b.rooms);
    assert_eq!(a.monster_spawns, b.monster_spawns);
    assert_eq!(a.player_start, b.player_start);
    assert_eq!(a.amulet_start, b.amulet_start);
    assert_eq!(a.theme, b.theme);
    assert_eq!(rng1.state, rng2.state);
}

#[test]
fn empty_architect_fills_floor_and_centers_the_player() {
    let mb = EmptyArchitect {}.new(30, 20);
    assert_eq!(mb.player_start, Point::new(15, 10));
    for y in 0..20 {
        for x in 0..30 {
            assert_eq!(mb.map.get(Point::new(x, y)), Some(TileType::Floor));
        }
    }
    assert!(mb.rooms.is_empty());
    assert!(mb.monster_spawns.is_empty());
}

#[test]
fn prefab_overlay_keeps_the_start_on_floor_and_drops_buried_anchors() {
    let mut mb = EmptyArchitect {}.new(40, 30);
    // scatter anchors over the whole grid; some will be buried under the
    // stamped pattern's walls
    for y in 0..30 {
        for x in 0..40 {
            if (x + y) % 7 == 0 {
                mb.monster_spawns.push(Point::new(x, y));
            }
        }
    }
    let before = mb.monster_spawns.clone();
    let mut rng = RandomSource::new(8);
    apply_prefab(&mut mb, &mut rng);
    assert_eq!(mb.map.get(mb.player_start), Some(TileType::Floor));
    for p in &mb.monster_spawns {
        assert_eq!(mb.map.get(*p), Some(TileType::Floor));
        assert!(before.contains(p));
    }
    // every anchor still on floor survived
    for p in &before {
        if mb.map.get(*p) == Some(TileType::Floor) {
            assert!(mb.monster_spawns.contains(p));
        }
    }
}

#[test]
fn drunkard_architect_carves_one_region_around_the_player() {
    let mut rng = RandomSource::new(77);
    let mb = DrunkardsWalkArchitect {}.new(60, 40, &mut rng);
    assert_eq!(mb.player_start, Point::new(30, 20));
    assert_eq!(mb.map.get(mb.player_start), Some(TileType::Floor));
    assert!(mb.rooms.is_empty());
    assert!(mb.monster_spawns.is_empty());
    // every carved Floor cell is reachable from the player start
    let s = mb.map.try_idx(mb.player_start).unwrap();
    let dist = distance_field(&mb.map, s);
    for y in 0..40 {
        for x in 0..60 {
            let p = Point::new(x, y);
            if mb.map.get(p) == Some(TileType::Floor) {
                let i = mb.map.try_idx(p).unwrap();
                assert!(dist[i] != UNREACHABLE);
            }
        }
    }
}

#[test]
fn automata_architect_picks_the_floor_cell_nearest_the_center() {
    let mut rng = RandomSource::new(4242);
    let mb = CellularAutomataArchitect {}.new(60, 40, &mut rng).unwrap();
    assert_eq!(mb.map.get(mb.player_start), Some(TileType::Floor));
    let start_d = dist2(mb.player_start, Point::new(30, 20));
    for y in 0..40 {
        for x in 0..60 {
            let p = Point::new(x, y);
            if mb.map.get(p) == Some(TileType::Floor) {
                assert!(dist2(p, Point::new(30, 20)) >= start_d);
            }
        }
    }
}

#[test]
fn no_floor_grid_reports_the_no_floor_failure() {
    let g = Grid::new(6, 6);
    assert_eq!(first_floor_index(&g).err(), Some(GenError::NoFloor));
    assert_eq!(
        closest_floor_to(&g, Point::new(3, 3)).err(),
        Some(GenError::NoFloor)
    );
}

#[test]
fn first_floor_index_finds_the_lowest_floor_cell() {
    let mut g = Grid::new(6, 6);
    g.set(Point::new(4, 2), TileType::Floor);
    g.set(Point::new(1, 3), TileType::Floor);
    assert_eq!(first_floor_index(&g), Ok(2 * 6 + 4));
    assert_eq!(
        closest_floor_to(&g, Point::new(1, 3)),
        Ok(Point::new(1, 3))
    );
}

#[test]
fn corridor_carving_skips_out_of_range_cells() {
    let g = Grid::new(20, 20);
    let mut mb = MapBuilder {
        map: g,
        rooms: Vec::new(),
        monster_spawns: Vec::new(),
        player_start: Point::new(0, 0),
        amulet_start: Point::new(0, 0),
        theme: ThemeKind::Dungeon,
    };
    let arch = RoomsArchitect {};
    arch.apply_horizontal_tunnel(&mut mb, 15, 25, 5);
    for x in 15..20 {
        assert_eq!(mb.map.get(Point::new(x, 5)), Some(TileType::Floor));
    }
    arch.apply_vertical_tunnel(&mut mb, -4, 3, 2);
    for y in 0..4 {
        assert_eq!(mb.map.get(Point::new(2, y)), Some(TileType::Floor));
    }
    assert_eq!(mb.map.get(Point::new(0, 0)), Some(TileType::Wall));
}
