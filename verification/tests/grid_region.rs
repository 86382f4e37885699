use dungeon_gen::Grid;
use dungeon_gen::MapTheme;
use dungeon_gen::Point;
use dungeon_gen::Region;
use dungeon_gen::RandomSource;
use dungeon_gen::ThemeKind;
use dungeon_gen::TileType;
use dungeon_gen::themes::DungeonTheme;
use dungeon_gen::themes::ForestTheme;

#[test]
fn fill_then_read_returns_kind_everywhere() {
    let mut g = Grid::new(17, 9);
    g.fill(TileType::Floor);
    for y in 0..9 {
        for x in 0..17 {
            assert_eq!(g.get(Point::new(x, y)), Some(TileType::Floor));
        }
    }
    g.fill(TileType::Wall);
    for y in 0..9 {
        for x in 0..17 {
            assert_eq!(g.get(Point::new(x, y)), Some(TileType::Wall));
        }
    }
}

#[test]
fn grid_new_starts_all_wall() {
    let g = Grid::new(4, 4);
    for y in 0..4 {
        for x in 0..4 {
            assert_eq!(g.get(Point::new(x, y)), Some(TileType::Wall));
        }
    }
}

#[test]
fn out_of_range_reads_and_writes_are_refused() {
    let mut g = Grid::new(10, 10);
    assert_eq!(g.try_idx(Point::new(-1, 0)), None);
    assert_eq!(g.try_idx(Point::new(0, 10)), None);
    assert_eq!(g.try_idx(Point::new(10, 0)), None);
    assert_eq!(g.get(Point::new(3, -2)), None);
    g.set(Point::new(42, 7), TileType::Floor);
    for y in 0..10 {
        for x in 0..10 {
            assert_eq!(g.get(Point::new(x, y)), Some(TileType::Wall));
        }
    }
}

#[test]
fn index_conversion_round_trips() {
    let g = Grid::new(80, 50);
    assert_eq!(g.try_idx(Point::new(0, 0)), Some(0));
    assert_eq!(g.try_idx(Point::new(79, 49)), Some(3999));
    let p = g.point_of(3999);
    assert_eq!(p, Point::new(79, 49));
    let q = g.point_of(80);
    assert_eq!(q, Point::new(0, 1));
}

#[test]
fn region_with_size_and_center() {
    let r = Region::with_size(3, 4, 5, 2);
    assert_eq!(r.x1, 3);
    assert_eq!(r.y1, 4);
    assert_eq!(r.x2, 7);
    assert_eq!(r.y2, 5);
    assert_eq!(r.center(), Point::new(5, 4));
}

#[test]
fn region_overlap_is_closed_interval_and_symmetric() {
    let a = Region::with_size(1, 1, 4, 4);
    let b = Region::with_size(4, 4, 3, 3);
    let c = Region::with_size(6, 6, 2, 2);
    assert!(a.intersect(&b));
    assert!(b.intersect(&a));
    assert!(!a.intersect(&c));
    assert!(!c.intersect(&a));
    assert!(b.intersect(&c));
}

#[test]
fn region_points_enumerates_exactly_the_contained_cells() {
    let r = Region::with_size(2, 3, 3, 2);
    let pts = r.points();
    assert_eq!(pts.len(), 6);
    for x in 2..5 {
        for y in 3..5 {
            assert!(pts.contains(&Point::new(x, y)));
        }
    }
    assert!(!pts.contains(&Point::new(1, 3)));
    assert!(!pts.contains(&Point::new(2, 5)));
}

#[test]
fn theme_glyph_lookup_is_fixed_per_theme() {
    assert_eq!(ThemeKind::Dungeon.tile_to_render(TileType::Floor), 46);
    assert_eq!(ThemeKind::Dungeon.tile_to_render(TileType::Wall), 35);
    assert_eq!(ThemeKind::Dungeon.tile_to_render(TileType::Exit), 62);
    assert_eq!(ThemeKind::Forest.tile_to_render(TileType::Floor), 59);
    assert_eq!(ThemeKind::Forest.tile_to_render(TileType::Wall), 34);
    assert_eq!(ThemeKind::Forest.tile_to_render(TileType::Exit), 62);
    let d = DungeonTheme {};
    let f = ForestTheme {};
    assert_eq!(d.tile_to_render(TileType::Floor), 46);
    assert_eq!(f.tile_to_render(TileType::Wall), 34);
}

#[test]
fn random_source_draws_stay_in_range() {
    let mut rng = RandomSource::new(7);
    for _ in 0..200 {
        let v = rng.range(3, 11);
        assert!(3 <= v && v < 11);
        let i = rng.random_index(5);
        assert!(i < 5);
    }
}

#[test]
fn random_source_is_seed_deterministic() {
    let mut a = RandomSource::new(987654321);
    let mut b = RandomSource::new(987654321);
    for _ in 0..100 {
        assert_eq!(a.range(0, 1000), b.range(0, 1000));
        assert_eq!(a.random_index(17), b.random_index(17));
        assert_eq!(a.state, b.state);
    }
}
