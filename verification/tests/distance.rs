use dungeon_gen::dijkstra::distance_field;
use dungeon_gen::dijkstra::farthest_index;
use dungeon_gen::dijkstra::UNREACHABLE;
use dungeon_gen::Grid;
use dungeon_gen::Point;
use dungeon_gen::TileType;

#[test]
fn all_floor_grid_farthest_from_origin_is_opposite_corner() {
    let mut g = Grid::new(80, 50);
    g.fill(TileType::Floor);
    let dist = distance_field(&g, 0);
    let far = farthest_index(&dist);
    assert_eq!(far, 49 * 80 + 79);
    // four-way connectivity: the corner sits at Manhattan distance
    assert_eq!(dist[far], 79 + 49);
    for i in 0..dist.len() {
        assert!(dist[i] != UNREACHABLE);
        assert!(dist[i] <= dist[far]);
    }
}

#[test]
fn walled_off_cells_keep_the_sentinel() {
    // a 5x3 strip: floors on row 0 columns 0..=1, wall at column 2,
    // floors beyond it are cut off
    let mut g = Grid::new(5, 1);
    g.fill(TileType::Floor);
    g.set(Point::new(2, 0), TileType::Wall);
    let dist = distance_field(&g, 0);
    assert_eq!(dist[0], 0);
    assert_eq!(dist[1], 1);
    assert_eq!(dist[2], UNREACHABLE);
    assert_eq!(dist[3], UNREACHABLE);
    assert_eq!(dist[4], UNREACHABLE);
}

#[test]
fn distances_follow_shortest_steps_around_an_obstacle() {
    // 3x3 with a wall in the middle: the opposite corner is 4 steps away
    let mut g = Grid::new(3, 3);
    g.fill(TileType::Floor);
    g.set(Point::new(1, 1), TileType::Wall);
    let dist = distance_field(&g, 0);
    let corner = g.try_idx(Point::new(2, 2)).unwrap();
    assert_eq!(dist[corner], 4);
    let center = g.try_idx(Point::new(1, 1)).unwrap();
    assert_eq!(dist[center], UNREACHABLE);
}

#[test]
fn farthest_index_breaks_ties_by_lowest_index() {
    // a symmetric 3x1 corridor from the middle: both ends at distance 1
    let mut g = Grid::new(3, 1);
    g.fill(TileType::Floor);
    let dist = distance_field(&g, 1);
    assert_eq!(dist[0], 1);
    assert_eq!(dist[2], 1);
    assert_eq!(farthest_index(&dist), 0);
}

#[test]
fn isolated_start_degenerates_to_itself() {
    let g = Grid::new(6, 6);
    // all wall: nothing but the start is reachable
    let dist = distance_field(&g, 14);
    assert_eq!(dist[14], 0);
    for i in 0..dist.len() {
        if i != 14 {
            assert_eq!(dist[i], UNREACHABLE);
        }
    }
    assert_eq!(farthest_index(&dist), 14);
}
