use vstd::prelude::*;

use crate::builder::idx_of;
use crate::builder::MapBuilder;
use crate::dijkstra::adjacent;
use crate::dijkstra::is_floor;
use crate::dijkstra::lemma_coords_of_idx;
use crate::dijkstra::lemma_reachable_monotone;
use crate::dijkstra::lemma_step;
use crate::dijkstra::reachable;
use crate::dijkstra::reachable_in;
use crate::grid::Grid;
use crate::grid::Point;
use crate::grid::TileType;
use crate::rng::RandomSource;
use crate::themes::ThemeKind;

verus! {

broadcast use vstd::seq_lib::lemma_seq_contains_after_push;

/// Ceiling on the number of walkers spawned in one run.
pub const MAX_WALKERS: usize = 256;

/// Ceiling on the number of steps a single walker takes.
pub const WALKER_STEPS: usize = 256;

/// Every Floor cell of the grid is reachable from `s`: the carved area
/// is one connected region around the source.
pub open spec fn all_floor_reachable(g: Grid, s: int) -> bool {
    forall|c: int| is_floor(g, c) ==> #[trigger] reachable(g, s, c)
}

/// The drunkard's-walk architect: random walkers carve Floor one cell at
/// a time until a target fraction of the grid is open or the walker
/// budget is exhausted.
pub struct DrunkardsWalkArchitect {}

/// The indices of every Floor cell, in ascending order.
fn floor_cells(g: &Grid) -> (v: Vec<usize>)
    requires
        g.wf(),
    ensures
        v@.len() <= g.tiles@.len(),
        forall|k: int| 0 <= k < v@.len() ==> (#[trigger] v@[k]) < g.tiles@.len()
            && g.tile_at(v@[k] as int) == TileType::Floor,
        forall|j: int| 0 <= j < g.tiles@.len() && g.tile_at(j) == TileType::Floor
            ==> v@.contains(j as usize),
{
    let n: usize = g.tiles.len();
    let mut v: Vec<usize> = Vec::new();
    let mut i: usize = 0;
    while i < n
        invariant
            g.wf(),
            g.tiles@.len() == n,
            i <= n,
            v@.len() <= i,
            forall|k: int| 0 <= k < v@.len() ==> (#[trigger] v@[k]) < n
                && g.tile_at(v@[k] as int) == TileType::Floor,
            forall|j: int| 0 <= j < i && g.tile_at(j) == TileType::Floor
                ==> v@.contains(j as usize),
        decreases n - i,
    {
        if g.tiles[i] == TileType::Floor {
            let ghost before = v@;
            v.push(i);
            proof {
                assert(v@ == before.push(i));
            }
        }
        i = i + 1;
    }
    v
}

impl DrunkardsWalkArchitect {
    /// Run the architect. The player start is the initial walker's
    /// starting point, the grid center, and is always carved first;
    /// later walkers start from already-carved Floor cells, so the whole
    /// carved area stays one region reachable from the player start.
    pub fn new(&self, width: usize, height: usize, rng: &mut RandomSource) -> (mb: MapBuilder)
        requires
            1 <= width <= 0x8000,
            1 <= height <= 0x8000,
        ensures
            mb.map.wf(),
            mb.map.width == width,
            mb.map.height == height,
            mb.wf(),
            mb.start_on_floor(),
            mb.player_start == (Point { x: (width / 2) as i32, y: (height / 2) as i32 }),
            forall|c: int| is_floor(mb.map, c)
                ==> #[trigger] reachable(mb.map, idx_of(mb.map, mb.player_start), c),
            mb.amulet_start == mb.player_start,
            mb.rooms@.len() == 0,
            mb.monster_spawns@.len() == 0,
    {
        let mut mb = MapBuilder {
            map: Grid::new(width, height),
            rooms: Vec::new(),
            monster_spawns: Vec::new(),
            player_start: Point::zero(),
            amulet_start: Point::zero(),
            theme: ThemeKind::Dungeon,
        };
        mb.fill(TileType::Wall);
        let center = Point::new((width / 2) as i32, (height / 2) as i32);
        mb.player_start = center;
        mb.amulet_start = center;
        proof {
            mb.map.lemma_idx_in_range(center.x as int, center.y as int);
            mb.map.lemma_len_bound();
        }
        let ghost start_idx = mb.map.spec_idx(center.x as int, center.y as int);
        let ghost g_wall = mb.map;
        mb.map.set(center, TileType::Floor);
        proof {
            assert(reachable_in(mb.map, start_idx, start_idx, 0));
            assert forall|c: int| is_floor(mb.map, c)
                implies #[trigger] reachable(mb.map, start_idx, c) by {
                if c != start_idx {
                    assert(mb.map.tiles@[c] == g_wall.tiles@[c]);
                    assert(g_wall.tile_at(c) == TileType::Wall);
                }
            }
        }
        let n: usize = mb.map.tiles.len();
        let target: usize = n / 3;
        let mut floor_count: usize = 1;
        let mut wi: usize = 0;
        while wi < MAX_WALKERS
            invariant
                mb.map.wf(),
                mb.map.width == width,
                mb.map.height == height,
                mb.map.tiles@.len() == n,
                target <= n <= 0x4000_0000,
                floor_count <= n,
                center.x == width / 2,
                center.y == height / 2,
                start_idx == mb.map.spec_idx(center.x as int, center.y as int),
                0 <= start_idx < n,
                mb.map.tile_at(start_idx) == TileType::Floor,
                all_floor_reachable(mb.map, start_idx),
                mb.rooms@.len() == 0,
                mb.monster_spawns@.len() == 0,
                mb.player_start == center,
                mb.amulet_start == center,
            decreases MAX_WALKERS - wi,
        {
            if floor_count >= target {
                break;
            }
            let mut pos = if wi == 0 {
                center
            } else {
                // later walkers start from a randomly chosen Floor cell
                let floors = floor_cells(&mb.map);
                proof {
                    assert(floors@.contains(start_idx as usize));
                    assert(floors@.len() >= 1);
                }
                let fi = rng.random_index(floors.len());
                let cell = floors[fi];
                mb.map.point_of(cell)
            };
            proof {
                assert(is_floor(mb.map, mb.map.spec_idx(pos.x as int, pos.y as int)));
            }
            let mut st: usize = 0;
            while st < WALKER_STEPS
                invariant
                    mb.map.wf(),
                    mb.map.width == width,
                    mb.map.height == height,
                    mb.map.tiles@.len() == n,
                    target <= n <= 0x4000_0000,
                    floor_count <= n,
                    mb.map.spec_in_bounds(pos.x as int, pos.y as int),
                    start_idx == mb.map.spec_idx(center.x as int, center.y as int),
                    0 <= start_idx < n,
                    mb.map.tile_at(start_idx) == TileType::Floor,
                    all_floor_reachable(mb.map, start_idx),
                    ({
                        let pi = mb.map.spec_idx(pos.x as int, pos.y as int);
                        is_floor(mb.map, pi) || (exists|a: int|
                            #[trigger] adjacent(mb.map, a, pi) && is_floor(mb.map, a))
                    }),
                    mb.rooms@.len() == 0,
                    mb.monster_spawns@.len() == 0,
                    mb.player_start == center,
                    mb.amulet_start == center,
                decreases WALKER_STEPS - st,
            {
                let here = mb.map.get(pos).unwrap();
                if here != TileType::Floor {
                    let ghost gb = mb.map;
                    mb.map.set(pos, TileType::Floor);
                    proof {
                        gb.lemma_idx_in_range(pos.x as int, pos.y as int);
                        let pi = gb.spec_idx(pos.x as int, pos.y as int);
                        assert forall|i: int| is_floor(gb, i) implies is_floor(mb.map, i) by {}
                        assert(is_floor(mb.map, pi));
                        let a = choose|a: int|
                            #[trigger] adjacent(gb, a, pi) && is_floor(gb, a);
                        assert(reachable(gb, start_idx, a));
                        lemma_reachable_monotone(gb, mb.map, start_idx, a);
                        assert(adjacent(mb.map, a, pi));
                        lemma_step(mb.map, start_idx, a, pi);
                        assert forall|c: int| is_floor(mb.map, c)
                            implies #[trigger] reachable(mb.map, start_idx, c) by {
                            if c != pi {
                                assert(is_floor(gb, c));
                                lemma_reachable_monotone(gb, mb.map, start_idx, c);
                            }
                        }
                    }
                    if floor_count < target {
                        floor_count = floor_count + 1;
                    }
                }
                let dir = rng.range(0, 4);
                let np = if dir == 0 {
                    Point::new(pos.x - 1, pos.y)
                } else if dir == 1 {
                    Point::new(pos.x + 1, pos.y)
                } else if dir == 2 {
                    Point::new(pos.x, pos.y - 1)
                } else {
                    Point::new(pos.x, pos.y + 1)
                };
                if mb.map.in_bounds(np) {
                    proof {
                        lemma_coords_of_idx(mb.map, pos.x as int, pos.y as int);
                        lemma_coords_of_idx(mb.map, np.x as int, np.y as int);
                        let pi = mb.map.spec_idx(pos.x as int, pos.y as int);
                        let ni = mb.map.spec_idx(np.x as int, np.y as int);
                        assert(adjacent(mb.map, pi, ni));
                        assert(is_floor(mb.map, pi));
                    }
                    pos = np;
                } else {
                    break;
                }
                st = st + 1;
            }
            wi = wi + 1;
        }
        mb
    }
}

} // verus!
