use vstd::prelude::*;

use crate::builder::idx_of;
use crate::builder::point_at;
use crate::builder::GenError;
use crate::builder::MapBuilder;
use crate::dijkstra::is_floor;
use crate::grid::dist2;
use crate::grid::Grid;
use crate::grid::Point;
use crate::grid::TileType;
use crate::rng::RandomSource;
use crate::themes::ThemeKind;

verus! {

/// Number of smoothing passes run over the random seed grid.
pub const SMOOTH_ITERATIONS: usize = 10;

/// The cellular-automata architect: independent random Wall/Floor noise
/// followed by a fixed number of 8-neighborhood smoothing passes. The
/// border ring always stays Wall.
pub struct CellularAutomataArchitect {}

/// The border ring of the grid holds Wall everywhere.
pub open spec fn border_walled(g: Grid) -> bool {
    forall|x: int, y: int| g.spec_in_bounds(x, y)
        && (x == 0 || x + 1 == g.width || y == 0 || y + 1 == g.height)
        ==> #[trigger] g.tile_at(g.spec_idx(x, y)) == TileType::Wall
}

/// Count the Wall tiles among the eight neighbors of an interior cell.
fn count_wall_neighbors(g: &Grid, x: i32, y: i32) -> (cnt: u32)
    requires
        g.wf(),
        1 <= x,
        x + 1 < g.width,
        1 <= y,
        y + 1 < g.height,
{
    let mut cnt: u32 = 0;
    let mut dy: i32 = -1;
    while dy <= 1
        invariant
            g.wf(),
            1 <= x,
            x + 1 < g.width,
            1 <= y,
            y + 1 < g.height,
            -1 <= dy <= 2,
            cnt <= 3 * (dy + 1),
        decreases 2 - dy,
    {
        let mut dx: i32 = -1;
        while dx <= 1
            invariant
                g.wf(),
                1 <= x,
                x + 1 < g.width,
                1 <= y,
                y + 1 < g.height,
                -1 <= dy <= 1,
                -1 <= dx <= 2,
                cnt <= 3 * (dy + 1) + (dx + 1),
            decreases 2 - dx,
        {
            if !(dx == 0 && dy == 0) {
                let t = g.get(Point { x: x + dx, y: y + dy }).unwrap();
                if t == TileType::Wall {
                    cnt = cnt + 1;
                }
            }
            dx = dx + 1;
        }
        dy = dy + 1;
    }
    cnt
}

/// The Floor cell nearest to `target` by squared Euclidean distance, the
/// lowest cell index winning ties; `NoFloor` exactly when the grid holds
/// no Floor cell.
pub fn closest_floor_to(g: &Grid, target: Point) -> (r: Result<Point, GenError>)
    requires
        g.wf(),
        g.spec_in_bounds(target.x as int, target.y as int),
    ensures
        match r {
            Ok(p) => {
                &&& g.spec_in_bounds(p.x as int, p.y as int)
                &&& g.tile_at_point(p) == TileType::Floor
                &&& forall|j: int| is_floor(*g, j)
                    ==> dist2(#[trigger] point_at(*g, j), target) >= dist2(p, target)
                &&& forall|j: int| 0 <= j < idx_of(*g, p) && is_floor(*g, j)
                    ==> dist2(#[trigger] point_at(*g, j), target) > dist2(p, target)
            },
            Err(e) => e == GenError::NoFloor
                && forall|j: int| 0 <= j < g.tiles@.len() ==> g.tile_at(j) != TileType::Floor,
        },
{
    let n: usize = g.tiles.len();
    let mut found: bool = false;
    let mut best: Point = target;
    let mut best_d: i64 = 0;
    let mut i: usize = 0;
    while i < n
        invariant
            g.wf(),
            g.spec_in_bounds(target.x as int, target.y as int),
            g.tiles@.len() == n,
            i <= n,
            !found ==> forall|j: int| 0 <= j < i ==> g.tile_at(j) != TileType::Floor,
            found ==> g.spec_in_bounds(best.x as int, best.y as int)
                && g.tile_at_point(best) == TileType::Floor
                && idx_of(*g, best) < i
                && best_d == dist2(best, target),
            found ==> forall|j: int| 0 <= j < i && is_floor(*g, j)
                ==> dist2(#[trigger] point_at(*g, j), target) >= best_d,
            found ==> forall|j: int| 0 <= j < idx_of(*g, best) && is_floor(*g, j)
                ==> dist2(#[trigger] point_at(*g, j), target) > best_d,
        decreases n - i,
    {
        if g.tiles[i] == TileType::Floor {
            let p = g.point_of(i);
            proof {
                g.lemma_idx_decompose(i as int);
                g.lemma_idx_injective(
                    p.x as int, p.y as int,
                    crate::dijkstra::col(*g, i as int), crate::dijkstra::row(*g, i as int));
                assert(p == point_at(*g, i as int));
            }
            let dx: i64 = (p.x as i64) - (target.x as i64);
            let dy: i64 = (p.y as i64) - (target.y as i64);
            proof {
                assert(dx * dx <= 0x1_0000_0000) by (nonlinear_arith)
                    requires
                        -0x10000 <= dx <= 0x10000,
                ;
                assert(dy * dy <= 0x1_0000_0000) by (nonlinear_arith)
                    requires
                        -0x10000 <= dy <= 0x10000,
                ;
                assert(0 <= dx * dx) by (nonlinear_arith);
                assert(0 <= dy * dy) by (nonlinear_arith);
            }
            let d = dx * dx + dy * dy;
            let ghost was_found = found;
            let ghost old_best_d = best_d;
            if !found || d < best_d {
                found = true;
                best = p;
                best_d = d;
            }
            proof {
                assert(dist2(p, target) == d);
                assert forall|j: int| 0 <= j < i + 1 && is_floor(*g, j)
                    implies dist2(#[trigger] point_at(*g, j), target) >= best_d by {
                    if j < i {
                        if was_found {
                            assert(dist2(point_at(*g, j), target) >= old_best_d);
                        } else {
                            assert(g.tile_at(j) != TileType::Floor);
                        }
                    } else {
                        assert(point_at(*g, j) == p);
                    }
                }
                assert forall|j: int| 0 <= j < idx_of(*g, best) && is_floor(*g, j)
                    implies dist2(#[trigger] point_at(*g, j), target) > best_d by {
                    if was_found && !(d < old_best_d) {
                        assert(dist2(point_at(*g, j), target) > old_best_d);
                    } else {
                        assert(idx_of(*g, best) == i);
                        if was_found {
                            assert(dist2(point_at(*g, j), target) >= old_best_d);
                        } else {
                            assert(g.tile_at(j) != TileType::Floor);
                        }
                    }
                }
            }
        }
        i = i + 1;
    }
    if found {
        Ok(best)
    } else {
        Err(GenError::NoFloor)
    }
}

/// Writing an interior cell leaves every border cell as it was.
proof fn lemma_interior_set_keeps_border(older: Grid, g: Grid, x: int, y: int, t: TileType)
    requires
        older.wf(),
        g.wf(),
        g.width == older.width,
        g.height == older.height,
        1 <= x && x + 1 < older.width,
        1 <= y && y + 1 < older.height,
        g.tiles@ == older.tiles@.update(older.spec_idx(x, y), t),
        border_walled(older),
    ensures
        border_walled(g),
{
    older.lemma_idx_in_range(x, y);
    assert forall|bx: int, by_: int| g.spec_in_bounds(bx, by_)
        && (bx == 0 || bx + 1 == g.width || by_ == 0 || by_ + 1 == g.height)
        implies #[trigger] g.tile_at(g.spec_idx(bx, by_)) == TileType::Wall by {
        older.lemma_idx_in_range(bx, by_);
        assert(older.tile_at(older.spec_idx(bx, by_)) == TileType::Wall);
        if older.spec_idx(bx, by_) == older.spec_idx(x, y) {
            older.lemma_idx_injective(bx, by_, x, y);
        }
    }
}

impl CellularAutomataArchitect {
    /// Run the architect. The player start is the Floor cell nearest to
    /// the grid center after smoothing; when smoothing leaves no Floor
    /// cell at all, the attempt reports a generation failure.
    pub fn new(&self, width: usize, height: usize, rng: &mut RandomSource)
        -> (r: Result<MapBuilder, GenError>)
        requires
            3 <= width <= 0x8000,
            3 <= height <= 0x8000,
        ensures
            match r {
                Ok(mb) => {
                    &&& mb.map.wf()
                    &&& mb.map.width == width
                    &&& mb.map.height == height
                    &&& mb.wf()
                    &&& mb.start_on_floor()
                    &&& forall|j: int| is_floor(mb.map, j)
                        ==> dist2(#[trigger] point_at(mb.map, j),
                                Point { x: (width / 2) as i32, y: (height / 2) as i32 })
                            >= dist2(mb.player_start,
                                Point { x: (width / 2) as i32, y: (height / 2) as i32 })
                    &&& border_walled(mb.map)
                    &&& mb.amulet_start == mb.player_start
                    &&& mb.rooms@.len() == 0
                    &&& mb.monster_spawns@.len() == 0
                },
                Err(e) => e == GenError::NoFloor,
            },
    {
        let mut g = Grid::new(width, height);
        let w: i32 = width as i32;
        let h: i32 = height as i32;
        proof {
            assert forall|x: int, y: int| g.spec_in_bounds(x, y)
                && (x == 0 || x + 1 == g.width || y == 0 || y + 1 == g.height)
                implies #[trigger] g.tile_at(g.spec_idx(x, y)) == TileType::Wall by {
                g.lemma_idx_in_range(x, y);
            }
        }
        let mut y: i32 = 1;
        while y + 1 < h
            invariant
                g.wf(),
                g.width == width,
                g.height == height,
                w == width,
                h == height,
                1 <= y <= h,
                border_walled(g),
            decreases h - y,
        {
            let mut x: i32 = 1;
            while x + 1 < w
                invariant
                    g.wf(),
                    g.width == width,
                    g.height == height,
                    w == width,
                    h == height,
                    1 <= y,
                    y + 1 < h,
                    1 <= x <= w,
                    border_walled(g),
                decreases w - x,
            {
                let roll = rng.range(0, 100);
                let t = if roll > 55 {
                    TileType::Floor
                } else {
                    TileType::Wall
                };
                let ghost gb = g;
                g.set(Point { x, y }, t);
                proof {
                    lemma_interior_set_keeps_border(gb, g, x as int, y as int, t);
                }
                x = x + 1;
            }
            y = y + 1;
        }
        let mut it: usize = 0;
        while it < SMOOTH_ITERATIONS
            invariant
                g.wf(),
                g.width == width,
                g.height == height,
                w == width,
                h == height,
                border_walled(g),
            decreases SMOOTH_ITERATIONS - it,
        {
            let mut next = Grid::new(width, height);
            proof {
                assert forall|x: int, y: int| next.spec_in_bounds(x, y)
                    && (x == 0 || x + 1 == next.width || y == 0 || y + 1 == next.height)
                    implies #[trigger] next.tile_at(next.spec_idx(x, y)) == TileType::Wall by {
                    next.lemma_idx_in_range(x, y);
                }
            }
            let mut sy: i32 = 1;
            while sy + 1 < h
                invariant
                    g.wf(),
                    next.wf(),
                    g.width == width,
                    g.height == height,
                    next.width == width,
                    next.height == height,
                    w == width,
                    h == height,
                    1 <= sy <= h,
                    border_walled(next),
                decreases h - sy,
            {
                let mut sx: i32 = 1;
                while sx + 1 < w
                    invariant
                        g.wf(),
                        next.wf(),
                        g.width == width,
                        g.height == height,
                        next.width == width,
                        next.height == height,
                        w == width,
                        h == height,
                        1 <= sy,
                        sy + 1 < h,
                        1 <= sx <= w,
                        border_walled(next),
                    decreases w - sx,
                {
                    let cnt = count_wall_neighbors(&g, sx, sy);
                    let t = if cnt > 4 || cnt == 0 {
                        TileType::Wall
                    } else {
                        TileType::Floor
                    };
                    let ghost nb = next;
                    next.set(Point { x: sx, y: sy }, t);
                    proof {
                        lemma_interior_set_keeps_border(nb, next, sx as int, sy as int, t);
                    }
                    sx = sx + 1;
                }
                sy = sy + 1;
            }
            g = next;
            it = it + 1;
        }
        let center = Point::new((width / 2) as i32, (height / 2) as i32);
        let start = match closest_floor_to(&g, center) {
            Ok(p) => p,
            Err(e) => {
                return Err(e);
            },
        };
        Ok(MapBuilder {
            map: g,
            rooms: Vec::new(),
            monster_spawns: Vec::new(),
            player_start: start,
            amulet_start: start,
            theme: ThemeKind::Dungeon,
        })
    }
}

} // verus!
