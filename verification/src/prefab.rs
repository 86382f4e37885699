use vstd::prelude::*;

use crate::builder::first_floor_index;
use crate::builder::MapBuilder;
use crate::grid::Grid;
use crate::grid::Point;
use crate::grid::TileType;
use crate::rng::RandomSource;

verus! {

broadcast use vstd::seq_lib::lemma_seq_contains_after_push;

/// Width of the fixed overlay pattern in cells.
pub const PREFAB_W: i32 = 8;

/// Height of the fixed overlay pattern in cells.
pub const PREFAB_H: i32 = 5;

/// The fixed overlay pattern, by origin-relative coordinates: a walled
/// vault with an open interior and a door in the middle of the west and
/// east walls.
pub open spec fn pattern_tile(dx: int, dy: int) -> TileType {
    if (dy == 0 || dy == PREFAB_H - 1 || dx == 0 || dx == PREFAB_W - 1)
        && !(dy == 2 && (dx == 0 || dx == PREFAB_W - 1)) {
        TileType::Wall
    } else {
        TileType::Floor
    }
}

/// Every pattern cell, read at offset `(ox, oy)` in the grid, holds
/// exactly the pattern's tile.
pub open spec fn stamped_at(g: Grid, ox: int, oy: int) -> bool {
    forall|dx: int, dy: int| 0 <= dx < PREFAB_W && 0 <= dy < PREFAB_H
        ==> #[trigger] g.tile_at(g.spec_idx(ox + dx, oy + dy)) == pattern_tile(dx, dy)
}

/// Every cell outside the pattern rectangle at offset `(ox, oy)` is
/// unchanged between the two grids.
pub open spec fn untouched_outside(older: Grid, g: Grid, ox: int, oy: int) -> bool {
    forall|x: int, y: int| g.spec_in_bounds(x, y)
        && !(ox <= x < ox + PREFAB_W && oy <= y < oy + PREFAB_H)
        ==> #[trigger] g.tile_at(g.spec_idx(x, y)) == older.tile_at(older.spec_idx(x, y))
}

fn pattern_tile_at(dx: i32, dy: i32) -> (t: TileType)
    ensures
        t == pattern_tile(dx as int, dy as int),
{
    if (dy == 0 || dy == PREFAB_H - 1 || dx == 0 || dx == PREFAB_W - 1)
        && !(dy == 2 && (dx == 0 || dx == PREFAB_W - 1)) {
        TileType::Wall
    } else {
        TileType::Floor
    }
}

/// Stamp the fixed pattern onto the generated grid at a random offset
/// chosen among the placements that keep it fully inside the grid,
/// overwriting the destination cells unconditionally, then reconcile:
/// spawn anchors whose cell is no longer Floor are dropped, and a player
/// start whose cell is no longer Floor is relocated to the first Floor
/// cell in index order (or, when the grid holds no Floor cell at all,
/// its own cell is re-carved as Floor).
pub fn apply_prefab(mb: &mut MapBuilder, rng: &mut RandomSource)
    requires
        old(mb).map.wf(),
        old(mb).wf(),
        PREFAB_W <= old(mb).map.width,
        PREFAB_H <= old(mb).map.height,
    ensures
        final(mb).map.wf(),
        final(mb).map.width == old(mb).map.width,
        final(mb).map.height == old(mb).map.height,
        final(mb).wf(),
        final(mb).start_on_floor(),
        final(mb).map.tile_at_point(old(mb).player_start) == TileType::Floor
            ==> final(mb).player_start == old(mb).player_start,
        final(mb).rooms@ == old(mb).rooms@,
        final(mb).theme == old(mb).theme,
        final(mb).amulet_start == old(mb).amulet_start,
        exists|ox: int, oy: int|
            {
                &&& 0 <= ox
                &&& ox + PREFAB_W <= final(mb).map.width
                &&& 0 <= oy
                &&& oy + PREFAB_H <= final(mb).map.height
                &&& #[trigger] stamped_at(final(mb).map, ox, oy)
                &&& untouched_outside(old(mb).map, final(mb).map, ox, oy)
            },
        forall|k: int| 0 <= k < final(mb).monster_spawns@.len() ==> {
            let p = #[trigger] final(mb).monster_spawns@[k];
            &&& final(mb).map.spec_in_bounds(p.x as int, p.y as int)
            &&& final(mb).map.tile_at_point(p) == TileType::Floor
            &&& old(mb).monster_spawns@.contains(p)
        },
        forall|k: int| 0 <= k < old(mb).monster_spawns@.len()
            && final(mb).map.spec_in_bounds(
                (#[trigger] old(mb).monster_spawns@[k]).x as int,
                old(mb).monster_spawns@[k].y as int)
            && final(mb).map.tile_at_point(old(mb).monster_spawns@[k]) == TileType::Floor
            ==> final(mb).monster_spawns@.contains(old(mb).monster_spawns@[k]),
{
    let w: i32 = mb.map.width as i32;
    let h: i32 = mb.map.height as i32;
    let ox = rng.range(0, w - PREFAB_W + 1);
    let oy = rng.range(0, h - PREFAB_H + 1);
    let mut dy: i32 = 0;
    while dy < PREFAB_H
        invariant
            mb.map.wf(),
            mb.map.width == old(mb).map.width,
            mb.map.height == old(mb).map.height,
            mb.rooms@ == old(mb).rooms@,
            mb.monster_spawns@ == old(mb).monster_spawns@,
            mb.player_start == old(mb).player_start,
            mb.amulet_start == old(mb).amulet_start,
            mb.theme == old(mb).theme,
            0 <= dy <= PREFAB_H,
            0 <= ox,
            ox + PREFAB_W <= mb.map.width,
            0 <= oy,
            oy + PREFAB_H <= mb.map.height,
            forall|ddx: int, ddy: int| 0 <= ddx < PREFAB_W && 0 <= ddy < dy
                ==> #[trigger] mb.map.tile_at(mb.map.spec_idx(ox + ddx, oy + ddy))
                    == pattern_tile(ddx, ddy),
            untouched_outside(old(mb).map, mb.map, ox as int, oy as int),
        decreases PREFAB_H - dy,
    {
        let mut dx: i32 = 0;
        while dx < PREFAB_W
            invariant
                mb.map.wf(),
                mb.map.width == old(mb).map.width,
                mb.map.height == old(mb).map.height,
                mb.rooms@ == old(mb).rooms@,
                mb.monster_spawns@ == old(mb).monster_spawns@,
                mb.player_start == old(mb).player_start,
                mb.amulet_start == old(mb).amulet_start,
                mb.theme == old(mb).theme,
                0 <= dx <= PREFAB_W,
                0 <= dy < PREFAB_H,
                0 <= ox,
                ox + PREFAB_W <= mb.map.width,
                0 <= oy,
                oy + PREFAB_H <= mb.map.height,
                forall|ddx: int, ddy: int| 0 <= ddx < PREFAB_W && 0 <= ddy < dy
                    ==> #[trigger] mb.map.tile_at(mb.map.spec_idx(ox + ddx, oy + ddy))
                        == pattern_tile(ddx, ddy),
                forall|ddx: int| 0 <= ddx < dx
                    ==> #[trigger] mb.map.tile_at(mb.map.spec_idx(ox + ddx, oy + dy))
                        == pattern_tile(ddx, dy as int),
                untouched_outside(old(mb).map, mb.map, ox as int, oy as int),
            decreases PREFAB_W - dx,
        {
            let t = pattern_tile_at(dx, dy);
            let ghost gb = mb.map;
            mb.map.set(Point { x: ox + dx, y: oy + dy }, t);
            proof {
                gb.lemma_idx_in_range((ox + dx) as int, (oy + dy) as int);
                assert forall|ddx: int, ddy: int| 0 <= ddx < PREFAB_W && 0 <= ddy < dy
                    implies #[trigger] mb.map.tile_at(mb.map.spec_idx(ox + ddx, oy + ddy))
                        == pattern_tile(ddx, ddy) by {
                    gb.lemma_idx_in_range(ox + ddx, oy + ddy);
                    assert(gb.tile_at(gb.spec_idx(ox + ddx, oy + ddy))
                        == pattern_tile(ddx, ddy));
                    if gb.spec_idx(ox + ddx, oy + ddy)
                        == gb.spec_idx(ox + dx as int, oy + dy as int) {
                        gb.lemma_idx_injective(
                            ox + ddx, oy + ddy, ox + dx as int, oy + dy as int);
                    }
                }
                assert forall|ddx: int| 0 <= ddx < dx + 1
                    implies #[trigger] mb.map.tile_at(mb.map.spec_idx(ox + ddx, oy + dy))
                        == pattern_tile(ddx, dy as int) by {
                    gb.lemma_idx_in_range(ox + ddx, oy + dy as int);
                    if ddx < dx {
                        assert(gb.tile_at(gb.spec_idx(ox + ddx, oy + dy as int))
                            == pattern_tile(ddx, dy as int));
                        if gb.spec_idx(ox + ddx, oy + dy as int)
                            == gb.spec_idx(ox + dx as int, oy + dy as int) {
                            gb.lemma_idx_injective(
                                ox + ddx, oy + dy as int, ox + dx as int, oy + dy as int);
                        }
                    }
                }
                assert forall|x: int, y: int| mb.map.spec_in_bounds(x, y)
                    && !(ox <= x < ox + PREFAB_W && oy <= y < oy + PREFAB_H)
                    implies #[trigger] mb.map.tile_at(mb.map.spec_idx(x, y))
                        == old(mb).map.tile_at(old(mb).map.spec_idx(x, y)) by {
                    gb.lemma_idx_in_range(x, y);
                    assert(gb.tile_at(gb.spec_idx(x, y))
                        == old(mb).map.tile_at(old(mb).map.spec_idx(x, y)));
                    if gb.spec_idx(x, y) == gb.spec_idx(ox + dx as int, oy + dy as int) {
                        gb.lemma_idx_injective(x, y, ox + dx as int, oy + dy as int);
                    }
                }
            }
            dx = dx + 1;
        }
        dy = dy + 1;
    }
    let ghost stamp_ox = ox as int;
    let ghost stamp_oy = oy as int;
    proof {
        assert(stamped_at(mb.map, stamp_ox, stamp_oy));
    }
    let here = mb.map.get(mb.player_start);
    let on_floor = match here {
        Some(t) => t == TileType::Floor,
        None => false,
    };
    if !on_floor {
        match first_floor_index(&mb.map) {
            Ok(i) => {
                mb.player_start = mb.map.point_of(i);
            },
            Err(_) => {
                // unreachable: the stamped pattern always leaves Floor in
                // its interior, so a Floor cell exists
                proof {
                    mb.map.lemma_idx_in_range(stamp_ox + 1, stamp_oy + 2);
                    assert(mb.map.tile_at(mb.map.spec_idx(stamp_ox + 1, stamp_oy + 2))
                        == pattern_tile(1, 2));
                    assert(false);
                }
            },
        }
    }
    let mut kept: Vec<Point> = Vec::new();
    let n_sp: usize = mb.monster_spawns.len();
    let mut k: usize = 0;
    while k < n_sp
        invariant
            mb.map.wf(),
            mb.monster_spawns@.len() == n_sp,
            k <= n_sp,
            forall|j: int| 0 <= j < kept@.len() ==> {
                let p = #[trigger] kept@[j];
                &&& mb.map.spec_in_bounds(p.x as int, p.y as int)
                &&& mb.map.tile_at_point(p) == TileType::Floor
                &&& mb.monster_spawns@.contains(p)
            },
            forall|j: int| 0 <= j < k
                && mb.map.spec_in_bounds(
                    (#[trigger] mb.monster_spawns@[j]).x as int,
                    mb.monster_spawns@[j].y as int)
                && mb.map.tile_at_point(mb.monster_spawns@[j]) == TileType::Floor
                ==> kept@.contains(mb.monster_spawns@[j]),
        decreases n_sp - k,
    {
        let p = mb.monster_spawns[k];
        let keep = match mb.map.get(p) {
            Some(t) => t == TileType::Floor,
            None => false,
        };
        if keep {
            kept.push(p);
            proof {
                assert(mb.monster_spawns@[k as int] == p);
                assert(mb.monster_spawns@.contains(p));
            }
        }
        k = k + 1;
    }
    mb.monster_spawns = kept;
}

} // verus!
