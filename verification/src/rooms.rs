use vstd::prelude::*;

use crate::builder::idx_of;
use crate::builder::GenError;
use crate::builder::MapBuilder;
use crate::dijkstra::is_floor;
use crate::dijkstra::lemma_h_walk;
use crate::dijkstra::lemma_reachable_monotone;
use crate::dijkstra::lemma_reachable_trans;
use crate::dijkstra::lemma_v_walk;
use crate::dijkstra::reachable;
use crate::dijkstra::reachable_in;
use crate::grid::Grid;
use crate::grid::Point;
use crate::grid::TileType;
use crate::region::spec_overlap;
use crate::region::Region;
use crate::rng::RandomSource;
use crate::themes::ThemeKind;

verus! {

/// Target number of non-overlapping rooms per level.
pub const NUM_ROOMS: usize = 20;

/// Ceiling on rejection-sampling attempts; on exhaustion room placement
/// reports a generation failure instead of looping forever.
pub const MAX_ROOM_ATTEMPTS: usize = 2000;

/// Every contained point of the region holds a Floor tile.
pub open spec fn room_carved(g: Grid, r: Region) -> bool {
    forall|x: int, y: int| r.spec_contains(x, y)
        ==> #[trigger] g.tile_at(g.spec_idx(x, y)) == TileType::Floor
}

/// The region keeps one cell of margin to the grid border on every side.
pub open spec fn room_interior(g: Grid, r: Region) -> bool {
    1 <= r.x1 && r.x2 + 1 < g.width && 1 <= r.y1 && r.y2 + 1 < g.height
}

/// Cells only ever change towards Floor: carving never removes floor.
pub open spec fn only_adds_floor(older: Grid, newer: Grid) -> bool {
    &&& newer.tiles@.len() == older.tiles@.len()
    &&& forall|i: int| 0 <= i < newer.tiles@.len()
        ==> #[trigger] newer.tile_at(i) == older.tile_at(i)
            || newer.tile_at(i) == TileType::Floor
}

/// The room's sides measure between 2 and 9 cells.
pub open spec fn room_sized(r: Region) -> bool {
    &&& 2 <= r.x2 - r.x1 + 1 <= 9
    &&& 2 <= r.y2 - r.y1 + 1 <= 9
}

/// Lower end of the closed segment between two coordinates.
pub open spec fn seg_lo(a: i32, b: i32) -> int {
    if a < b { a as int } else { b as int }
}

/// Upper end of the closed segment between two coordinates.
pub open spec fn seg_hi(a: i32, b: i32) -> int {
    if a < b { b as int } else { a as int }
}

/// Set every contained point of the room to Floor.
fn carve_room(g: &mut Grid, room: &Region)
    requires
        old(g).wf(),
        room.wf(),
        room.spec_in_grid(*old(g)),
    ensures
        final(g).wf(),
        final(g).width == old(g).width,
        final(g).height == old(g).height,
        only_adds_floor(*old(g), *final(g)),
        room_carved(*final(g), *room),
        forall|px: int, py: int| final(g).spec_in_bounds(px, py) && !room.spec_contains(px, py)
            ==> #[trigger] final(g).tile_at(final(g).spec_idx(px, py))
                == old(g).tile_at(old(g).spec_idx(px, py)),
{
    let mut y: i32 = room.y1;
    while y <= room.y2
        invariant
            g.wf(),
            g.width == old(g).width,
            g.height == old(g).height,
            room.wf(),
            room.spec_in_grid(*g),
            room.y1 <= y <= room.y2 + 1,
            only_adds_floor(*old(g), *g),
            forall|xx: int, yy: int| room.spec_contains(xx, yy) && yy < y
                ==> #[trigger] g.tile_at(g.spec_idx(xx, yy)) == TileType::Floor,
            forall|px: int, py: int| g.spec_in_bounds(px, py) && !room.spec_contains(px, py)
                ==> #[trigger] g.tile_at(g.spec_idx(px, py))
                    == old(g).tile_at(old(g).spec_idx(px, py)),
        decreases room.y2 + 1 - y,
    {
        let mut x: i32 = room.x1;
        while x <= room.x2
            invariant
                g.wf(),
                g.width == old(g).width,
                g.height == old(g).height,
                room.wf(),
                room.spec_in_grid(*g),
                room.y1 <= y <= room.y2,
                room.x1 <= x <= room.x2 + 1,
                only_adds_floor(*old(g), *g),
                forall|xx: int, yy: int| room.spec_contains(xx, yy) && yy < y
                    ==> #[trigger] g.tile_at(g.spec_idx(xx, yy)) == TileType::Floor,
                forall|xx: int| room.x1 <= xx < x
                    ==> #[trigger] g.tile_at(g.spec_idx(xx, y as int)) == TileType::Floor,
                forall|px: int, py: int| g.spec_in_bounds(px, py) && !room.spec_contains(px, py)
                    ==> #[trigger] g.tile_at(g.spec_idx(px, py))
                        == old(g).tile_at(old(g).spec_idx(px, py)),
            decreases room.x2 + 1 - x,
        {
            let ghost gb = *g;
            g.set(Point { x, y }, TileType::Floor);
            proof {
                gb.lemma_idx_in_range(x as int, y as int);
                assert forall|xx: int, yy: int| room.spec_contains(xx, yy) && yy < y
                    implies #[trigger] g.tile_at(g.spec_idx(xx, yy)) == TileType::Floor by {
                    gb.lemma_idx_in_range(xx, yy);
                    assert(gb.tile_at(gb.spec_idx(xx, yy)) == TileType::Floor);
                }
                assert forall|xx: int| room.x1 <= xx < x + 1
                    implies #[trigger] g.tile_at(g.spec_idx(xx, y as int)) == TileType::Floor by {
                    gb.lemma_idx_in_range(xx, y as int);
                    if xx < x {
                        assert(gb.tile_at(gb.spec_idx(xx, y as int)) == TileType::Floor);
                    }
                }
                assert forall|i: int| 0 <= i < g.tiles@.len()
                    implies #[trigger] g.tile_at(i) == old(g).tile_at(i)
                        || g.tile_at(i) == TileType::Floor by {
                    assert(gb.tile_at(i) == old(g).tile_at(i)
                        || gb.tile_at(i) == TileType::Floor);
                }
                assert forall|px: int, py: int| g.spec_in_bounds(px, py)
                    && !room.spec_contains(px, py)
                    implies #[trigger] g.tile_at(g.spec_idx(px, py))
                        == old(g).tile_at(old(g).spec_idx(px, py)) by {
                    gb.lemma_idx_in_range(px, py);
                    assert(gb.tile_at(gb.spec_idx(px, py))
                        == old(g).tile_at(old(g).spec_idx(px, py)));
                    if gb.spec_idx(px, py) == gb.spec_idx(x as int, y as int) {
                        gb.lemma_idx_injective(px, py, x as int, y as int);
                    }
                }
            }
            x = x + 1;
        }
        y = y + 1;
    }
}

/// After an L-shaped corridor is carved between two in-bounds interior
/// points `(ax, ay)` and `(bx, by)` — the first leg in `gmid`, the
/// second in `g` — each endpoint is reachable from the other.
/// `h_first` says whether the horizontal leg was carved first (at row
/// `ay`, then the vertical leg at column `bx`) or the vertical leg first
/// (at column `ax`, then the horizontal leg at row `by`).
proof fn lemma_l_corridor(
    gpre: Grid,
    gmid: Grid,
    g: Grid,
    ax: int,
    ay: int,
    bx: int,
    by_: int,
    x1: i32,
    x2: i32,
    y1: i32,
    y2: i32,
    h_first: bool,
)
    requires
        gpre.wf(),
        gmid.wf(),
        g.wf(),
        gmid.width == gpre.width,
        gmid.height == gpre.height,
        g.width == gpre.width,
        g.height == gpre.height,
        ax == x1 as int && bx == x2 as int && ay == y1 as int && by_ == y2 as int,
        1 <= ax && ax + 1 < g.width,
        1 <= bx && bx + 1 < g.width,
        1 <= ay && ay + 1 < g.height,
        1 <= by_ && by_ + 1 < g.height,
        h_first ==> forall|xx: int| seg_lo(x1, x2) <= xx <= seg_hi(x1, x2)
            && gmid.spec_in_bounds(xx, y1 as int)
            ==> #[trigger] gmid.tile_at(gmid.spec_idx(xx, y1 as int)) == TileType::Floor,
        h_first ==> forall|yy: int| seg_lo(y1, y2) <= yy <= seg_hi(y1, y2)
            && g.spec_in_bounds(x2 as int, yy)
            ==> #[trigger] g.tile_at(g.spec_idx(x2 as int, yy)) == TileType::Floor,
        h_first ==> forall|px: int, py: int| g.spec_in_bounds(px, py)
            && !(px == x2 && seg_lo(y1, y2) <= py <= seg_hi(y1, y2))
            ==> #[trigger] g.tile_at(g.spec_idx(px, py))
                == gmid.tile_at(gmid.spec_idx(px, py)),
        !h_first ==> forall|yy: int| seg_lo(y1, y2) <= yy <= seg_hi(y1, y2)
            && gmid.spec_in_bounds(x1 as int, yy)
            ==> #[trigger] gmid.tile_at(gmid.spec_idx(x1 as int, yy)) == TileType::Floor,
        !h_first ==> forall|xx: int| seg_lo(x1, x2) <= xx <= seg_hi(x1, x2)
            && g.spec_in_bounds(xx, y2 as int)
            ==> #[trigger] g.tile_at(g.spec_idx(xx, y2 as int)) == TileType::Floor,
        !h_first ==> forall|px: int, py: int| g.spec_in_bounds(px, py)
            && !(py == y2 && seg_lo(x1, x2) <= px <= seg_hi(x1, x2))
            ==> #[trigger] g.tile_at(g.spec_idx(px, py))
                == gmid.tile_at(gmid.spec_idx(px, py)),
    ensures
        reachable(g, g.spec_idx(ax, ay), g.spec_idx(bx, by_)),
        reachable(g, g.spec_idx(bx, by_), g.spec_idx(ax, ay)),
{
    let ai = g.spec_idx(ax, ay);
    let bi = g.spec_idx(bx, by_);
    if h_first {
        // horizontal leg at row ay, vertical leg at column bx
        assert forall|xx: int| seg_lo(x1, x2) <= xx <= seg_hi(x1, x2)
            implies is_floor(g, #[trigger] g.spec_idx(xx, ay)) by {
            g.lemma_idx_in_range(xx, ay);
            assert(gmid.tile_at(gmid.spec_idx(xx, ay)) == TileType::Floor);
            if !(xx == bx && seg_lo(y1, y2) <= ay <= seg_hi(y1, y2)) {
                assert(g.tile_at(g.spec_idx(xx, ay)) == gmid.tile_at(gmid.spec_idx(xx, ay)));
            }
        }
        assert forall|yy: int| seg_lo(y1, y2) <= yy <= seg_hi(y1, y2)
            implies is_floor(g, #[trigger] g.spec_idx(bx, yy)) by {
            g.lemma_idx_in_range(bx, yy);
            assert(g.tile_at(g.spec_idx(x2 as int, yy)) == TileType::Floor);
        }
        assert(reachable_in(g, ai, ai, 0));
        lemma_h_walk(g, ai, ay, ax, bx);
        lemma_v_walk(g, ai, bx, ay, by_);
        assert(reachable_in(g, bi, bi, 0));
        lemma_v_walk(g, bi, bx, by_, ay);
        lemma_h_walk(g, bi, ay, bx, ax);
    } else {
        // vertical leg at column ax, horizontal leg at row by_
        assert forall|yy: int| seg_lo(y1, y2) <= yy <= seg_hi(y1, y2)
            implies is_floor(g, #[trigger] g.spec_idx(ax, yy)) by {
            g.lemma_idx_in_range(ax, yy);
            assert(gmid.tile_at(gmid.spec_idx(ax, yy)) == TileType::Floor);
            if !(yy == by_ && seg_lo(x1, x2) <= ax <= seg_hi(x1, x2)) {
                assert(g.tile_at(g.spec_idx(ax, yy)) == gmid.tile_at(gmid.spec_idx(ax, yy)));
            }
        }
        assert forall|xx: int| seg_lo(x1, x2) <= xx <= seg_hi(x1, x2)
            implies is_floor(g, #[trigger] g.spec_idx(xx, by_)) by {
            g.lemma_idx_in_range(xx, by_);
            assert(g.tile_at(g.spec_idx(xx, y2 as int)) == TileType::Floor);
        }
        assert(reachable_in(g, ai, ai, 0));
        lemma_v_walk(g, ai, ax, ay, by_);
        lemma_h_walk(g, ai, by_, ax, bx);
        assert(reachable_in(g, bi, bi, 0));
        lemma_h_walk(g, bi, by_, bx, ax);
        lemma_v_walk(g, bi, ax, by_, ay);
    }
}

/// The rooms architect: rejection-sampled non-overlapping rectangular
/// rooms joined by L-shaped corridors.
pub struct RoomsArchitect {}

impl RoomsArchitect {
    /// Run the architect: carve rooms and corridors into a fresh grid,
    /// put the player start at the first room's center, and record every
    /// other room's center as a monster-spawn anchor. The goal point and
    /// the final spawn list are filled in later by the orchestrator.
    pub fn new(&self, width: usize, height: usize, rng: &mut RandomSource)
        -> (r: Result<MapBuilder, GenError>)
        requires
            12 <= width <= 0x8000,
            12 <= height <= 0x8000,
        ensures
            match r {
                Ok(mb) => {
                    &&& mb.map.wf()
                    &&& mb.map.width == width
                    &&& mb.map.height == height
                    &&& mb.wf()
                    &&& mb.start_on_floor()
                    &&& mb.rooms_ok()
                    &&& mb.rooms@.len() == NUM_ROOMS
                    &&& forall|k: int| 0 <= k < mb.rooms@.len()
                        ==> room_sized(#[trigger] mb.rooms@[k])
                    &&& mb.player_start == mb.rooms@[0].spec_center()
                    &&& forall|k: int| 0 <= k < mb.rooms@.len()
                        ==> reachable(mb.map, idx_of(mb.map, mb.player_start),
                            idx_of(mb.map, (#[trigger] mb.rooms@[k]).spec_center()))
                    &&& mb.amulet_start == mb.player_start
                    &&& mb.monster_spawns@.len() == mb.rooms@.len() - 1
                    &&& forall|k: int| 0 <= k < mb.monster_spawns@.len()
                        ==> #[trigger] mb.monster_spawns@[k] == mb.rooms@[k + 1].spec_center()
                },
                Err(e) => e == GenError::RoomPlacement,
            },
    {
        let mut mb = MapBuilder {
            map: Grid::new(width, height),
            rooms: Vec::new(),
            monster_spawns: Vec::new(),
            player_start: Point::zero(),
            amulet_start: Point::zero(),
            theme: ThemeKind::Dungeon,
        };
        mb.fill(TileType::Wall);
        match self.build_random_rooms(&mut mb, rng) {
            Ok(()) => {},
            Err(e) => {
                return Err(e);
            },
        }
        let ghost g_rooms = mb.map;
        self.build_corridors(&mut mb, rng);
        proof {
            assert forall|k: int| 0 <= k < mb.rooms@.len()
                implies room_carved(mb.map, #[trigger] mb.rooms@[k]) by {
                assert(room_carved(g_rooms, mb.rooms@[k]));
                assert forall|xx: int, yy: int| mb.rooms@[k].spec_contains(xx, yy)
                    implies #[trigger] mb.map.tile_at(mb.map.spec_idx(xx, yy))
                        == TileType::Floor by {
                    g_rooms.lemma_idx_in_range(xx, yy);
                    assert(g_rooms.tile_at(g_rooms.spec_idx(xx, yy)) == TileType::Floor);
                }
            }
        }
        let start = mb.rooms[0].center();
        mb.player_start = start;
        mb.amulet_start = start;
        proof {
            assert(mb.rooms@[0].spec_contains(start.x as int, start.y as int));
            assert(room_carved(mb.map, mb.rooms@[0]));
            assert forall|k: int| 0 <= k < mb.rooms@.len()
                implies reachable(mb.map, idx_of(mb.map, start),
                    idx_of(mb.map, (#[trigger] mb.rooms@[k]).spec_center())) by {
                assert(reachable(mb.map,
                    idx_of(mb.map, mb.rooms@[0].spec_center()),
                    idx_of(mb.map, mb.rooms@[k].spec_center())));
            }
            assert(mb.map.tile_at(mb.map.spec_idx(start.x as int, start.y as int))
                == TileType::Floor);
        }
        let mut anchors: Vec<Point> = Vec::new();
        let n_rooms: usize = mb.rooms.len();
        let mut k: usize = 1;
        while k < n_rooms
            invariant
                1 <= k <= n_rooms,
                mb.rooms@.len() == n_rooms,
                anchors@.len() == k - 1,
                forall|j: int| 0 <= j < anchors@.len()
                    ==> #[trigger] anchors@[j] == mb.rooms@[j + 1].spec_center(),
                forall|j: int| 0 <= j < mb.rooms@.len() ==> (#[trigger] mb.rooms@[j]).wf(),
            decreases n_rooms - k,
        {
            let c = mb.rooms[k].center();
            anchors.push(c);
            k = k + 1;
        }
        mb.monster_spawns = anchors;
        Ok(mb)
    }

    /// Rejection-sample rooms: propose a random rectangle, accept it only
    /// if it overlaps no accepted room, carve it, and repeat until the
    /// target count is reached or the attempt ceiling is exhausted.
    pub fn build_random_rooms(&self, mb: &mut MapBuilder, rng: &mut RandomSource)
        -> (r: Result<(), GenError>)
        requires
            old(mb).map.wf(),
            12 <= old(mb).map.width,
            12 <= old(mb).map.height,
            old(mb).rooms@.len() == 0,
        ensures
            final(mb).map.wf(),
            final(mb).map.width == old(mb).map.width,
            final(mb).map.height == old(mb).map.height,
            only_adds_floor(old(mb).map, final(mb).map),
            final(mb).monster_spawns@ == old(mb).monster_spawns@,
            final(mb).player_start == old(mb).player_start,
            final(mb).amulet_start == old(mb).amulet_start,
            final(mb).theme == old(mb).theme,
            forall|k: int| 0 <= k < final(mb).rooms@.len()
                ==> (#[trigger] final(mb).rooms@[k]).wf()
                    && room_interior(final(mb).map, final(mb).rooms@[k])
                    && room_sized(final(mb).rooms@[k])
                    && room_carved(final(mb).map, final(mb).rooms@[k]),
            forall|k1: int, k2: int| 0 <= k1 < k2 < final(mb).rooms@.len()
                ==> !spec_overlap(final(mb).rooms@[k1], final(mb).rooms@[k2]),
            forall|px: int, py: int| final(mb).map.spec_in_bounds(px, py)
                && #[trigger] final(mb).map.tile_at(final(mb).map.spec_idx(px, py))
                    != old(mb).map.tile_at(old(mb).map.spec_idx(px, py))
                ==> exists|k: int| 0 <= k < final(mb).rooms@.len()
                    && (#[trigger] final(mb).rooms@[k]).spec_contains(px, py),
            match r {
                Ok(()) => final(mb).rooms@.len() == NUM_ROOMS,
                Err(e) => e == GenError::RoomPlacement,
            },
    {
        let w: i32 = mb.map.width as i32;
        let h: i32 = mb.map.height as i32;
        let mut attempts: usize = 0;
        while mb.rooms.len() < NUM_ROOMS && attempts < MAX_ROOM_ATTEMPTS
            invariant
                mb.map.wf(),
                mb.map.width == old(mb).map.width,
                mb.map.height == old(mb).map.height,
                w == mb.map.width,
                h == mb.map.height,
                12 <= w,
                12 <= h,
                only_adds_floor(old(mb).map, mb.map),
                mb.monster_spawns@ == old(mb).monster_spawns@,
                mb.player_start == old(mb).player_start,
                mb.amulet_start == old(mb).amulet_start,
                mb.theme == old(mb).theme,
                mb.rooms@.len() <= NUM_ROOMS,
                forall|k: int| 0 <= k < mb.rooms@.len()
                    ==> (#[trigger] mb.rooms@[k]).wf()
                        && room_interior(mb.map, mb.rooms@[k])
                        && room_sized(mb.rooms@[k])
                        && room_carved(mb.map, mb.rooms@[k]),
                forall|k1: int, k2: int| 0 <= k1 < k2 < mb.rooms@.len()
                    ==> !spec_overlap(mb.rooms@[k1], mb.rooms@[k2]),
                forall|px: int, py: int| mb.map.spec_in_bounds(px, py)
                    && #[trigger] mb.map.tile_at(mb.map.spec_idx(px, py))
                        != old(mb).map.tile_at(old(mb).map.spec_idx(px, py))
                    ==> exists|k: int| 0 <= k < mb.rooms@.len()
                        && (#[trigger] mb.rooms@[k]).spec_contains(px, py),
            decreases MAX_ROOM_ATTEMPTS - attempts,
        {
            let x = rng.range(1, w - 10);
            let y = rng.range(1, h - 10);
            let rw = rng.range(2, 10);
            let rh = rng.range(2, 10);
            let room = Region::with_size(x, y, rw, rh);
            let mut overlap: bool = false;
            let mut j: usize = 0;
            while j < mb.rooms.len()
                invariant
                    j <= mb.rooms@.len(),
                    !overlap ==> forall|k: int| 0 <= k < j
                        ==> !spec_overlap(#[trigger] mb.rooms@[k], room),
                decreases mb.rooms@.len() - j,
            {
                if mb.rooms[j].intersect(&room) {
                    overlap = true;
                }
                j = j + 1;
            }
            if !overlap {
                let ghost gb = mb.map;
                let ghost rooms_before = mb.rooms@;
                carve_room(&mut mb.map, &room);
                mb.rooms.push(room);
                proof {
                    assert(mb.rooms@ == rooms_before.push(room));
                    assert forall|k: int| 0 <= k < mb.rooms@.len()
                        implies room_carved(mb.map, #[trigger] mb.rooms@[k]) by {
                        assert forall|xx: int, yy: int| mb.rooms@[k].spec_contains(xx, yy)
                            implies #[trigger] mb.map.tile_at(mb.map.spec_idx(xx, yy))
                                == TileType::Floor by {
                            if k < mb.rooms@.len() - 1 {
                                assert(room_carved(gb, rooms_before[k]));
                                gb.lemma_idx_in_range(xx, yy);
                                assert(gb.tile_at(gb.spec_idx(xx, yy)) == TileType::Floor);
                            }
                        }
                    }
                    assert forall|px: int, py: int| mb.map.spec_in_bounds(px, py)
                        && #[trigger] mb.map.tile_at(mb.map.spec_idx(px, py))
                            != old(mb).map.tile_at(old(mb).map.spec_idx(px, py))
                        implies exists|k: int| 0 <= k < mb.rooms@.len()
                            && (#[trigger] mb.rooms@[k]).spec_contains(px, py) by {
                        if mb.map.tile_at(mb.map.spec_idx(px, py))
                            == gb.tile_at(gb.spec_idx(px, py)) {
                            let k0 = choose|k: int| 0 <= k < rooms_before.len()
                                && (#[trigger] rooms_before[k]).spec_contains(px, py);
                            assert(mb.rooms@[k0].spec_contains(px, py));
                        } else {
                            assert(room.spec_contains(px, py));
                            assert(mb.rooms@[mb.rooms@.len() - 1].spec_contains(px, py));
                        }
                    }
                }
            }
            attempts = attempts + 1;
        }
        if mb.rooms.len() == NUM_ROOMS {
            Ok(())
        } else {
            Err(GenError::RoomPlacement)
        }
    }

    /// Carve a straight horizontal corridor at row `y` between the two
    /// columns: every in-bounds cell of the closed segment becomes
    /// Floor, every other cell is unchanged, and points outside the grid
    /// are silently skipped.
    pub fn apply_horizontal_tunnel(&self, mb: &mut MapBuilder, x1: i32, x2: i32, y: i32)
        requires
            old(mb).map.wf(),
        ensures
            final(mb).map.wf(),
            final(mb).map.width == old(mb).map.width,
            final(mb).map.height == old(mb).map.height,
            only_adds_floor(old(mb).map, final(mb).map),
            forall|xx: int| seg_lo(x1, x2) <= xx <= seg_hi(x1, x2)
                && final(mb).map.spec_in_bounds(xx, y as int)
                ==> #[trigger] final(mb).map.tile_at(final(mb).map.spec_idx(xx, y as int))
                    == TileType::Floor,
            forall|px: int, py: int| final(mb).map.spec_in_bounds(px, py)
                && !(py == y && seg_lo(x1, x2) <= px <= seg_hi(x1, x2))
                ==> #[trigger] final(mb).map.tile_at(final(mb).map.spec_idx(px, py))
                    == old(mb).map.tile_at(old(mb).map.spec_idx(px, py)),
            final(mb).rooms@ == old(mb).rooms@,
            final(mb).monster_spawns@ == old(mb).monster_spawns@,
            final(mb).player_start == old(mb).player_start,
            final(mb).amulet_start == old(mb).amulet_start,
            final(mb).theme == old(mb).theme,
    {
        let lo: i32 = if x1 < x2 { x1 } else { x2 };
        let hi: i32 = if x1 < x2 { x2 } else { x1 };
        let span: i64 = (hi as i64) - (lo as i64);
        let mut k: i64 = 0;
        while k <= span
            invariant
                mb.map.wf(),
                mb.map.width == old(mb).map.width,
                mb.map.height == old(mb).map.height,
                lo == seg_lo(x1, x2),
                hi == seg_hi(x1, x2),
                span == hi - lo,
                0 <= k <= span + 1,
                only_adds_floor(old(mb).map, mb.map),
                forall|xx: int| lo <= xx < lo + k && mb.map.spec_in_bounds(xx, y as int)
                    ==> #[trigger] mb.map.tile_at(mb.map.spec_idx(xx, y as int))
                        == TileType::Floor,
                forall|px: int, py: int| mb.map.spec_in_bounds(px, py)
                    && !(py == y && lo <= px <= hi)
                    ==> #[trigger] mb.map.tile_at(mb.map.spec_idx(px, py))
                        == old(mb).map.tile_at(old(mb).map.spec_idx(px, py)),
                mb.rooms@ == old(mb).rooms@,
                mb.monster_spawns@ == old(mb).monster_spawns@,
                mb.player_start == old(mb).player_start,
                mb.amulet_start == old(mb).amulet_start,
                mb.theme == old(mb).theme,
            decreases span + 1 - k,
        {
            let x: i32 = ((lo as i64) + k) as i32;
            let ghost gb = mb.map;
            mb.map.set(Point { x, y }, TileType::Floor);
            proof {
                if gb.spec_in_bounds(x as int, y as int) {
                    gb.lemma_idx_in_range(x as int, y as int);
                }
                assert forall|xx: int| lo <= xx < lo + k + 1
                    && mb.map.spec_in_bounds(xx, y as int)
                    implies #[trigger] mb.map.tile_at(mb.map.spec_idx(xx, y as int))
                        == TileType::Floor by {
                    gb.lemma_idx_in_range(xx, y as int);
                    if xx < lo + k {
                        assert(gb.tile_at(gb.spec_idx(xx, y as int)) == TileType::Floor);
                    }
                }
                assert forall|px: int, py: int| mb.map.spec_in_bounds(px, py)
                    && !(py == y && lo <= px <= hi)
                    implies #[trigger] mb.map.tile_at(mb.map.spec_idx(px, py))
                        == old(mb).map.tile_at(old(mb).map.spec_idx(px, py)) by {
                    gb.lemma_idx_in_range(px, py);
                    assert(gb.tile_at(gb.spec_idx(px, py))
                        == old(mb).map.tile_at(old(mb).map.spec_idx(px, py)));
                    if gb.spec_in_bounds(x as int, y as int)
                        && gb.spec_idx(px, py) == gb.spec_idx(x as int, y as int) {
                        gb.lemma_idx_injective(px, py, x as int, y as int);
                    }
                }
                assert forall|i: int| 0 <= i < mb.map.tiles@.len()
                    implies #[trigger] mb.map.tile_at(i) == old(mb).map.tile_at(i)
                        || mb.map.tile_at(i) == TileType::Floor by {
                    assert(gb.tile_at(i) == old(mb).map.tile_at(i)
                        || gb.tile_at(i) == TileType::Floor);
                }
            }
            k = k + 1;
        }
    }

    /// Carve a straight vertical corridor at column `x` between the two
    /// rows: every in-bounds cell of the closed segment becomes Floor,
    /// every other cell is unchanged, and points outside the grid are
    /// silently skipped.
    pub fn apply_vertical_tunnel(&self, mb: &mut MapBuilder, y1: i32, y2: i32, x: i32)
        requires
            old(mb).map.wf(),
        ensures
            final(mb).map.wf(),
            final(mb).map.width == old(mb).map.width,
            final(mb).map.height == old(mb).map.height,
            only_adds_floor(old(mb).map, final(mb).map),
            forall|yy: int| seg_lo(y1, y2) <= yy <= seg_hi(y1, y2)
                && final(mb).map.spec_in_bounds(x as int, yy)
                ==> #[trigger] final(mb).map.tile_at(final(mb).map.spec_idx(x as int, yy))
                    == TileType::Floor,
            forall|px: int, py: int| final(mb).map.spec_in_bounds(px, py)
                && !(px == x && seg_lo(y1, y2) <= py <= seg_hi(y1, y2))
                ==> #[trigger] final(mb).map.tile_at(final(mb).map.spec_idx(px, py))
                    == old(mb).map.tile_at(old(mb).map.spec_idx(px, py)),
            final(mb).rooms@ == old(mb).rooms@,
            final(mb).monster_spawns@ == old(mb).monster_spawns@,
            final(mb).player_start == old(mb).player_start,
            final(mb).amulet_start == old(mb).amulet_start,
            final(mb).theme == old(mb).theme,
    {
        let lo: i32 = if y1 < y2 { y1 } else { y2 };
        let hi: i32 = if y1 < y2 { y2 } else { y1 };
        let span: i64 = (hi as i64) - (lo as i64);
        let mut k: i64 = 0;
        while k <= span
            invariant
                mb.map.wf(),
                mb.map.width == old(mb).map.width,
                mb.map.height == old(mb).map.height,
                lo == seg_lo(y1, y2),
                hi == seg_hi(y1, y2),
                span == hi - lo,
                0 <= k <= span + 1,
                only_adds_floor(old(mb).map, mb.map),
                forall|yy: int| lo <= yy < lo + k && mb.map.spec_in_bounds(x as int, yy)
                    ==> #[trigger] mb.map.tile_at(mb.map.spec_idx(x as int, yy))
                        == TileType::Floor,
                forall|px: int, py: int| mb.map.spec_in_bounds(px, py)
                    && !(px == x && lo <= py <= hi)
                    ==> #[trigger] mb.map.tile_at(mb.map.spec_idx(px, py))
                        == old(mb).map.tile_at(old(mb).map.spec_idx(px, py)),
                mb.rooms@ == old(mb).rooms@,
                mb.monster_spawns@ == old(mb).monster_spawns@,
                mb.player_start == old(mb).player_start,
                mb.amulet_start == old(mb).amulet_start,
                mb.theme == old(mb).theme,
            decreases span + 1 - k,
        {
            let y: i32 = ((lo as i64) + k) as i32;
            let ghost gb = mb.map;
            mb.map.set(Point { x, y }, TileType::Floor);
            proof {
                if gb.spec_in_bounds(x as int, y as int) {
                    gb.lemma_idx_in_range(x as int, y as int);
                }
                assert forall|yy: int| lo <= yy < lo + k + 1
                    && mb.map.spec_in_bounds(x as int, yy)
                    implies #[trigger] mb.map.tile_at(mb.map.spec_idx(x as int, yy))
                        == TileType::Floor by {
                    gb.lemma_idx_in_range(x as int, yy);
                    if yy < lo + k {
                        assert(gb.tile_at(gb.spec_idx(x as int, yy)) == TileType::Floor);
                    }
                }
                assert forall|px: int, py: int| mb.map.spec_in_bounds(px, py)
                    && !(px == x && lo <= py <= hi)
                    implies #[trigger] mb.map.tile_at(mb.map.spec_idx(px, py))
                        == old(mb).map.tile_at(old(mb).map.spec_idx(px, py)) by {
                    gb.lemma_idx_in_range(px, py);
                    assert(gb.tile_at(gb.spec_idx(px, py))
                        == old(mb).map.tile_at(old(mb).map.spec_idx(px, py)));
                    if gb.spec_in_bounds(x as int, y as int)
                        && gb.spec_idx(px, py) == gb.spec_idx(x as int, y as int) {
                        gb.lemma_idx_injective(px, py, x as int, y as int);
                    }
                }
                assert forall|i: int| 0 <= i < mb.map.tiles@.len()
                    implies #[trigger] mb.map.tile_at(i) == old(mb).map.tile_at(i)
                        || mb.map.tile_at(i) == TileType::Floor by {
                    assert(gb.tile_at(i) == old(mb).map.tile_at(i)
                        || gb.tile_at(i) == TileType::Floor);
                }
            }
            k = k + 1;
        }
    }

    /// Join the rooms pairwise in ascending order of center x-coordinate:
    /// for each consecutive pair a coin flip picks which leg of the
    /// L-shaped corridor is carved first. Afterwards the centers of all
    /// rooms lie in one Floor-connected component: each is reachable
    /// from each.
    pub fn build_corridors(&self, mb: &mut MapBuilder, rng: &mut RandomSource)
        requires
            old(mb).map.wf(),
            forall|k: int| 0 <= k < old(mb).rooms@.len()
                ==> (#[trigger] old(mb).rooms@[k]).wf()
                    && room_interior(old(mb).map, old(mb).rooms@[k]),
        ensures
            final(mb).map.wf(),
            final(mb).map.width == old(mb).map.width,
            final(mb).map.height == old(mb).map.height,
            only_adds_floor(old(mb).map, final(mb).map),
            final(mb).rooms@ == old(mb).rooms@,
            final(mb).monster_spawns@ == old(mb).monster_spawns@,
            final(mb).player_start == old(mb).player_start,
            final(mb).amulet_start == old(mb).amulet_start,
            final(mb).theme == old(mb).theme,
            forall|k1: int, k2: int| 0 <= k1 < final(mb).rooms@.len()
                && 0 <= k2 < final(mb).rooms@.len()
                ==> reachable(final(mb).map,
                    idx_of(final(mb).map, (#[trigger] final(mb).rooms@[k1]).spec_center()),
                    idx_of(final(mb).map, (#[trigger] final(mb).rooms@[k2]).spec_center())),
    {
        let n: usize = mb.rooms.len();
        let mut sorted: Vec<Region> = Vec::new();
        let mut k: usize = 0;
        while k < n
            invariant
                k <= n,
                mb.rooms@.len() == n,
                sorted@.len() == k,
                forall|j: int| 0 <= j < k ==> sorted@[j] == mb.rooms@[j],
            decreases n - k,
        {
            let r = mb.rooms[k];
            sorted.push(r);
            k = k + 1;
        }
        proof {
            assert forall|j: int| 0 <= j < n
                implies sorted@.contains(#[trigger] mb.rooms@[j]) by {
                assert(sorted@[j] == mb.rooms@[j]);
            }
        }
        let mut i: usize = 0;
        while i < n
            invariant
                i <= n,
                mb.rooms@.len() == n,
                sorted@.len() == n,
                mb.map.wf(),
                forall|j: int| 0 <= j < n ==> (#[trigger] sorted@[j]).wf()
                    && room_interior(mb.map, sorted@[j]),
                forall|j: int| 0 <= j < n ==> sorted@.contains(#[trigger] mb.rooms@[j]),
            decreases n - i,
        {
            let mut best: usize = i;
            let mut j: usize = i + 1;
            while j < n
                invariant
                    i <= best < n,
                    i < j,
                    sorted@.len() == n,
                    forall|t: int| 0 <= t < n ==> (#[trigger] sorted@[t]).wf(),
                decreases n - j,
            {
                let cj = sorted[j].center();
                let cb = sorted[best].center();
                if cj.x < cb.x {
                    best = j;
                }
                j = j + 1;
            }
            let ghost sold = sorted@;
            let a = sorted[i];
            let b = sorted[best];
            sorted.set(i, b);
            sorted.set(best, a);
            proof {
                assert forall|jj: int| 0 <= jj < n
                    implies sorted@.contains(#[trigger] mb.rooms@[jj]) by {
                    assert(sold.contains(mb.rooms@[jj]));
                    let t = choose|t: int| 0 <= t < sold.len() && sold[t] == mb.rooms@[jj];
                    if t == i as int {
                        assert(sorted@[best as int] == mb.rooms@[jj]);
                    } else if t == best as int {
                        assert(sorted@[i as int] == mb.rooms@[jj]);
                    } else {
                        assert(sorted@[t] == mb.rooms@[jj]);
                    }
                }
                assert forall|t: int| 0 <= t < n
                    implies (#[trigger] sorted@[t]).wf()
                        && room_interior(mb.map, sorted@[t]) by {
                    if t == i as int {
                        assert(sorted@[t] == sold[best as int]);
                    } else if t == best as int {
                        assert(sorted@[t] == sold[i as int]);
                    } else {
                        assert(sorted@[t] == sold[t]);
                    }
                }
            }
            i = i + 1;
        }
        if n >= 1 {
            proof {
                assert(reachable_in(mb.map,
                    idx_of(mb.map, sorted@[0].spec_center()),
                    idx_of(mb.map, sorted@[0].spec_center()), 0));
            }
            let mut t: usize = 1;
            while t < n
                invariant
                    1 <= t <= n,
                    mb.rooms@.len() == n,
                    sorted@.len() == n,
                    mb.map.wf(),
                    mb.map.width == old(mb).map.width,
                    mb.map.height == old(mb).map.height,
                    only_adds_floor(old(mb).map, mb.map),
                    mb.rooms@ == old(mb).rooms@,
                    mb.monster_spawns@ == old(mb).monster_spawns@,
                    mb.player_start == old(mb).player_start,
                    mb.amulet_start == old(mb).amulet_start,
                    mb.theme == old(mb).theme,
                    forall|j: int| 0 <= j < n ==> (#[trigger] sorted@[j]).wf()
                        && room_interior(mb.map, sorted@[j]),
                    forall|j: int| 0 <= j < n ==> sorted@.contains(#[trigger] mb.rooms@[j]),
                    forall|i1: int, i2: int| 0 <= i1 < t && 0 <= i2 < t
                        ==> reachable(mb.map,
                            idx_of(mb.map, (#[trigger] sorted@[i1]).spec_center()),
                            idx_of(mb.map, (#[trigger] sorted@[i2]).spec_center())),
                decreases n - t,
            {
                let prev = sorted[t - 1].center();
                let new = sorted[t].center();
                let ghost gpre = mb.map;
                if rng.range(0, 2) == 1 {
                    self.apply_horizontal_tunnel(mb, prev.x, new.x, prev.y);
                    let ghost gmid = mb.map;
                    self.apply_vertical_tunnel(mb, prev.y, new.y, new.x);
                    proof {
                        lemma_l_corridor(gpre, gmid, mb.map,
                            prev.x as int, prev.y as int, new.x as int, new.y as int,
                            prev.x, new.x, prev.y, new.y, true);
                    }
                } else {
                    self.apply_vertical_tunnel(mb, prev.y, new.y, prev.x);
                    let ghost gmid = mb.map;
                    self.apply_horizontal_tunnel(mb, prev.x, new.x, new.y);
                    proof {
                        lemma_l_corridor(gpre, gmid, mb.map,
                            prev.x as int, prev.y as int, new.x as int, new.y as int,
                            prev.x, new.x, prev.y, new.y, false);
                    }
                }
                proof {
                    let ai = mb.map.spec_idx(prev.x as int, prev.y as int);
                    let bi = mb.map.spec_idx(new.x as int, new.y as int);
                    assert forall|i1: int, i2: int| 0 <= i1 < t + 1 && 0 <= i2 < t + 1
                        implies reachable(mb.map,
                            idx_of(mb.map, (#[trigger] sorted@[i1]).spec_center()),
                            idx_of(mb.map, (#[trigger] sorted@[i2]).spec_center())) by {
                        assert forall|ii: int| is_floor(gpre, ii)
                            implies is_floor(mb.map, ii) by {
                            assert(mb.map.tile_at(ii) == gpre.tile_at(ii)
                                || mb.map.tile_at(ii) == TileType::Floor);
                        }
                        let c1 = idx_of(mb.map, sorted@[i1].spec_center());
                        let c2 = idx_of(mb.map, sorted@[i2].spec_center());
                        if i1 < t && i2 < t {
                            lemma_reachable_monotone(gpre, mb.map, c1, c2);
                        } else if i1 < t && i2 == t {
                            lemma_reachable_monotone(gpre, mb.map, c1, ai);
                            lemma_reachable_trans(mb.map, c1, ai, bi);
                        } else if i1 == t && i2 < t {
                            lemma_reachable_monotone(gpre, mb.map, ai, c2);
                            lemma_reachable_trans(mb.map, bi, ai, c2);
                        } else {
                            assert(reachable_in(mb.map, bi, bi, 0));
                        }
                    }
                }
                t = t + 1;
            }
            proof {
                assert forall|k1: int, k2: int| 0 <= k1 < mb.rooms@.len()
                    && 0 <= k2 < mb.rooms@.len()
                    implies reachable(mb.map,
                        idx_of(mb.map, (#[trigger] mb.rooms@[k1]).spec_center()),
                        idx_of(mb.map, (#[trigger] mb.rooms@[k2]).spec_center())) by {
                    assert(sorted@.contains(mb.rooms@[k1]));
                    assert(sorted@.contains(mb.rooms@[k2]));
                    let j1 = choose|j: int| 0 <= j < sorted@.len()
                        && sorted@[j] == mb.rooms@[k1];
                    let j2 = choose|j: int| 0 <= j < sorted@.len()
                        && sorted@[j] == mb.rooms@[k2];
                    assert(reachable(mb.map,
                        idx_of(mb.map, sorted@[j1].spec_center()),
                        idx_of(mb.map, sorted@[j2].spec_center())));
                }
            }
        }
    }
}

} // verus!
