use vstd::prelude::*;

use crate::automata::CellularAutomataArchitect;
use crate::dijkstra::col;
use crate::dijkstra::distance_field;
use crate::dijkstra::farthest_index;
use crate::dijkstra::is_floor;
use crate::dijkstra::reachable;
use crate::dijkstra::row;
use crate::dijkstra::spec_dist;
use crate::dijkstra::valid_idx;
use crate::dijkstra::UNREACHABLE;
use crate::drunkard::DrunkardsWalkArchitect;
use crate::grid::dist2;
use crate::grid::Grid;
use crate::grid::Point;
use crate::grid::TileType;
use crate::prefab::apply_prefab;
use crate::region::spec_overlap;
use crate::region::Region;
use crate::rng::next_state;
use crate::rng::RandomSource;
use crate::rooms::RoomsArchitect;
use crate::themes::ThemeKind;

verus! {

broadcast use vstd::seq_lib::lemma_seq_contains_after_push;

/// How one level-generation attempt can fail. Failures are reported to
/// the caller, never raised as a fatal condition.
#[derive(Clone, Copy, PartialEq, Eq, Structural, Debug)]
pub enum GenError {
    /// The rooms architect could not place its target number of
    /// non-overlapping rooms within the attempt ceiling.
    RoomPlacement,
    /// A stage needed a Floor cell and the grid holds none.
    NoFloor,
}

/// Number of monster spawn points requested per level.
pub const NUM_MONSTERS: usize = 50;

/// Squared minimum Euclidean distance between the player start and any
/// monster spawn point (the threshold distance is 10 units).
pub const MIN_SPAWN_DIST2: i64 = 100;

/// The aggregate result of level generation: the tile grid, the rooms
/// carved (in discovery order; empty for non-room architects), the player
/// start, the goal ("amulet") point, the monster spawn points, and the
/// visual theme.
pub struct MapBuilder {
    pub map: Grid,
    pub rooms: Vec<Region>,
    pub monster_spawns: Vec<Point>,
    pub player_start: Point,
    pub amulet_start: Point,
    pub theme: ThemeKind,
}

/// The cell index a point addresses.
pub open spec fn idx_of(g: Grid, p: Point) -> int {
    g.spec_idx(p.x as int, p.y as int)
}

/// The point addressing a cell index.
pub open spec fn point_at(g: Grid, i: int) -> Point {
    Point { x: col(g, i) as i32, y: row(g, i) as i32 }
}

/// A cell qualifies as a spawn candidate when it is a Floor cell strictly
/// farther than the threshold distance from the player start.
pub open spec fn is_candidate(g: Grid, start: Point, i: int) -> bool {
    is_floor(g, i) && dist2(point_at(g, i), start) > MIN_SPAWN_DIST2
}

/// How many of the first `upto` cell indices qualify as spawn candidates.
pub open spec fn candidate_count(g: Grid, start: Point, upto: int) -> int
    decreases upto,
{
    if upto <= 0 {
        0
    } else {
        candidate_count(g, start, upto - 1) + if is_candidate(g, start, upto - 1) {
            1int
        } else {
            0int
        }
    }
}

impl MapBuilder {
    /// The grid is well formed and the recorded start and goal points
    /// address cells inside it.
    pub open spec fn wf(self) -> bool {
        &&& self.map.wf()
        &&& self.map.spec_in_bounds(self.player_start.x as int, self.player_start.y as int)
        &&& self.map.spec_in_bounds(self.amulet_start.x as int, self.amulet_start.y as int)
    }

    /// The player start addresses a Floor tile.
    pub open spec fn start_on_floor(self) -> bool {
        &&& self.map.spec_in_bounds(self.player_start.x as int, self.player_start.y as int)
        &&& self.map.tile_at_point(self.player_start) == TileType::Floor
    }

    /// Every monster spawn point addresses a Floor tile strictly farther
    /// than the threshold from the player start, and no two are equal.
    pub open spec fn spawns_ok(self) -> bool {
        &&& forall|k: int| 0 <= k < self.monster_spawns@.len() ==> {
            let p = #[trigger] self.monster_spawns@[k];
            &&& self.map.spec_in_bounds(p.x as int, p.y as int)
            &&& self.map.tile_at_point(p) == TileType::Floor
            &&& dist2(p, self.player_start) > MIN_SPAWN_DIST2
        }
        &&& forall|k1: int, k2: int| 0 <= k1 < k2 < self.monster_spawns@.len()
            ==> self.monster_spawns@[k1] != self.monster_spawns@[k2]
    }

    /// The rooms are pairwise non-overlapping and each lies fully within
    /// the grid.
    pub open spec fn rooms_ok(self) -> bool {
        &&& forall|k: int| 0 <= k < self.rooms@.len()
            ==> (#[trigger] self.rooms@[k]).wf() && self.rooms@[k].spec_in_grid(self.map)
        &&& forall|k1: int, k2: int| 0 <= k1 < k2 < self.rooms@.len()
            ==> !spec_overlap(self.rooms@[k1], self.rooms@[k2])
    }

    /// The goal is reachable from the player start by Floor-to-Floor
    /// steps.
    pub open spec fn amulet_reachable(self) -> bool {
        reachable(self.map, idx_of(self.map, self.player_start), idx_of(self.map, self.amulet_start))
    }

    /// The goal is the reachable cell at greatest shortest-walk distance
    /// from the player start, the lowest cell index winning ties.
    pub open spec fn amulet_is_farthest(self) -> bool {
        let s = idx_of(self.map, self.player_start);
        let m = idx_of(self.map, self.amulet_start);
        &&& forall|c: int| valid_idx(self.map, c) && reachable(self.map, s, c)
            ==> #[trigger] spec_dist(self.map, s, c) <= spec_dist(self.map, s, m)
        &&& forall|c: int| 0 <= c < m && reachable(self.map, s, c)
            ==> #[trigger] spec_dist(self.map, s, c) < spec_dist(self.map, s, m)
    }

    /// Set every cell of the grid to the given kind; reading any cell
    /// afterwards returns exactly that kind. No other field changes.
    pub fn fill(&mut self, tile: TileType)
        requires
            old(self).map.wf(),
        ensures
            final(self).map.wf(),
            final(self).map.width == old(self).map.width,
            final(self).map.height == old(self).map.height,
            final(self).map.tiles@.len() == old(self).map.tiles@.len(),
            forall|i: int| 0 <= i < final(self).map.tiles@.len()
                ==> final(self).map.tile_at(i) == tile,
            final(self).rooms@ == old(self).rooms@,
            final(self).monster_spawns@ == old(self).monster_spawns@,
            final(self).player_start == old(self).player_start,
            final(self).amulet_start == old(self).amulet_start,
            final(self).theme == old(self).theme,
    {
        self.map.fill(tile);
    }

    /// The goal point: the reachable cell at greatest shortest-walk
    /// distance from the player start, the lowest cell index winning
    /// ties. When nothing beyond the start is reachable this degenerates
    /// to the start itself.
    pub fn find_most_distant(&self) -> (p: Point)
        requires
            self.map.wf(),
            self.map.spec_in_bounds(self.player_start.x as int, self.player_start.y as int),
        ensures
            self.map.spec_in_bounds(p.x as int, p.y as int),
            reachable(self.map, idx_of(self.map, self.player_start), idx_of(self.map, p)),
            forall|c: int| valid_idx(self.map, c)
                && reachable(self.map, idx_of(self.map, self.player_start), c)
                ==> spec_dist(self.map, idx_of(self.map, self.player_start), c)
                    <= spec_dist(self.map, idx_of(self.map, self.player_start),
                        idx_of(self.map, p)),
            forall|c: int| 0 <= c < idx_of(self.map, p)
                && reachable(self.map, idx_of(self.map, self.player_start), c)
                ==> spec_dist(self.map, idx_of(self.map, self.player_start), c)
                    < spec_dist(self.map, idx_of(self.map, self.player_start),
                        idx_of(self.map, p)),
    {
        let s = self.map.try_idx(self.player_start).unwrap();
        let dist = distance_field(&self.map, s);
        proof {
            assert(dist@[s as int] != UNREACHABLE);
        }
        let m = farthest_index(&dist);
        let p = self.map.point_of(m);
        proof {
            let si = s as int;
            let mi = m as int;
            assert(dist@[mi] == spec_dist(self.map, si, mi));
            assert forall|c: int| valid_idx(self.map, c) && reachable(self.map, si, c)
                implies spec_dist(self.map, si, c) <= spec_dist(self.map, si, mi) by {
                assert(dist@[c] != UNREACHABLE);
                assert(dist@[c] == spec_dist(self.map, si, c));
                assert(dist@[c] <= dist@[mi]);
            }
            assert forall|c: int| 0 <= c < mi && reachable(self.map, si, c)
                implies spec_dist(self.map, si, c) < spec_dist(self.map, si, mi) by {
                assert(valid_idx(self.map, c));
                assert(dist@[c] != UNREACHABLE);
                assert(dist@[c] == spec_dist(self.map, si, c));
                assert(dist@[c] < dist@[mi]);
            }
        }
        p
    }

    /// The spawn candidate points, in ascending index order: every Floor
    /// cell strictly farther than the threshold from `start`.
    fn spawn_candidates(&self, start: &Point) -> (cands: Vec<Point>)
        requires
            self.map.wf(),
            self.map.spec_in_bounds(start.x as int, start.y as int),
        ensures
            cands@.len() == candidate_count(self.map, *start, self.map.tiles@.len() as int),
            forall|k: int| 0 <= k < cands@.len() ==> {
                let p = #[trigger] cands@[k];
                &&& self.map.spec_in_bounds(p.x as int, p.y as int)
                &&& self.map.tile_at_point(p) == TileType::Floor
                &&& dist2(p, *start) > MIN_SPAWN_DIST2
            },
            forall|k1: int, k2: int| 0 <= k1 < k2 < cands@.len() ==> cands@[k1] != cands@[k2],
    {
        let n: usize = self.map.tiles.len();
        let mut cands: Vec<Point> = Vec::new();
        let mut i: usize = 0;
        while i < n
            invariant
                self.map.wf(),
                self.map.spec_in_bounds(start.x as int, start.y as int),
                self.map.tiles@.len() == n,
                i <= n,
                cands@.len() == candidate_count(self.map, *start, i as int),
                forall|k: int| 0 <= k < cands@.len() ==> {
                    let p = #[trigger] cands@[k];
                    &&& self.map.spec_in_bounds(p.x as int, p.y as int)
                    &&& self.map.tile_at_point(p) == TileType::Floor
                    &&& dist2(p, *start) > MIN_SPAWN_DIST2
                },
                forall|k1: int, k2: int| 0 <= k1 < k2 < cands@.len()
                    ==> idx_of(self.map, cands@[k1]) < idx_of(self.map, cands@[k2]),
                forall|k: int| 0 <= k < cands@.len()
                    ==> idx_of(self.map, #[trigger] cands@[k]) < i,
            decreases n - i,
        {
            let p = self.map.point_of(i);
            proof {
                self.map.lemma_idx_decompose(i as int);
                self.map.lemma_idx_injective(
                    p.x as int, p.y as int,
                    col(self.map, i as int), row(self.map, i as int));
                assert(p == point_at(self.map, i as int));
            }
            if self.map.tiles[i] == TileType::Floor {
                let dx: i64 = (p.x as i64) - (start.x as i64);
                let dy: i64 = (p.y as i64) - (start.y as i64);
                proof {
                    assert(dx * dx <= 0x1_0000_0000) by (nonlinear_arith)
                        requires
                            -0x10000 <= dx <= 0x10000,
                    ;
                    assert(dy * dy <= 0x1_0000_0000) by (nonlinear_arith)
                        requires
                            -0x10000 <= dy <= 0x10000,
                    ;
                    assert(0 <= dx * dx) by (nonlinear_arith);
                    assert(0 <= dy * dy) by (nonlinear_arith);
                }
                if dx * dx + dy * dy > MIN_SPAWN_DIST2 {
                    cands.push(p);
                }
            }
            proof {
                assert(candidate_count(self.map, *start, i + 1) ==
                    candidate_count(self.map, *start, i as int)
                    + if is_candidate(self.map, *start, i as int) { 1int } else { 0int });
            }
            i = i + 1;
        }
        cands
    }

    /// Draw up to `NUM_MONSTERS` spawn points without replacement from
    /// the candidate set. When the candidate set is smaller than the
    /// request, every candidate is returned (a capped result) rather than
    /// failing.
    pub fn spawn_monsters(&self, start: &Point, rng: &mut RandomSource) -> (spawns: Vec<Point>)
        requires
            self.map.wf(),
            self.map.spec_in_bounds(start.x as int, start.y as int),
        ensures
            spawns@.len() <= NUM_MONSTERS,
            spawns@.len() == if candidate_count(self.map, *start, self.map.tiles@.len() as int)
                >= NUM_MONSTERS {
                NUM_MONSTERS as int
            } else {
                candidate_count(self.map, *start, self.map.tiles@.len() as int)
            },
            forall|k: int| 0 <= k < spawns@.len() ==> {
                let p = #[trigger] spawns@[k];
                &&& self.map.spec_in_bounds(p.x as int, p.y as int)
                &&& self.map.tile_at_point(p) == TileType::Floor
                &&& dist2(p, *start) > MIN_SPAWN_DIST2
            },
            forall|k1: int, k2: int| 0 <= k1 < k2 < spawns@.len() ==> spawns@[k1] != spawns@[k2],
    {
        proof {
            self.map.lemma_len_bound();
            lemma_candidate_count_bound(self.map, *start, self.map.tiles@.len() as int);
        }
        let mut pool = self.spawn_candidates(start);
        let ghost cands0 = pool@;
        let mut spawns: Vec<Point> = Vec::new();
        while spawns.len() < NUM_MONSTERS && pool.len() > 0
            invariant
                spawns@.len() <= NUM_MONSTERS,
                spawns@.len() + pool@.len() == cands0.len(),
                pool@.len() <= 0x4000_0000,
                forall|k1: int, k2: int| 0 <= k1 < k2 < pool@.len() ==> pool@[k1] != pool@[k2],
                forall|k1: int, k2: int| 0 <= k1 < k2 < spawns@.len()
                    ==> spawns@[k1] != spawns@[k2],
                forall|k1: int, k2: int| 0 <= k1 < spawns@.len() && 0 <= k2 < pool@.len()
                    ==> spawns@[k1] != pool@[k2],
                forall|k: int| 0 <= k < spawns@.len() ==> cands0.contains(#[trigger] spawns@[k]),
                forall|k: int| 0 <= k < pool@.len() ==> cands0.contains(#[trigger] pool@[k]),
            decreases pool@.len(),
        {
            let ti = rng.random_index(pool.len());
            let ghost poolb = pool@;
            let p = pool[ti];
            spawns.push(p);
            pool.swap_remove(ti);
            proof {
                assert(pool@ == poolb.update(ti as int, poolb.last()).drop_last());
                assert forall|k: int| 0 <= k < pool@.len()
                    implies cands0.contains(#[trigger] pool@[k]) by {
                    if k == ti as int {
                        assert(pool@[k] == poolb[poolb.len() - 1]);
                    } else {
                        assert(pool@[k] == poolb[k]);
                    }
                }
                assert forall|k: int| 0 <= k < pool@.len()
                    implies pool@[k] != p by {
                    if k == ti as int {
                        assert(pool@[k] == poolb[poolb.len() - 1]);
                    } else {
                        assert(pool@[k] == poolb[k]);
                    }
                }
                assert forall|k1: int, k2: int| 0 <= k1 < k2 < pool@.len()
                    implies pool@[k1] != pool@[k2] by {
                    assert(pool@[k1] == if k1 == ti as int { poolb[poolb.len() - 1] } else { poolb[k1] });
                    assert(pool@[k2] == if k2 == ti as int { poolb[poolb.len() - 1] } else { poolb[k2] });
                }
            }
        }
        proof {
            assert forall|k: int| 0 <= k < spawns@.len() implies {
                let p = #[trigger] spawns@[k];
                &&& self.map.spec_in_bounds(p.x as int, p.y as int)
                &&& self.map.tile_at_point(p) == TileType::Floor
                &&& dist2(p, *start) > MIN_SPAWN_DIST2
            } by {
                assert(cands0.contains(spawns@[k]));
                let j = choose|j: int| 0 <= j < cands0.len() && cands0[j] == spawns@[k];
            }
        }
        spawns
    }
}

/// At most `upto` of the first `upto` cells can qualify as candidates.
proof fn lemma_candidate_count_bound(g: Grid, start: Point, upto: int)
    requires
        0 <= upto,
    ensures
        candidate_count(g, start, upto) <= upto,
    decreases upto,
{
    if upto > 0 {
        lemma_candidate_count_bound(g, start, upto - 1);
    }
}

/// Ceiling on orchestrator retries after a failed generation attempt.
pub const MAX_GEN_ATTEMPTS: usize = 8;

/// Linear membership test over a point list.
fn contains_point(v: &Vec<Point>, p: Point) -> (r: bool)
    ensures
        r == v@.contains(p),
{
    let n: usize = v.len();
    let mut i: usize = 0;
    while i < n
        invariant
            i <= n,
            v@.len() == n,
            forall|j: int| 0 <= j < i ==> v@[j] != p,
        decreases n - i,
    {
        if v[i] == p {
            proof {
                assert(v@[i as int] == p);
            }
            return true;
        }
        i = i + 1;
    }
    false
}

/// An anchor qualifies as a spawn point: it addresses a Floor tile
/// strictly farther than the threshold from the player start.
pub open spec fn anchor_ok(g: Grid, start: Point, p: Point) -> bool {
    &&& g.spec_in_bounds(p.x as int, p.y as int)
    &&& g.tile_at_point(p) == TileType::Floor
    &&& dist2(p, start) > MIN_SPAWN_DIST2
}

/// How many of the first `upto` anchors qualify and are each the first
/// occurrence of their point: the number of distinct surviving anchors.
pub open spec fn distinct_ok_count(g: Grid, start: Point, anchors: Seq<Point>, upto: int) -> int
    decreases upto,
{
    if upto <= 0 {
        0
    } else {
        distinct_ok_count(g, start, anchors, upto - 1)
            + if anchor_ok(g, start, anchors[upto - 1])
                && !anchors.subrange(0, upto - 1).contains(anchors[upto - 1]) {
                1int
            } else {
                0int
            }
    }
}

/// Reconcile recorded spawn anchors against the finished grid: keep, up
/// to the requested count, the anchors that address a Floor tile
/// strictly farther than the threshold from the player start, without
/// duplicates. Exactly min(`NUM_MONSTERS`, distinct qualifying anchors)
/// are returned, and below the cap every qualifying anchor survives.
fn filter_spawn_anchors(g: &Grid, start: &Point, anchors: &Vec<Point>) -> (spawns: Vec<Point>)
    requires
        g.wf(),
        g.spec_in_bounds(start.x as int, start.y as int),
    ensures
        spawns@.len() <= NUM_MONSTERS,
        forall|k: int| 0 <= k < spawns@.len() ==> {
            let p = #[trigger] spawns@[k];
            &&& g.spec_in_bounds(p.x as int, p.y as int)
            &&& g.tile_at_point(p) == TileType::Floor
            &&& dist2(p, *start) > MIN_SPAWN_DIST2
            &&& anchors@.contains(p)
        },
        forall|k1: int, k2: int| 0 <= k1 < k2 < spawns@.len() ==> spawns@[k1] != spawns@[k2],
        spawns@.len() == (if distinct_ok_count(*g, *start, anchors@, anchors@.len() as int)
            >= NUM_MONSTERS {
            NUM_MONSTERS as int
        } else {
            distinct_ok_count(*g, *start, anchors@, anchors@.len() as int)
        }),
        forall|j: int| 0 <= j < anchors@.len()
            && anchor_ok(*g, *start, #[trigger] anchors@[j])
            && distinct_ok_count(*g, *start, anchors@, anchors@.len() as int) <= NUM_MONSTERS
            ==> spawns@.contains(anchors@[j]),
{
    let n: usize = anchors.len();
    let mut spawns: Vec<Point> = Vec::new();
    let mut i: usize = 0;
    while i < n
        invariant
            g.wf(),
            g.spec_in_bounds(start.x as int, start.y as int),
            anchors@.len() == n,
            i <= n,
            spawns@.len() <= NUM_MONSTERS,
            spawns@.len() == (if distinct_ok_count(*g, *start, anchors@, i as int)
                >= NUM_MONSTERS {
                NUM_MONSTERS as int
            } else {
                distinct_ok_count(*g, *start, anchors@, i as int)
            }),
            forall|j: int| 0 <= j < i && anchor_ok(*g, *start, #[trigger] anchors@[j])
                && distinct_ok_count(*g, *start, anchors@, i as int) <= NUM_MONSTERS
                ==> spawns@.contains(anchors@[j]),
            forall|q: Point| spawns@.contains(q)
                ==> anchors@.subrange(0, i as int).contains(q),
            forall|k: int| 0 <= k < spawns@.len() ==> {
                let p = #[trigger] spawns@[k];
                &&& g.spec_in_bounds(p.x as int, p.y as int)
                &&& g.tile_at_point(p) == TileType::Floor
                &&& dist2(p, *start) > MIN_SPAWN_DIST2
                &&& anchors@.contains(p)
            },
            forall|k1: int, k2: int| 0 <= k1 < k2 < spawns@.len()
                ==> spawns@[k1] != spawns@[k2],
        decreases n - i,
    {
        let p = anchors[i];
        let ghost spb = spawns@;
        let ghost cnt_i = distinct_ok_count(*g, *start, anchors@, i as int);
        proof {
            assert(distinct_ok_count(*g, *start, anchors@, i + 1)
                == cnt_i + if anchor_ok(*g, *start, anchors@[i as int])
                    && !anchors@.subrange(0, i as int).contains(anchors@[i as int]) {
                    1int
                } else {
                    0int
                });
        }
        let mut qualifies: bool = false;
        if spawns.len() < NUM_MONSTERS {
            let on_floor = match g.get(p) {
                Some(t) => t == TileType::Floor,
                None => false,
            };
            if on_floor {
                let dx: i64 = (p.x as i64) - (start.x as i64);
                let dy: i64 = (p.y as i64) - (start.y as i64);
                proof {
                    assert(dx * dx <= 0x1_0000_0000) by (nonlinear_arith)
                        requires
                            -0x10000 <= dx <= 0x10000,
                    ;
                    assert(dy * dy <= 0x1_0000_0000) by (nonlinear_arith)
                        requires
                            -0x10000 <= dy <= 0x10000,
                    ;
                    assert(0 <= dx * dx) by (nonlinear_arith);
                    assert(0 <= dy * dy) by (nonlinear_arith);
                }
                if dx * dx + dy * dy > MIN_SPAWN_DIST2 && !contains_point(&spawns, p) {
                    spawns.push(p);
                    qualifies = true;
                    proof {
                        assert(anchors@[i as int] == p);
                        assert(anchors@.contains(p));
                        // p is a first occurrence: an earlier equal anchor
                        // would already be in the list
                        if anchors@.subrange(0, i as int).contains(p) {
                            let jj = choose|jj: int| 0 <= jj < i
                                && anchors@.subrange(0, i as int)[jj] == p;
                            assert(anchors@[jj] == p);
                            assert(anchor_ok(*g, *start, anchors@[jj]));
                            assert(cnt_i < NUM_MONSTERS);
                            assert(spb.contains(p));
                        }
                        assert(distinct_ok_count(*g, *start, anchors@, i + 1) == cnt_i + 1);
                    }
                }
            }
        }
        proof {
            let cnt_n = distinct_ok_count(*g, *start, anchors@, i + 1);
            if !qualifies {
                // the count rises only when a new qualifying first
                // occurrence was skipped for the cap
                if cnt_n == cnt_i + 1 {
                    assert(anchor_ok(*g, *start, anchors@[i as int]));
                    assert(spb.len() == NUM_MONSTERS);
                }
            }
            assert forall|j: int| 0 <= j < i + 1 && anchor_ok(*g, *start, #[trigger] anchors@[j])
                && cnt_n <= NUM_MONSTERS
                implies spawns@.contains(anchors@[j]) by {
                if j < i {
                    assert(cnt_i <= cnt_n);
                    assert(spb.contains(anchors@[j]));
                } else {
                    if !qualifies {
                        if anchors@.subrange(0, i as int).contains(p) {
                            let jj = choose|jj: int| 0 <= jj < i
                                && anchors@.subrange(0, i as int)[jj] == p;
                            assert(anchors@[jj] == p);
                            assert(anchor_ok(*g, *start, anchors@[jj]));
                            assert(spawns@.contains(anchors@[jj]));
                        } else {
                            assert(cnt_n == cnt_i + 1);
                            assert(spb.len() == NUM_MONSTERS);
                            assert(cnt_i >= NUM_MONSTERS);
                            assert(false);
                        }
                    } else {
                        assert(spawns@[spawns@.len() - 1] == p);
                    }
                }
            }
            assert forall|q: Point| spawns@.contains(q)
                implies anchors@.subrange(0, i + 1).contains(q) by {
                if spb.contains(q) {
                    let jj = choose|jj: int| 0 <= jj < i
                        && anchors@.subrange(0, i as int)[jj] == q;
                    assert(anchors@.subrange(0, i + 1)[jj] == q);
                } else {
                    assert(q == p);
                    assert(anchors@.subrange(0, i + 1)[i as int] == p);
                }
            }
        }
        i = i + 1;
    }
    spawns
}

impl MapBuilder {
    /// Build one level: pick an architect uniformly from the rooms,
    /// drunkard's-walk and cellular-automata variants, run it, stamp the
    /// prefab overlay, place the goal at the farthest reachable cell from
    /// the player start, pick a theme uniformly, and place the monster
    /// spawn points. A failed attempt is retried with fresh random draws
    /// a bounded number of times before the failure is surfaced.
    pub fn new(width: usize, height: usize, rng: &mut RandomSource)
        -> (r: Result<MapBuilder, GenError>)
        requires
            12 <= width <= 0x8000,
            12 <= height <= 0x8000,
        ensures
            match r {
                Ok(mb) => {
                    &&& mb.map.wf()
                    &&& mb.map.width == width
                    &&& mb.map.height == height
                    &&& mb.wf()
                    &&& mb.start_on_floor()
                    &&& mb.spawns_ok()
                    &&& mb.monster_spawns@.len() <= NUM_MONSTERS
                    &&& mb.rooms_ok()
                    &&& mb.amulet_reachable()
                    &&& mb.amulet_is_farthest()
                },
                Err(e) => e == GenError::RoomPlacement || e == GenError::NoFloor,
            },
            // success is owed at least whenever the first architect draw
            // selects the drunkard's walk, which never fails
            (next_state(old(rng).state) as int) % 3 == 0 ==> r is Ok,
    {
        let mut last_err = GenError::RoomPlacement;
        let mut attempt: usize = 0;
        while attempt < MAX_GEN_ATTEMPTS
            invariant
                12 <= width <= 0x8000,
                12 <= height <= 0x8000,
                last_err == GenError::RoomPlacement || last_err == GenError::NoFloor,
                attempt == 0 ==> rng.state == old(rng).state,
                attempt > 0 ==> (next_state(old(rng).state) as int) % 3 != 0,
            decreases MAX_GEN_ATTEMPTS - attempt,
        {
            let pick = rng.range(0, 3);
            let built: Result<MapBuilder, GenError> = if pick == 0 {
                Ok(DrunkardsWalkArchitect {}.new(width, height, rng))
            } else if pick == 1 {
                RoomsArchitect {}.new(width, height, rng)
            } else {
                CellularAutomataArchitect {}.new(width, height, rng)
            };
            match built {
                Ok(mut mb) => {
                    apply_prefab(&mut mb, rng);
                    mb.amulet_start = mb.find_most_distant();
                    let theme_roll = rng.range(0, 2);
                    mb.theme = if theme_roll == 0 {
                        ThemeKind::Dungeon
                    } else {
                        ThemeKind::Forest
                    };
                    let start = mb.player_start;
                    let spawns = if mb.monster_spawns.len() > 0 {
                        filter_spawn_anchors(&mb.map, &start, &mb.monster_spawns)
                    } else {
                        mb.spawn_monsters(&start, rng)
                    };
                    mb.monster_spawns = spawns;
                    return Ok(mb);
                },
                Err(e) => {
                    last_err = e;
                },
            }
            attempt = attempt + 1;
        }
        Err(last_err)
    }
}

/// The first Floor cell of the grid in index order, or `NoFloor` when
/// the grid holds no Floor cell at all.
pub fn first_floor_index(g: &Grid) -> (r: Result<usize, GenError>)
    requires
        g.wf(),
    ensures
        match r {
            Ok(i) => i < g.tiles@.len() && g.tile_at(i as int) == TileType::Floor
                && forall|j: int| 0 <= j < i ==> g.tile_at(j) != TileType::Floor,
            Err(e) => e == GenError::NoFloor
                && forall|j: int| 0 <= j < g.tiles@.len() ==> g.tile_at(j) != TileType::Floor,
        },
{
    let n: usize = g.tiles.len();
    let mut i: usize = 0;
    while i < n
        invariant
            i <= n,
            g.tiles@.len() == n,
            forall|j: int| 0 <= j < i ==> g.tile_at(j) != TileType::Floor,
        decreases n - i,
    {
        if g.tiles[i] == TileType::Floor {
            return Ok(i);
        }
        i = i + 1;
    }
    Err(GenError::NoFloor)
}

} // verus!
