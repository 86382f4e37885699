use vstd::prelude::*;

use crate::builder::MapBuilder;
use crate::grid::Grid;
use crate::grid::Point;
use crate::grid::TileType;
use crate::themes::ThemeKind;

verus! {

/// The trivial baseline architect: an all-Floor grid with the player
/// start at the grid center. It is not part of the orchestrator's random
/// selection pool.
pub struct EmptyArchitect {}

impl EmptyArchitect {
    pub fn new(&self, width: usize, height: usize) -> (mb: MapBuilder)
        requires
            1 <= width <= 0x8000,
            1 <= height <= 0x8000,
        ensures
            mb.map.wf(),
            mb.map.width == width,
            mb.map.height == height,
            mb.wf(),
            mb.start_on_floor(),
            forall|i: int| 0 <= i < mb.map.tiles@.len() ==> mb.map.tile_at(i) == TileType::Floor,
            mb.player_start == (Point { x: (width / 2) as i32, y: (height / 2) as i32 }),
            mb.amulet_start == mb.player_start,
            mb.rooms@.len() == 0,
            mb.monster_spawns@.len() == 0,
    {
        let mut mb = MapBuilder {
            map: Grid::new(width, height),
            rooms: Vec::new(),
            monster_spawns: Vec::new(),
            player_start: Point::zero(),
            amulet_start: Point::zero(),
            theme: ThemeKind::Dungeon,
        };
        mb.fill(TileType::Floor);
        let center = Point::new((width / 2) as i32, (height / 2) as i32);
        mb.player_start = center;
        mb.amulet_start = center;
        proof {
            mb.map.lemma_idx_in_range(center.x as int, center.y as int);
        }
        mb
    }
}

} // verus!
