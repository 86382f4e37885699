use vstd::prelude::*;

use crate::grid::TileType;

verus! {

/// The theme attached to a finished level. It is chosen once by the
/// orchestrator and never changes afterwards; it only affects rendering.
#[derive(Clone, Copy, PartialEq, Eq, Structural, Debug)]
pub enum ThemeKind {
    Dungeon,
    Forest,
}

/// The pure glyph mapping: each theme maps every tile kind to one fixed
/// visual code point.
pub open spec fn spec_glyph(theme: ThemeKind, t: TileType) -> u16 {
    match theme {
        ThemeKind::Dungeon => match t {
            TileType::Floor => 46u16,
            TileType::Wall => 35u16,
            TileType::Exit => 62u16,
        },
        ThemeKind::Forest => match t {
            TileType::Floor => 59u16,
            TileType::Wall => 34u16,
            TileType::Exit => 62u16,
        },
    }
}

impl ThemeKind {
    /// Look up the glyph this theme renders the given tile kind with.
    pub fn tile_to_render(&self, tile_type: TileType) -> (r: u16)
        ensures
            r == spec_glyph(*self, tile_type),
    {
        match self {
            ThemeKind::Dungeon => match tile_type {
                TileType::Floor => 46,
                TileType::Wall => 35,
                TileType::Exit => 62,
            },
            ThemeKind::Forest => match tile_type {
                TileType::Floor => 59,
                TileType::Wall => 34,
                TileType::Exit => 62,
            },
        }
    }
}

/// A visual theme: a pure lookup from tile kind to glyph. Implementations
/// fix the lookup with `spec_render` and must return exactly it.
pub trait MapTheme {
    spec fn spec_render(&self, tile_type: TileType) -> u16;

    fn tile_to_render(&self, tile_type: TileType) -> (r: u16)
        ensures
            r == self.spec_render(tile_type),
    ;
}

pub struct DungeonTheme {}

pub struct ForestTheme {}

impl MapTheme for DungeonTheme {
    open spec fn spec_render(&self, tile_type: TileType) -> u16 {
        spec_glyph(ThemeKind::Dungeon, tile_type)
    }

    fn tile_to_render(&self, tile_type: TileType) -> (r: u16) {
        ThemeKind::Dungeon.tile_to_render(tile_type)
    }
}

impl MapTheme for ForestTheme {
    open spec fn spec_render(&self, tile_type: TileType) -> u16 {
        spec_glyph(ThemeKind::Forest, tile_type)
    }

    fn tile_to_render(&self, tile_type: TileType) -> (r: u16) {
        ThemeKind::Forest.tile_to_render(tile_type)
    }
}

} // verus!
