pub mod automata;
pub mod builder;
pub mod dijkstra;
pub mod drunkard;
pub mod empty;
pub mod prefab;
pub mod rooms;
pub mod grid;
pub mod region;
pub mod rng;
pub mod themes;

pub use builder::GenError;
pub use builder::MapBuilder;
pub use grid::Grid;
pub use grid::Point;
pub use grid::TileType;
pub use region::Region;
pub use rng::RandomSource;
pub use rooms::RoomsArchitect;
pub use themes::MapTheme;
pub use themes::ThemeKind;
