pub mod model;
pub mod randsrc;
pub mod solver;
pub mod tileset;

pub use model::Frame;
pub use model::Rule;
pub use model::Tile;
pub use model::WfcError;
pub use solver::WFC;
pub use tileset::Tileset;
