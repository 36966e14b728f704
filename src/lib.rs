//! Grid path planning: rasterize a scene of rectangular obstacles into a grid
//! of unit cells and search it for a shortest four-directional path.
pub mod cell;
pub mod error;
pub mod raster;
pub mod search;

pub use cell::{d, Cell};
pub use error::MazeError;
pub use raster::Maze;
pub use search::Grid;
