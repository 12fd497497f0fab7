pub mod board;
pub mod cell;
pub mod classify;
pub mod color;
pub mod coord;
pub mod error;
pub mod explore;
pub mod find;
pub mod image;
pub mod keycomb;
pub mod maze;
pub mod potential;
pub mod progress;
pub mod region;
pub mod registry;
pub mod route;
pub mod search;
pub mod select;
pub mod walk;

pub use cell::{Pixel, PixelType};
pub use color::Color;
pub use coord::Coord;
pub use error::{MazeError, MazeErrorKind, MazeResult};
pub use keycomb::{keycomb_eq, keycomb_set, keycomb_unset, start_key_comb, KeyComb};
pub use maze::Maze;
