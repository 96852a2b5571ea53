//! The maze data model, the carver and the rendering.

pub mod carve;
pub mod coordinate;
pub mod graph;
pub mod grid;
pub mod random;
pub mod render;

pub use carve::RecursiveBacktrack;
pub use coordinate::Coordinate;
pub use grid::{Border, Cell, Grid, GridError, GridView, HorizontalVertical, State};
