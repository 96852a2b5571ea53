//! Perfect mazes on a rectangular grid: a grid of cells whose borders start as
//! walls, a randomized depth-first carver that opens a spanning tree of
//! passages, and a fixed-width text rendering.

pub mod maze;
