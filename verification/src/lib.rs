//! Single-linkage clustering of points in 3-D integer space: the edges between
//! the points in ascending order of distance, the forest of clusters that grows
//! edge by edge, and the two answers read off it. Beside it stand two smaller
//! utilities: indicator lights toggled by buttons, and rectangles between tiles.

pub mod circuit;
pub mod drivers;
pub mod edges;
pub mod graph;
pub mod jbox;
pub mod laws;
pub mod machine;
pub mod parse;
pub mod sizes;
pub mod spanning;
pub mod tiles;
