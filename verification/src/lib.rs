//! Best-first path search over rectangular grids of typed cells.
//!
//! [`grid::Grid2D`] stores the cells and answers bounds-checked spatial
//! queries; [`a_star::shortest_path`] searches it for a cheapest
//! 8-connected route between two cells, with [`frontier::Frontier`] as its
//! open set. [`route`] says what a route is and what it costs.

pub mod a_star;
pub mod ext;
pub mod frontier;
pub mod grid;
pub mod route;
