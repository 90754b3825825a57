//! Shortest round trips through a garden maze: from the entry, collect at least one herb
//! of every letter that grows there and come back.
//!
//! `garden` reads the grid and answers adjacency questions; `direct` searches the whole
//! (herbs left, position) space breadth first; `graph` condenses the maze into a weighted
//! graph over herb cells and the entry; `compressed` runs a uniform-cost search over it.
pub mod compressed;
pub mod direct;
pub mod garden;
pub mod graph;
pub mod routes;
