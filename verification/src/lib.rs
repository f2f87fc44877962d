//! A grid maze with walls, locked doors, collectible keys and exits, and a
//! verified breadth-first search for the shortest path from a start cell to
//! any exit, honouring key pickup and door unlocking.

pub mod field;
pub mod graph;
pub mod state;
pub mod maze;
pub mod search;
pub mod laws;
pub mod utilities;
