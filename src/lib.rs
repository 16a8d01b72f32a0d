//! Integer core of an agent-based epidemic simulator: bounding boxes, ASCII
//! maps with their greedy rectangle cover, road intersections and route
//! planning, shuffled assignment vectors, the shopper's plan, and the
//! per-person disease state machine.

pub mod city;
pub mod cover;
pub mod disease;
pub mod geometry;
pub mod maps;
pub mod routes;
pub mod shopper;
pub mod text;
pub mod types;
pub mod utils;
pub mod world;
