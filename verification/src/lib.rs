//! A grid pathfinding engine: an A* shortest-path search over a boolean
//! obstacle mask, together with the interaction state machine that decides,
//! from derived input events, when a recomputation must run.
//!
//! Rendering, camera transforms and raw input polling are external
//! collaborators; the library consumes only derived input events and
//! produces plain data for a presentation layer to draw.

pub mod cell;
pub mod grid;
pub mod search;
pub mod control;
pub mod laws;
