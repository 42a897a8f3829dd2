//! Fortune's sweep-line construction of planar Voronoi diagrams, as a verified
//! combinatorial engine.
//!
//! Sites are named by their index in the caller's list. Every numeric question
//! the sweep asks (which side of a breakpoint a new site falls on, where and
//! whether three arcs collapse, the height of an event) is answered by the
//! caller, so that this crate holds no floating-point arithmetic. The engine
//! owns the beachline tree, the event queue and the event loop, and reports the
//! Voronoi edges it traces in terms of the sites that define their endpoints.

pub mod beachline;
pub mod edges;
pub mod events;
pub mod sweep;
mod tree;

pub use beachline::{Arc, Beachline, BeachlineData, BeachlineEntry, BreakPoint, Vertex};
pub use edges::{join_edges, Edge};
pub use events::{Event, EventQueue};
pub use sweep::{fortunes_sweep, Diagram};
