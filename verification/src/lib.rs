//! A belt transport and production logistics simulation.
//!
//! Discrete item tokens move tile-by-tile along conveyor belt segments,
//! hand off between segments with direction-aware entry offsets, respect
//! capacity and back-pressure, and interface with periodic producers
//! (miners) and capacity-limited consumers (inventories).
//!
//! Progress of a token along its segment is a fixed-point scalar:
//! `0` is the segment's entry and [`belts::PROGRESS_SCALE`] its exit.
//!
//! - [`direction`] and [`map`]: the tile grid, orientations, tile types and
//!   the direction math resolving a segment's downstream neighbor.
//! - [`belts`]: belt segments and their ordering invariant.
//! - [`inventory`]: capacity-limited stack stores.
//! - [`mine`]: timer-driven producers.
//! - [`buildings`]: building kinds, resolved footprint templates, and the
//!   construction and demolition request events.
//! - [`world`]: the owned simulation state, its per-tick passes, and the
//!   token-conservation accounting.
//! - [`queue`]: the trusted interface to the capacity-bounded vector that
//!   backs belt queues and inventory slots.

pub mod belts;
pub mod buildings;
pub mod direction;
pub mod inventory;
pub mod map;
pub mod mine;
pub mod queue;
pub mod world;
