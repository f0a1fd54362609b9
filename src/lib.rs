//! Tile streaming and residency engine for a multi-resolution sky viewer.
//!
//! - `cell`: hierarchical cell addresses.
//! - `source`: tile sources and tile URLs.
//! - `index`: the wanted cells of a view.
//! - `queue`: deduplicated, prioritised requests.
//! - `request`: fetch workers.
//! - `number`, `decode`, `encode`: tile payloads and their calibration.
//! - `buffer`: typed pixel buffers.
//! - `cache`: the slot table of resident tiles.
//! - `texture`: the texture array that backs the slots.
//! - `layer`, `engine`: one layer's state, and the set of layers.
//! - `schedule`: debounce and timeout decisions.
//! - `executor`: cooperative background jobs.
//! - `label`: grid label placement.
pub mod cell;
pub mod source;
pub mod cache;
pub mod queue;
pub mod number;
pub mod decode;
pub mod units;
pub mod encode;
pub mod index;
pub mod layer;
pub mod engine;
pub mod texture;
pub mod buffer;
pub mod label;
pub mod request;
pub mod executor;
pub mod schedule;
