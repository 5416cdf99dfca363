//! Index structures and integer algorithms for querying MRI pulse sequences.
//!
//! A pulse sequence is stored either as a list of timed blocks or as waveforms
//! on a fixed raster. This library holds what a query engine for both needs
//! and what can be said in integers: decoding and packing of raster waveforms
//! (`shape`, `pack`), reading the files that hold them (`dsv`, `text`),
//! detecting and looking up the active intervals of a raster channel
//! (`trigger`, `raster`), looking blocks up by time (`blocks`) and collecting
//! events one by one (`events`). Times in seconds, amplitudes and angles are
//! left to the caller.

pub mod blocks;
pub mod dsv;
pub mod events;
pub mod pack;
pub mod raster;
pub mod shape;
pub mod text;
pub mod trigger;
pub mod types;

pub use types::{EventType, GradientChannel};
