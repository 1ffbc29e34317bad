//! Decision logic of a UDP proxy that smooths bursty Art-Net output.

pub mod artnet;
pub mod binary64;
pub mod config;
pub mod duration;
pub mod engine;
pub mod float_bounds;
pub mod intervals;
pub mod pacing;
pub mod proxy;
pub mod receive;
pub mod slots;
pub mod stats;
pub mod text;
pub mod universes;
