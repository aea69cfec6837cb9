//! Core of a cycling-flow estimator: a fixed-point geographic coordinate
//! model, a slope- and stress-aware traversal cost model, a weighted
//! directed road network with a binary cache codec, a shortest-path
//! routing engine, and an order-insensitive counts aggregator.
//!
//! All quantities are held as scaled integers so that every result is
//! exact and order-independent: slopes in ten-thousandths of a percent,
//! lengths in millimeters, demand weights in millionths.

pub mod codec;
pub mod cost;
pub mod counts;
pub mod network;
pub mod position;
pub mod router;
pub mod storemap;
pub mod summary;
