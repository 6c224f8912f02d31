//! Core of a Monte-Carlo generator of synthetic detector events: the
//! spatial-binning image engine (variable-edge 2-D histogram with a
//! stride-3 per-sensor downsampling rule), event assembly, and the exact
//! text row format with a verified round trip.
//!
//! Floating-point sampling and transport, configuration loading and file
//! output live outside this library; they hand plain values in and take
//! plain values back.

pub mod config;
pub mod event;
pub mod fixed;
pub mod image;
pub mod rows;
pub mod numerals;
pub mod select;
