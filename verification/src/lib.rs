//! Core of a personal activity-tracking daemon: an append-only log of
//! timestamped category observations is turned into a bounded, smoothed,
//! per-category time series suitable for plotting.
//!
//! The library covers the log-line format, the bounded backward-seek
//! retrieval of the recent log suffix, the decay-smoothing aggregation
//! that produces one weighted series per category, and the small pieces
//! of text assembly around them.  File handling, configuration loading
//! and rendering live outside the library and exchange plain values with
//! it.
#![verifier::loop_isolation(false)]

pub mod error;

pub mod weights;

pub mod date;

pub mod chars;

pub mod entry;

pub mod aggregate;

pub mod scan;

pub mod rules;

pub mod text;
