//! Landfall analysis of storm tracks, on plain integer data.
//!
//! Instants are whole seconds since 1970-01-01T00:00:00Z, positions are
//! whole millionths of a degree, wind speeds are whole knots.  Everything the
//! pipeline decides is stated here over those values; measuring positions
//! against a region, reading input and rendering output are the caller's.

pub mod pipeline;
pub mod startup;
