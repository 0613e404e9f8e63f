//! The parts of the pipeline, from reading lines to listing the table.

pub mod text;
pub mod calendar;
pub mod data;
pub mod io;
pub mod analysis;
pub mod display;
