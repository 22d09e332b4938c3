//! Date detection and ISO conversion.
pub mod calendar;
pub mod formats;
pub mod parser;
