//! Finds the files of a directory tree that changed recently.
//!
//! A walk hands this crate one record per file: its path and its
//! last-modification stamp in whole seconds since the Unix epoch.
//! Records at or after a threshold stamp are kept, grouped by exact
//! stamp, and reported in ascending stamp order; within one stamp the
//! discovery order is kept. The threshold itself is the current time
//! less a configurable duration.

mod seq_facts;
pub mod report;
pub mod laws;
pub mod localtime;
