//! A verified core for a per-day bullet-journal store.
//!
//! The library covers three concerns: the day-keyed document store
//! (one JSON file per calendar date), the one-shot migration of a
//! legacy calendar-event map into the per-day todo model, and the
//! validated preference store (zoom level and dark-mode flag).
//! All functions here are pure: they turn file contents into values
//! and values into file contents. The surrounding binary does the
//! actual reading, writing and renaming, and maps its failures to
//! [`StoreError::IoError`].

pub mod chars;
pub mod date;
pub mod day;
pub mod json;
pub mod laws;
pub mod migrate;
pub mod prefs;
pub mod stamp;
pub mod zoom;

use vstd::prelude::*;

verus! {

/// The error vocabulary of the store.
#[derive(Debug)]
pub enum StoreError {
    /// The caller handed in something malformed: a date string that is
    /// not a strict `YYYY-MM-DD` key, or a zoom value that is not a
    /// finite number.
    InvalidInput(String),
    /// A backing file exists but does not parse into the expected
    /// shape.
    CorruptData(String),
    /// The surrounding binary could not read, write or rename a file.
    /// The core itself never produces this variant.
    IoError(String),
}

impl StoreError {
    /// The human-readable message carried by the error.
    pub fn message(&self) -> (r: String)
        ensures
            match self {
                StoreError::InvalidInput(m) => r@ == m@,
                StoreError::CorruptData(m) => r@ == m@,
                StoreError::IoError(m) => r@ == m@,
            },
    {
        match self {
            StoreError::InvalidInput(m) => m.clone(),
            StoreError::CorruptData(m) => m.clone(),
            StoreError::IoError(m) => m.clone(),
        }
    }
}

} // verus!
