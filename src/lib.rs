//! Finds the nearest "notable" number of time units (round, repeated-digit,
//! ascending or descending digit sequences) since or until a reference date,
//! and the earliest calendar date on which such a milestone falls.

pub mod calendar;
pub mod digits;
pub mod finders;
pub mod milestone;
pub mod multi;
pub mod text;
