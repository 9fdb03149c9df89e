//! Finds Unix timestamps embedded in text and rewrites each one as a calendar
//! date and time.
//!
//! A timestamp is a run of decimal digits that stands alone, starts with `1`
//! and is ten digits long (seconds since the epoch) or thirteen (milliseconds).
//! Everything else in the text is left exactly as it was.
//!
//! Dates are shown in UTC or in a local zone. The library does not look up
//! the zone of the machine: the caller says how far the local zone is ahead
//! of UTC, once for all moments or by a function that is asked for each
//! timestamp.

pub mod args;
pub mod chars;
pub mod scan;
pub mod splice;
pub mod calendar;
pub mod colour;
pub mod filter;
pub mod rewriting;
