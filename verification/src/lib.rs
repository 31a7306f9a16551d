//! A verified windowed-pagination core for archiving fixed-granularity
//! time-series bars as one batch per UTC calendar day.
//!
//! The paginator walks an overall millisecond range in bounded page-sized
//! windows, accumulates the records that belong to the day under the cursor,
//! detects day-boundary crossings, and tells its caller when to flush the
//! accumulated batch and under which `(year, month, day)` key. Fetching pages
//! and writing batches are the caller's business; every decision in between is
//! made here and verified.

pub mod days;
pub mod errors;
pub mod laws;
pub mod paginator;
pub mod record;
