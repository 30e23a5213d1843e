//! A release-calendar engine for heavy metal album announcements.
//!
//! Two independent sources are read: an encyclopedic wiki page whose
//! announcements sit in per-month HTML tables, and a paginated JSON archive
//! whose cells embed HTML fragments. Each source yields a [`calendar::Calendar`]
//! for one year; the two calendars are then merged into a single de-duplicated
//! one.

use vstd::prelude::*;

pub mod calendar;
pub mod client;
pub mod config;
pub mod dates;
pub mod metallum;
pub mod model;
pub mod text;
pub mod web;
pub mod wiki;

verus! {

/// The ways an extraction can fail.
///
/// Row-level failures (`NoItem`, `ParseFail`, `ScraperFail`) are scoped to a
/// single archive row, which is skipped; only a failure to obtain a source
/// document at all is surfaced to the caller.
#[derive(Debug, Clone, PartialEq, Eq)]
pub enum Error {
    /// An environment variable needed by the configuration is absent or empty.
    MissingEnv(&'static str),
    /// A source document could not be fetched.
    RequestFail,
    /// An HTML fragment could not be examined.
    ScraperFail,
    /// An expected cell or anchor was absent from an archive row.
    NoItem,
    /// A date or number in a row could not be parsed.
    ParseFail,
}

} // verus!
