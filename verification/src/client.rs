//! The source-client interface: what the extractors ask of the outside
//! world. Implementations do the fetching; the engine only consumes plain
//! values.

use vstd::prelude::*;

use crate::Error;

verus! {

/// One page of the archive source's paginated upcoming-releases listing: a
/// table of rows, each row an ordered list of text or HTML-fragment cells.
#[derive(Debug)]
pub struct MetallumReleases {
    pub total_records: i32,
    pub total_display_records: i32,
    pub data: Vec<Vec<String>>,
}

/// A source of wiki documents and archive pages. The engine states nothing
/// about what a fetch returns: every outcome is handled.
pub trait Client {
    /// The wiki page for `year`, as an HTML document body.
    fn get_calendar(&self, year: i32) -> Result<String, Error>;

    /// A presence probe for an artist's own page, yielding its address.
    fn get_bandcamp_link(&self, artist: &str) -> Option<String>;

    /// Page `page` of the archive listing, or nothing when the data is
    /// exhausted.
    fn fetch_metallum(&self, page: u16) -> Option<MetallumReleases>;
}

} // verus!
