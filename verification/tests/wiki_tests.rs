use heavy_metal_notifier::calendar::{Month, Release};
use heavy_metal_notifier::client::{Client, MetallumReleases};
use heavy_metal_notifier::wiki::{extract_calendar, scrape};
use heavy_metal_notifier::Error;

struct FixtureClient {
    body: String,
}

impl Client for FixtureClient {
    fn get_calendar(&self, _year: i32) -> Result<String, Error> {
        Ok(self.body.clone())
    }

    fn get_bandcamp_link(&self, _artist: &str) -> Option<String> {
        None
    }

    fn fetch_metallum(&self, _page: u16) -> Option<MetallumReleases> {
        None
    }
}

struct FailingClient;

impl Client for FailingClient {
    fn get_calendar(&self, _year: i32) -> Result<String, Error> {
        Err(Error::RequestFail)
    }

    fn get_bandcamp_link(&self, _artist: &str) -> Option<String> {
        None
    }

    fn fetch_metallum(&self, _page: u16) -> Option<MetallumReleases> {
        None
    }
}

#[test]
fn row_state_carries_across_rows() {
    let doc = "<html><body>\
        <table id=\"table_January\"><tbody>\
        <tr><td>5</td><td>ArtistA</td><td>AlbumP</td></tr>\
        <tr><td>AlbumQ</td></tr>\
        <tr><td>ArtistB</td><td>AlbumR</td></tr>\
        </tbody></table>\
        </body></html>";

    let calendar = extract_calendar(doc, 2022);

    assert_eq!(calendar.year, 2022);
    let releases = calendar
        .get_releases(Month::January, 5)
        .expect("day 5 should exist");
    assert_eq!(
        releases,
        &vec![
            Release::new("ArtistA", "AlbumP"),
            Release::new("ArtistA", "AlbumQ"),
            Release::new("ArtistB", "AlbumR"),
        ]
    );
}

#[test]
fn wiki_fixture_builds_expected_calendar() {
    let doc = "<html><body>\
        <table id=\"table_January\"><tbody>\
        <tr><td>Day</td><td>Artist</td><td>Album</td></tr>\
        <tr><td>14</td><td>Atrocity</td><td>Unspoken Names (Demo 1991) (EP)</td></tr>\
        <tr><td>Infected Rain</td><td>Ecdysis</td></tr>\
        <tr><td>21</td><td>Schwarzer Engel</td><td>Sieben</td></tr>\
        <tr><td>Fit for an Autopsy</td><td>Oh What the Future Holds</td></tr>\
        </tbody></table>\
        <table id=\"table_Febuary\"><tbody>\
        <tr><td>Day</td><td>Artist</td><td>Album</td></tr>\
        <tr><td>11</td><td>Ilium</td><td>Quantum Evolution Event (EP)</td></tr>\
        <tr><td>Shadow of Intent</td><td>Elegy</td></tr>\
        </tbody></table>\
        <table id=\"table_March\"><tbody>\
        <tr><td>4</td><td>Eric Wagner</td><td>In the Lonely Light of Mourning</td></tr>\
        </tbody></table>\
        </body></html>";

    let calendar = extract_calendar(doc, 2022);

    assert_eq!(calendar.year, 2022);
    assert_eq!(
        calendar.get_releases(Month::January, 14),
        Some(&vec![
            Release::new("Atrocity", "Unspoken Names (Demo 1991) (EP)"),
            Release::new("Infected Rain", "Ecdysis"),
        ])
    );
    assert_eq!(
        calendar.get_releases(Month::January, 21),
        Some(&vec![
            Release::new("Schwarzer Engel", "Sieben"),
            Release::new("Fit for an Autopsy", "Oh What the Future Holds"),
        ])
    );
    assert_eq!(
        calendar.get_releases(Month::February, 11),
        Some(&vec![
            Release::new("Ilium", "Quantum Evolution Event (EP)"),
            Release::new("Shadow of Intent", "Elegy"),
        ])
    );
    assert_eq!(
        calendar.get_releases(Month::March, 4),
        Some(&vec![Release::new(
            "Eric Wagner",
            "In the Lonely Light of Mourning"
        )])
    );
    assert!(calendar.get_releases(Month::April, 1).is_none());
}

#[test]
fn november_selector_with_two_tables_feeds_october() {
    let doc = "<html><body>\
        <table id=\"table_November\"><tbody>\
        <tr><td>7</td><td>ArtistO</td><td>AlbumO</td></tr>\
        </tbody></table>\
        <table id=\"table_November\"><tbody>\
        <tr><td>21</td><td>ArtistN</td><td>AlbumN</td></tr>\
        </tbody></table>\
        </body></html>";

    let calendar = extract_calendar(doc, 2024);

    assert_eq!(
        calendar.get_releases(Month::October, 7),
        Some(&vec![Release::new("ArtistO", "AlbumO")])
    );
    assert_eq!(
        calendar.get_releases(Month::November, 21),
        Some(&vec![Release::new("ArtistN", "AlbumN")])
    );
}

#[test]
fn header_placeholder_rows_emit_nothing() {
    let doc = "<html><body>\
        <table id=\"table_June\"><tbody>\
        <tr><td>Day</td><td>Artist</td><td>Album</td></tr>\
        </tbody></table>\
        </body></html>";

    let calendar = extract_calendar(doc, 2023);

    for day in 1..=31u8 {
        assert!(calendar.get_releases(Month::June, day).is_none());
    }
}

#[test]
fn garbled_document_yields_empty_calendar() {
    let calendar = extract_calendar("<p>nothing here", 2024);
    for day in 1..=31u8 {
        assert!(calendar.get_releases(Month::January, day).is_none());
    }
}

#[test]
fn state_carries_across_tables() {
    // The second table has no day row of its own: its single-cell row uses
    // the day and artist carried over from the first table.
    let doc = "<html><body>\
        <table id=\"table_January\"><tbody>\
        <tr><td>9</td><td>ArtistA</td><td>AlbumP</td></tr>\
        </tbody></table>\
        <table id=\"table_February\"><tbody>\
        <tr><td>AlbumQ</td></tr>\
        </tbody></table>\
        </body></html>";

    let calendar = extract_calendar(doc, 2022);

    assert_eq!(
        calendar.get_releases(Month::February, 9),
        Some(&vec![Release::new("ArtistA", "AlbumQ")])
    );
}

#[test]
fn scrape_uses_the_fetched_document() {
    let client = FixtureClient {
        body: "<html><body>\
            <table id=\"table_May\"><tbody>\
            <tr><td>12</td><td>ArtistM</td><td>AlbumM</td></tr>\
            </tbody></table>\
            </body></html>"
            .to_string(),
    };

    let calendar = scrape(&client, 2024).unwrap();

    assert_eq!(calendar.year, 2024);
    assert_eq!(
        calendar.get_releases(Month::May, 12),
        Some(&vec![Release::new("ArtistM", "AlbumM")])
    );
}

#[test]
fn scrape_propagates_a_fetch_failure() {
    let result = scrape(&FailingClient, 2024);
    assert!(matches!(result, Err(Error::RequestFail)));
}
