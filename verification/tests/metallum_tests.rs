use std::cell::Cell;

use heavy_metal_notifier::calendar::{MetallumInfo, Month, Release};
use heavy_metal_notifier::client::{Client, MetallumReleases};
use heavy_metal_notifier::dates::Date;
use heavy_metal_notifier::metallum::{parse_release_date, scrape, MetallumReleaseParts};
use heavy_metal_notifier::Error;

fn row(artist: &str, album: &str, kind: &str, genre: &str, date: &str) -> Vec<String> {
    vec![
        artist.to_string(),
        album.to_string(),
        kind.to_string(),
        genre.to_string(),
        date.to_string(),
        String::new(),
    ]
}

#[test]
fn parse_release_date_reads_ordinal_dates() {
    assert_eq!(
        parse_release_date("October 9th, 2024"),
        Some(Date { year: 2024, month: Month::October, day: 9 })
    );
    assert_eq!(
        parse_release_date("January 2nd, 2025"),
        Some(Date { year: 2025, month: Month::January, day: 2 })
    );
    assert_eq!(
        parse_release_date("March 1st, 2025"),
        Some(Date { year: 2025, month: Month::March, day: 1 })
    );
    assert_eq!(
        parse_release_date("April 3rd, 2025"),
        Some(Date { year: 2025, month: Month::April, day: 3 })
    );
}

#[test]
fn parse_release_date_keeps_month_names_intact() {
    // The ordinal suffix belongs to the day number: stripping it must not
    // touch the "st" inside "August".
    assert_eq!(
        parse_release_date("August 1st, 2025"),
        Some(Date { year: 2025, month: Month::August, day: 1 })
    );
    assert_eq!(
        parse_release_date("August 21st, 2026"),
        Some(Date { year: 2026, month: Month::August, day: 21 })
    );
}

#[test]
fn parse_release_date_rejects_bad_dates() {
    assert_eq!(parse_release_date("February 30th, 2025"), None);
    assert_eq!(parse_release_date("Octembruary 9th, 2024"), None);
    assert_eq!(parse_release_date("October 2024"), None);
    assert_eq!(parse_release_date(""), None);
}

#[test]
fn from_release_decodes_a_full_row() {
    let cells = row(
        "<a href=\"https://archive.example/bands/Norther/1815\">Norther</a>",
        "<a href=\"https://archive.example/albums/Norther/Mirror_of_Madness/18535\">Mirror of Madness</a>",
        "Full-length",
        "Melodic Death/Power Metal",
        "October 9th, 2024",
    );

    let parts = MetallumReleaseParts::from_release(&cells).unwrap();

    assert_eq!(parts.artist, "Norther");
    assert_eq!(parts.artist_link, "https://archive.example/bands/Norther/1815");
    assert_eq!(parts.album, "Mirror of Madness");
    assert_eq!(
        parts.album_link,
        "https://archive.example/albums/Norther/Mirror_of_Madness/18535"
    );
    assert_eq!(parts.release_type, "Full-length");
    assert_eq!(parts.genre, "Melodic Death/Power Metal");
    assert_eq!(parts.release_date, Date { year: 2024, month: Month::October, day: 9 });
}

#[test]
fn from_release_joins_split_release_artists() {
    let cells = row(
        "<a href=\"https://archive.example/bands/A/1\">First</a> / <a href=\"https://archive.example/bands/B/2\">Second</a>",
        "<a href=\"https://archive.example/albums/A/S/3\">Split</a>",
        "Split",
        "Black Metal",
        "January 17th, 2025",
    );

    let parts = MetallumReleaseParts::from_release(&cells).unwrap();

    assert_eq!(parts.artist, "First / Second");
    assert_eq!(parts.artist_link, "https://archive.example/bands/A/1");
}

#[test]
fn from_release_reports_missing_items_and_bad_dates() {
    assert!(matches!(
        MetallumReleaseParts::from_release(&vec!["only one cell".to_string()]),
        Err(Error::NoItem)
    ));
    let no_anchor = row("no anchor here", "<a href=\"x\">Album</a>", "", "", "October 9th, 2024");
    assert!(matches!(MetallumReleaseParts::from_release(&no_anchor), Err(Error::NoItem)));
    let bad_date = row(
        "<a href=\"a\">Artist</a>",
        "<a href=\"b\">Album</a>",
        "",
        "",
        "not a date",
    );
    assert!(matches!(MetallumReleaseParts::from_release(&bad_date), Err(Error::ParseFail)));
}

struct PagedClient {
    pages: Vec<Vec<Vec<String>>>,
    calls: Cell<usize>,
}

impl Client for PagedClient {
    fn get_calendar(&self, _year: i32) -> Result<String, Error> {
        Err(Error::RequestFail)
    }

    fn get_bandcamp_link(&self, _artist: &str) -> Option<String> {
        None
    }

    fn fetch_metallum(&self, page: u16) -> Option<MetallumReleases> {
        self.calls.set(self.calls.get() + 1);
        let data = self.pages.get(page as usize)?.clone();
        if data.is_empty() {
            None
        } else {
            Some(MetallumReleases {
                total_records: data.len() as i32,
                total_display_records: data.len() as i32,
                data,
            })
        }
    }
}

#[test]
fn pagination_stops_at_the_first_empty_page() {
    let page = vec![row(
        "<a href=\"https://archive.example/bands/Faidra/1\">Faidra</a>",
        "<a href=\"https://archive.example/albums/Faidra/Dies_Irae/2\">Dies Irae</a>",
        "Full-length",
        "Atmospheric Black Metal",
        "January 3rd, 2025",
    )];
    let client = PagedClient { pages: vec![page.clone(), page, vec![]], calls: Cell::new(0) };

    let calendar = scrape(&client, 2025).unwrap();

    assert_eq!(client.calls.get(), 3);
    let releases = calendar.get_releases(Month::January, 3).expect("day should exist");
    assert_eq!(releases.len(), 1);
}

#[test]
fn rows_outside_the_requested_year_are_excluded() {
    let page = vec![
        row(
            "<a href=\"https://archive.example/bands/A/1\">Hazzerd</a>",
            "<a href=\"https://archive.example/albums/A/D/2\">The 3rd Dimension</a>",
            "Full-length",
            "Thrash Metal",
            "January 17th, 2025",
        ),
        row(
            "<a href=\"https://archive.example/bands/B/3\">Fyrgast</a>",
            "<a href=\"https://archive.example/albums/B/F/4\">Frozen in time</a>",
            "Single",
            "Black Metal",
            "October 11th, 2024",
        ),
    ];
    let client = PagedClient { pages: vec![page, vec![]], calls: Cell::new(0) };

    let calendar = scrape(&client, 2025).unwrap();

    assert!(calendar.get_releases(Month::October, 11).is_none());
    let releases = calendar.get_releases(Month::January, 17).expect("day should exist");
    assert_eq!(
        releases,
        &vec![Release::new("Hazzerd", "The 3rd Dimension").with_metallum(
            "https://archive.example/bands/A/1",
            "https://archive.example/albums/A/D/2",
            "Full-length",
            "Thrash Metal",
        )]
    );
}

#[test]
fn archive_fixture_builds_expected_calendar() {
    let page = vec![
        row(
            "<a href=\"https://www.metal-archives.com/bands/Death_Cult_69/3540500536\">Death Cult 69</a>",
            "<a href=\"https://www.metal-archives.com/albums/Death_Cult_69/The_Way_of_All_Flesh/1279066\">The Way of All Flesh</a>",
            "Full-length",
            "Doom Metal",
            "January 1st, 2025",
        ),
        row(
            "<a href=\"https://www.metal-archives.com/bands/Hazzerd/3540393393\">Hazzerd</a>",
            "<a href=\"https://www.metal-archives.com/albums/Hazzerd/The_3rd_Dimension/1280443\">The 3rd Dimension</a>",
            "Full-length",
            "Thrash Metal",
            "January 17th, 2025",
        ),
        row(
            "<a href=\"https://www.metal-archives.com/bands/Faidra/3540461589\">Faidra</a>",
            "<a href=\"https://www.metal-archives.com/albums/Faidra/Dies_Irae/1279060\">Dies Irae</a>",
            "Full-length",
            "Atmospheric Black Metal",
            "January 3rd, 2025",
        ),
    ];
    let client = PagedClient { pages: vec![page, vec![]], calls: Cell::new(0) };

    let calendar = scrape(&client, 2025).unwrap();

    assert_eq!(calendar.year, 2025);
    assert_eq!(
        calendar.get_releases(Month::January, 1),
        Some(&vec![Release {
            artist: "Death Cult 69".to_string(),
            album: "The Way of All Flesh".to_string(),
            metallum_info: Some(MetallumInfo {
                artist_link: "https://www.metal-archives.com/bands/Death_Cult_69/3540500536"
                    .to_string(),
                album_link:
                    "https://www.metal-archives.com/albums/Death_Cult_69/The_Way_of_All_Flesh/1279066"
                        .to_string(),
                release_type: "Full-length".to_string(),
                genre: "Doom Metal".to_string(),
            }),
        }])
    );
    assert_eq!(
        calendar.get_releases(Month::January, 17),
        Some(&vec![Release::new("Hazzerd", "The 3rd Dimension").with_metallum(
            "https://www.metal-archives.com/bands/Hazzerd/3540393393",
            "https://www.metal-archives.com/albums/Hazzerd/The_3rd_Dimension/1280443",
            "Full-length",
            "Thrash Metal",
        )])
    );
    assert_eq!(
        calendar.get_releases(Month::January, 3),
        Some(&vec![Release::new("Faidra", "Dies Irae").with_metallum(
            "https://www.metal-archives.com/bands/Faidra/3540461589",
            "https://www.metal-archives.com/albums/Faidra/Dies_Irae/1279060",
            "Full-length",
            "Atmospheric Black Metal",
        )])
    );
}
