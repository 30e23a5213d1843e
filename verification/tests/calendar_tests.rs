use heavy_metal_notifier::calendar::{Calendar, MetallumInfo, Month, Release};

fn months() -> [Month; 12] {
    [
        Month::January,
        Month::February,
        Month::March,
        Month::April,
        Month::May,
        Month::June,
        Month::July,
        Month::August,
        Month::September,
        Month::October,
        Month::November,
        Month::December,
    ]
}

#[test]
fn test_release_new_ok() {
    let artist = "Bad Omens";
    let album = "Concrete Jungle";

    let got = Release::new(artist, album);

    assert_eq!(got.artist, artist.to_string());
    assert_eq!(got.album, album.to_string());
    assert!(got.metallum_info.is_none());
}

#[test]
fn test_release_new_artist_with_bracket_ok() {
    let artist = "Bad Omens";
    let album = "Concrete Jungle [remix album]";

    let got = Release::new(artist, album);

    assert_eq!(got.artist, artist.to_string());
    assert_eq!(got.album, "Concrete Jungle".to_string());
    assert!(got.metallum_info.is_none());
}

#[test]
fn test_release_new_with_metallum_ok() {
    let artist = "Norther";
    let album = "Mirror of Madness";
    let artist_link = "https://www.metal-archives.com/bands/Norther/1815";
    let album_link = "https://www.metal-archives.com/albums/Norther/Mirror_of_Madness/18535";
    let release_type = "Full-length";
    let genre = "Melodic Death/Power Metal";

    let got = Release::new(artist, album).with_metallum(artist_link, album_link, release_type, genre);

    assert_eq!(got.artist, artist.to_string());
    assert_eq!(got.album, album.to_string());
    let info = got.metallum_info.expect("metallum info should be present");
    assert_eq!(
        info,
        MetallumInfo {
            artist_link: artist_link.to_string(),
            album_link: album_link.to_string(),
            release_type: release_type.to_string(),
            genre: genre.to_string(),
        }
    );
}

#[test]
fn test_default_calendar_empty_ok() {
    let got = Calendar::new(2024);

    assert_eq!(got.year, 2024);
    for month in months() {
        for day in 0..=255u8 {
            assert!(got.get_releases(month, day).is_none());
        }
    }
}

#[test]
fn test_calendar_add_release_ok() {
    let mut got = Calendar::new(2024);
    let release = Release::new("Wintersun", "Time II");

    got.add_release(Month::August, 30, release.clone());

    assert_eq!(got.get_releases(Month::August, 30), Some(&vec![release]));
    for month in months() {
        for day in 1..=31u8 {
            if month == Month::August && day == 30 {
                continue;
            }
            assert!(got.get_releases(month, day).is_none());
        }
    }
}

#[test]
fn test_calendar_get_releases_ok() {
    let release = Release::new("Wintersun", "Time II");
    let mut calendar = Calendar::new(2024);
    calendar.add_release(Month::August, 30, release.clone());

    let got = calendar.get_releases(Month::August, 30);

    assert_eq!(got, Some(&vec![release]));
}

fn a_calendar() -> Calendar {
    let mut c = Calendar::new(2025);
    c.add_release(Month::January, 1, Release::new("Death Cult 69", "The Way of All Flesh"));
    c.add_release(Month::January, 1, Release::new("Estuarine", "Corporeal Furnace"));
    c.add_release(Month::January, 1, Release::new("Hazzerd", "The 3rd Dimension"));
    c.add_release(Month::January, 3, Release::new("Aeonian Sorrow", "From the Shadows"));
    c.add_release(Month::January, 3, Release::new("Faidra", "Dies Irae"));
    c.add_release(Month::January, 10, Release::new("The Halo Effect", "March of the Unheard"));
    c.add_release(Month::January, 17, Release::new("Grave Digger", "Bone Collector"));
    c.add_release(Month::January, 17, Release::new("Tokyo Blade", "Time Is the Fire"));
    c.add_release(Month::January, 17, Release::new("Pestilent Scars", "Meadows of Misfortune"));
    c.add_release(Month::January, 24, Release::new("Harakiri for the Sky", "Scorched Earth"));
    c.add_release(
        Month::January,
        24,
        Release::new("Avatarium", "Between You, God, the Devil and the Dead"),
    );
    c.add_release(Month::January, 24, Release::new("Wardruna", "Birna"));
    c.add_release(Month::February, 14, Release::new("Atlas Ashes", "New World"));
    c.add_release(Month::February, 14, Release::new("Lacuna Coil", "Sleepless Empire"));
    c.add_release(
        Month::February,
        21,
        Release::new("Defiled Serenity", "Within the Slumber of the Mind"),
    );
    c.add_release(Month::February, 28, Release::new("Dimman", "Consciousness"));
    c.add_release(Month::February, 28, Release::new("Timecode", "La Ruptura Del Equilibrio"));
    c.add_release(Month::March, 28, Release::new("Arch Enemy", "Blood Dynasty"));
    c
}

#[test]
fn test_calendar_merge_ok() {
    let calendar1 = a_calendar();
    let mut calendar2 = Calendar::new(2025);
    calendar2.add_release(Month::January, 1, Release::new("Death Cult 69", "The Way of All Flesh"));
    calendar2.add_release(Month::January, 1, Release::new("Hazzerd", "The 3rd Dimension"));
    calendar2.add_release(Month::January, 3, Release::new("Faidra", "Dies Irae"));
    calendar2.add_release(
        Month::January,
        24,
        Release::new("Harakiri for the Sky", "Scorched Earth"),
    );
    calendar2.add_release(Month::January, 24, Release::new("Wardruna", "Birna"));
    calendar2.add_release(Month::February, 14, Release::new("Lacuna Coil", "Sleepless Empire"));
    calendar2.add_release(Month::February, 28, Release::new("Dimman", "Consciousness"));
    calendar2.add_release(
        Month::February,
        28,
        Release::new("Timecode", "La Ruptura Del Equilibrio"),
    );
    calendar2.add_release(Month::March, 28, Release::new("Arch Enemy", "Blood Dynasty"));

    let got = calendar1.merge(&calendar2);

    // Every release of calendar2 already stands in calendar1, so the merge
    // holds exactly what calendar1 holds, in the same order.
    let want = calendar1;
    for month in months() {
        for day in 1..=31u8 {
            assert_eq!(got.get_releases(month, day), want.get_releases(month, day));
        }
    }
}

#[test]
fn dedup_within_a_day() {
    let mut c = Calendar::new(2024);
    let release = Release::new("Wintersun", "Time II");

    c.add_release(Month::August, 30, release.clone());
    c.add_release(Month::August, 30, release.clone());

    assert_eq!(c.get_releases(Month::August, 30), Some(&vec![release]));
}

#[test]
fn merge_with_itself_is_identity() {
    let a = a_calendar();

    let merged = a.merge(&a);

    for month in months() {
        for day in 1..=31u8 {
            assert_eq!(merged.get_releases(month, day), a.get_releases(month, day));
        }
    }
}

#[test]
fn merge_keeps_entries_differing_only_in_metadata() {
    let mut a = Calendar::new(2024);
    a.add_release(Month::October, 9, Release::new("X", "Y"));
    let mut b = Calendar::new(2024);
    b.add_release(
        Month::October,
        9,
        Release::new("X", "Y").with_metallum("artist-link", "album-link", "Full-length", "Doom Metal"),
    );

    let merged = a.merge(&b);

    let releases = merged.get_releases(Month::October, 9).expect("day should exist");
    assert_eq!(releases.len(), 2);
    assert!(releases[0].metallum_info.is_none());
    assert!(releases[1].metallum_info.is_some());
}

#[test]
fn normalization_collapses_whitespace_and_cuts_brackets() {
    let got = Release::new("Foo", "Foo   Bar [Live]");
    assert_eq!(got.album, "Foo Bar");

    // Normalizing an already-normalized title changes nothing.
    let again = Release::new("Foo", &got.album);
    assert_eq!(again.album, "Foo Bar");

    let tabs = Release::new("Foo", "  A\t\tB\nC  ");
    assert_eq!(tabs.album, "A B C");

    let leading_bracket = Release::new("Foo", "[remix] Title");
    assert_eq!(leading_bracket.album, "");
}
