use heavy_metal_notifier::model::{Artist, Release};

#[test]
fn test_release_all_fields_to_html_ok() {
    let artist = Artist {
        id: 1,
        name: String::from("Wintersun"),
        genre: Some(String::from("Symphonic Melodic Death Metal")),
        url_bandcamp: Some(String::from("https://wintersun.bandcamp.com")),
        url_metallum: Some(String::from("https://www.metal-archives.com/band/wintersun")),
    };
    let release = Release {
        id: 1,
        year: 2024,
        month: 8,
        day: 31,
        artist_id: 1,
        album: String::from("Time II"),
        release_type: Some(String::from("Full-Length")),
        url_youtube: String::from("https://www.youtube.com"),
        url_metallum: Some(String::from("https://www.metal-archives.com")),
    };

    let got = release.to_html(&artist);

    let want = "<li style=\"margin-bottom: 1rem\"><b>Wintersun - Time II</b><ul><li>Symphonic Melodic Death Metal</li><li>Full-Length</li><li><a href=\"https://www.youtube.com\" target=\"_blank\" class=\"link link-primary visited:link-secondary focus:link-accent\">Youtube</a></li><li><a href=\"https://wintersun.bandcamp.com\" target=\"_blank\" class=\"link link-primary visited:link-secondary focus:link-accent\">Bandcamp</a></li><li><a href=\"https://www.metal-archives.com/band/wintersun\" target=\"_blank\" class=\"link link-primary visited:link-secondary focus:link-accent\">Metallum (band)</a></li><li><a href=\"https://www.metal-archives.com\" target=\"_blank\" class=\"link link-primary visited:link-secondary focus:link-accent\">Metallum (album)</a></li></ul></li>";
    assert_eq!(got, want);
}

#[test]
fn to_html_leaves_out_absent_details() {
    let artist = Artist {
        id: 2,
        name: String::from("Tokyo Blade"),
        genre: None,
        url_bandcamp: None,
        url_metallum: None,
    };
    let release = Release {
        id: 2,
        year: 2025,
        month: 1,
        day: 17,
        artist_id: 2,
        album: String::from("Time Is the Fire"),
        release_type: None,
        url_youtube: String::from("https://www.youtube.com"),
        url_metallum: None,
    };

    let got = release.to_html(&artist);

    let want = "<li style=\"margin-bottom: 1rem\"><b>Tokyo Blade - Time Is the Fire</b><ul><li><a href=\"https://www.youtube.com\" target=\"_blank\" class=\"link link-primary visited:link-secondary focus:link-accent\">Youtube</a></li></ul></li>";
    assert_eq!(got, want);
}
