//! Plain records of the stored entities — artists and their stored releases —
//! and the HTML rendering of one stored release. The storage itself is an
//! external collaborator; these records carry what its rows hold.

use vstd::prelude::*;

verus! {

/// An artist as the store keeps it.
#[derive(Debug)]
pub struct Artist {
    pub id: i32,
    pub name: String,
    pub genre: Option<String>,
    pub url_bandcamp: Option<String>,
    pub url_metallum: Option<String>,
}

/// A stored release: one album tied to an artist and a date.
#[derive(Debug)]
pub struct Release {
    pub id: i32,
    pub year: i32,
    pub month: i32,
    pub day: i32,
    pub artist_id: i32,
    pub album: String,
    pub release_type: Option<String>,
    pub url_youtube: String,
    pub url_metallum: Option<String>,
}

/// One optional detail line of the rendered list.
pub open spec fn spec_detail_line(v: Option<String>) -> Seq<char> {
    match v {
        Some(s) => "<li>"@ + s@ + "</li>"@,
        None => Seq::<char>::empty(),
    }
}

/// One link line of the rendered list; `label` names the target.
pub open spec fn spec_link_line(url: Seq<char>, label: Seq<char>) -> Seq<char> {
    "<li><a href=\""@ + url
        + "\" target=\"_blank\" class=\"link link-primary visited:link-secondary focus:link-accent\">"@
        + label + "</a></li>"@
}

/// The link line for `url` when it is known, and nothing otherwise.
pub open spec fn spec_opt_link_line(url: Option<String>, label: Seq<char>) -> Seq<char> {
    match url {
        Some(u) => spec_link_line(u@, label),
        None => Seq::<char>::empty(),
    }
}

/// The list item that `to_html` renders: the artist and album in bold, then
/// a nested list of the genre and release type when present, a link to the
/// video site, and links to the artist's and the release's pages when known.
pub open spec fn spec_to_html(r: Release, a: Artist) -> Seq<char> {
    "<li style=\"margin-bottom: 1rem\"><b>"@ + a.name@ + " - "@ + r.album@ + "</b>"@ + "<ul>"@
        + spec_detail_line(a.genre) + spec_detail_line(r.release_type) + spec_link_line(
        r.url_youtube@,
        "Youtube"@,
    ) + spec_opt_link_line(a.url_bandcamp, "Bandcamp"@) + spec_opt_link_line(
        a.url_metallum,
        "Metallum (band)"@,
    ) + spec_opt_link_line(r.url_metallum, "Metallum (album)"@) + "</ul></li>"@
}

/// Appends one detail line, or nothing when the detail is absent.
fn append_detail(html: &mut String, v: &Option<String>)
    ensures
        final(html)@ == old(html)@ + spec_detail_line(*v),
{
    match v {
        Some(s) => {
            html.append("<li>");
            html.append(s.as_str());
            html.append("</li>");
            proof {
                assert(html@ =~= old(html)@ + ("<li>"@ + s@ + "</li>"@));
            }
        },
        None => {
            proof {
                assert(old(html)@ + Seq::<char>::empty() =~= old(html)@);
            }
        },
    }
}

/// Appends one link line.
fn append_link(html: &mut String, url: &str, label: &str)
    ensures
        final(html)@ == old(html)@ + spec_link_line(url@, label@),
{
    html.append("<li><a href=\"");
    html.append(url);
    html.append(
        "\" target=\"_blank\" class=\"link link-primary visited:link-secondary focus:link-accent\">",
    );
    html.append(label);
    html.append("</a></li>");
    proof {
        assert(html@ =~= old(html)@ + spec_link_line(url@, label@));
    }
}

/// Appends the link line for `url` when it is known.
fn append_opt_link(html: &mut String, url: &Option<String>, label: &str)
    ensures
        final(html)@ == old(html)@ + spec_opt_link_line(*url, label@),
{
    match url {
        Some(u) => {
            append_link(html, u.as_str(), label);
        },
        None => {
            proof {
                assert(old(html)@ + Seq::<char>::empty() =~= old(html)@);
            }
        },
    }
}

impl Release {
    /// Renders the release and its artist as one HTML list item.
    pub fn to_html(&self, artist: &Artist) -> (r: String)
        ensures
            r@ == spec_to_html(*self, *artist),
    {
        let mut html = String::from_str("<li style=\"margin-bottom: 1rem\"><b>");
        html.append(artist.name.as_str());
        html.append(" - ");
        html.append(self.album.as_str());
        html.append("</b>");
        html.append("<ul>");
        append_detail(&mut html, &artist.genre);
        append_detail(&mut html, &self.release_type);
        append_link(&mut html, self.url_youtube.as_str(), "Youtube");
        append_opt_link(&mut html, &artist.url_bandcamp, "Bandcamp");
        append_opt_link(&mut html, &artist.url_metallum, "Metallum (band)");
        append_opt_link(&mut html, &self.url_metallum, "Metallum (album)");
        html.append("</ul></li>");
        html
    }
}

} // verus!
