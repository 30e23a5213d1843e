//! The archive extractor: walks the paginated JSON listing of upcoming
//! releases, pulls artist and album anchors out of embedded HTML fragments,
//! parses the locale-style date text, and keeps the rows of the requested
//! year.

use vstd::prelude::*;

use crate::calendar::Calendar;
use crate::calendar::each_has_info;
use crate::calendar::MetallumInfoView;
use crate::calendar::Month;
use crate::calendar::Release;
use crate::calendar::ReleaseView;
use crate::client::Client;
use crate::client::MetallumReleases;
use crate::dates::spec_month_of_name;
use crate::dates::spec_valid_date;
use crate::dates::Date;
use crate::dates::month_of_name;
use crate::text::chars_of;
use crate::text::is_digit;
use crate::text::normalize_spec;
use crate::text::parse_i32_chars;
use crate::text::parse_i32_spec;
use crate::text::parse_u8_chars;
use crate::text::parse_u8_spec;
use crate::text::remove_all;
use crate::text::remove_all_spec;
use crate::text::split_words;
use crate::text::word_views;
use crate::text::words;
use crate::Error;

verus! {

/// The anchors of an HTML fragment, in document order: each `<a>` element's
/// visible text and its `href` attribute, the latter empty when absent. The
/// value depends on the fragment alone.
pub uninterp spec fn anchors_of(s: Seq<char>) -> Seq<(Seq<char>, Seq<char>)>;

/// Relies on scraper's `Html::parse_fragment` and `Selector`: parses the
/// fragment and lists each `<a>` element's concatenated text and its `href`
/// attribute. The selector `"a"` is a fixed valid selector, so
/// `Selector::parse` cannot fail on it.
#[verifier::external_body]
fn fragment_anchors(html: &str) -> (r: Vec<(String, String)>)
    ensures
        r.deep_view() == anchors_of(html@),
{
    let fragment = scraper::Html::parse_fragment(html);
    let selector = scraper::Selector::parse("a").unwrap();
    fragment
        .select(&selector)
        .map(|el| {
            let text = el.text().collect::<String>();
            let href = el.attr("href").unwrap_or("").to_string();
            (text, href)
        })
        .collect()
}

/// The anchor texts joined with `" / "` between neighbours: the composite
/// artist string of a split release.
pub open spec fn join_texts(ans: Seq<(Seq<char>, Seq<char>)>) -> Seq<char>
    decreases ans.len(),
{
    if ans.len() == 0 {
        seq![]
    } else if ans.len() == 1 {
        ans[0].0
    } else {
        ans[0].0 + " / "@ + join_texts(ans.drop_first())
    }
}

/// Joining one more text extends the join by the separator and that text.
proof fn lemma_join_texts_snoc(ans: Seq<(Seq<char>, Seq<char>)>, a: (Seq<char>, Seq<char>))
    ensures
        ans.len() == 0 ==> join_texts(ans.push(a)) == a.0,
        ans.len() > 0 ==> join_texts(ans.push(a)) == join_texts(ans) + " / "@ + a.0,
    decreases ans.len(),
{
    if ans.len() == 0 {
        assert(ans.push(a)[0] == a);
        assert(join_texts(ans.push(a)) == a.0);
    } else if ans.len() == 1 {
        assert(ans.push(a).drop_first() =~= seq![a]);
        assert(ans.push(a)[0] == ans[0]);
        assert(join_texts(seq![a]) == a.0);
    } else {
        lemma_join_texts_snoc(ans.drop_first(), a);
        assert(ans.push(a).drop_first() =~= ans.drop_first().push(a));
        assert(ans.push(a)[0] == ans[0]);
        assert(join_texts(ans.push(a)) == ans[0].0 + " / "@ + join_texts(ans.drop_first().push(a)));
        assert((ans[0].0 + " / "@) + (join_texts(ans.drop_first()) + " / "@ + a.0) =~= (ans[0].0
            + " / "@ + join_texts(ans.drop_first())) + " / "@ + a.0);
    }
}

/// Computes [`join_texts`] of the anchors' texts.
fn join_artists(anchors: &Vec<(String, String)>) -> (r: String)
    ensures
        r@ == join_texts(anchors.deep_view()),
{
    let n = anchors.len();
    let ghost adv = anchors.deep_view();
    let mut out = String::new();
    let mut i: usize = 0;
    proof {
        assert(adv.take(0) =~= Seq::<(Seq<char>, Seq<char>)>::empty());
    }
    while i < n
        invariant
            n == anchors@.len(),
            adv == anchors.deep_view(),
            adv.len() == n,
            i <= n,
            out@ == join_texts(adv.take(i as int)),
        decreases n - i,
    {
        if i > 0 {
            out.append(" / ");
        }
        out.append(anchors[i].0.as_str());
        proof {
            assert(adv[i as int] == (anchors@[i as int].0@, anchors@[i as int].1@));
            lemma_join_texts_snoc(adv.take(i as int), adv[i as int]);
            assert(adv.take(i as int).push(adv[i as int]) =~= adv.take(i + 1));
        }
        i = i + 1;
    }
    proof {
        assert(adv.take(n as int) =~= adv);
    }
    out
}

/// Whether the two characters spell an ordinal suffix: "st", "nd", "rd" or
/// "th".
pub open spec fn is_ordinal_pair(a: char, b: char) -> bool {
    (a == 's' && b == 't') || (a == 'n' && b == 'd') || (a == 'r' && b == 'd') || (a == 't' && b
        == 'h')
}

/// Runtime test for [`is_ordinal_pair`].
fn ordinal_pair(a: char, b: char) -> (r: bool)
    ensures
        r == is_ordinal_pair(a, b),
{
    (a == 's' && b == 't') || (a == 'n' && b == 'd') || (a == 'r' && b == 'd') || (a == 't' && b
        == 'h')
}

/// `s` with every ordinal suffix that directly follows a digit removed,
/// scanning from the left: "9th" becomes "9" and "21st" becomes "21", while
/// the letters of a word such as a month name stay untouched.
pub open spec fn strip_ordinals(s: Seq<char>) -> Seq<char>
    decreases s.len(),
{
    if s.len() == 0 {
        seq![]
    } else if s.len() >= 3 && is_digit(s[0]) && is_ordinal_pair(s[1], s[2]) {
        seq![s[0]] + strip_ordinals(s.skip(3))
    } else {
        seq![s[0]] + strip_ordinals(s.drop_first())
    }
}

/// Computes [`strip_ordinals`] of `v`.
fn strip_ordinal_suffixes(v: &Vec<char>) -> (r: Vec<char>)
    ensures
        r@ == strip_ordinals(v@),
{
    let n = v.len();
    let mut out: Vec<char> = Vec::new();
    let mut i: usize = 0;
    proof {
        assert(v@.skip(0) =~= v@);
        assert(Seq::<char>::empty() + strip_ordinals(v@) =~= strip_ordinals(v@));
    }
    while i < n
        invariant
            n == v@.len(),
            i <= n,
            out@ + strip_ordinals(v@.skip(i as int)) == strip_ordinals(v@),
        decreases n - i,
    {
        let ghost rest = v@.skip(i as int);
        let c = v[i];
        proof {
            assert(rest[0] == v@[i as int]);
        }
        if n - i >= 3 && (c >= '0' && c <= '9') && ordinal_pair(v[i + 1], v[i + 2]) {
            out.push(c);
            proof {
                assert(rest[1] == v@[i + 1]);
                assert(rest[2] == v@[i + 2]);
                assert(rest.skip(3) =~= v@.skip(i + 3));
                assert(strip_ordinals(rest) == seq![rest[0]] + strip_ordinals(v@.skip(i + 3)));
                assert(out@ + strip_ordinals(v@.skip(i + 3)) =~= out@.drop_last() + (seq![rest[0]]
                    + strip_ordinals(v@.skip(i + 3))));
            }
            i = i + 3;
        } else {
            out.push(c);
            proof {
                if rest.len() >= 3 && is_digit(rest[0]) && is_ordinal_pair(rest[1], rest[2]) {
                    assert(rest[1] == v@[i + 1]);
                    assert(rest[2] == v@[i + 2]);
                    assert(false);
                }
                assert(rest.drop_first() =~= v@.skip(i + 1));
                assert(strip_ordinals(rest) == seq![rest[0]] + strip_ordinals(v@.skip(i + 1)));
                assert(out@ + strip_ordinals(v@.skip(i + 1)) =~= out@.drop_last() + (seq![rest[0]]
                    + strip_ordinals(v@.skip(i + 1))));
            }
            i = i + 1;
        }
    }
    proof {
        assert(v@.skip(n as int) =~= Seq::<char>::empty());
        assert(out@ + Seq::<char>::empty() =~= out@);
    }
    out
}

/// The date that the archive's raw date text names, if any: the ordinal
/// suffix belongs to the day number and is struck only there (directly after
/// a digit), commas are removed, what remains is split on whitespace, and
/// the first three tokens are read as month name, day and year. The result
/// must be a valid calendar date.
pub open spec fn spec_parse_release_date(raw: Seq<char>) -> Option<Date> {
    let cleaned = remove_all_spec(strip_ordinals(raw), ","@);
    let ws = words(cleaned);
    if ws.len() >= 3 {
        match (spec_month_of_name(ws[0]), parse_u8_spec(ws[1]), parse_i32_spec(ws[2])) {
            (Some(m), Some(d), Some(y)) => if spec_valid_date(y as int, m, d as int) {
                Some(Date { year: y, month: m, day: d })
            } else {
                None
            },
            _ => None,
        }
    } else {
        None
    }
}

/// Computes [`spec_parse_release_date`] of `raw`.
pub fn parse_release_date(raw: &str) -> (r: Option<Date>)
    ensures
        r == spec_parse_release_date(raw@),
{
    proof {
        reveal_strlit(",");
    }
    let v = chars_of(raw);
    let stripped = strip_ordinal_suffixes(&v);
    let cleaned = remove_all(&stripped, &chars_of(","));
    let ws = split_words(&cleaned);
    if ws.len() < 3 {
        proof {
            assert(words(cleaned@).len() == word_views(ws@).len());
        }
        return None;
    }
    proof {
        assert(word_views(ws@)[0] == ws@[0]@);
        assert(word_views(ws@)[1] == ws@[1]@);
        assert(word_views(ws@)[2] == ws@[2]@);
    }
    let m = match month_of_name(&ws[0]) {
        Some(m) => m,
        None => {
            return None;
        },
    };
    let d = match parse_u8_chars(&ws[1]) {
        Some(d) => d,
        None => {
            return None;
        },
    };
    let y = match parse_i32_chars(&ws[2]) {
        Some(y) => y,
        None => {
            return None;
        },
    };
    Date::from_calendar_date(y, m, d)
}

/// The views of the cell strings of one row.
pub open spec fn cell_views(s: Seq<String>) -> Seq<Seq<char>> {
    s.map_values(|c: String| c@)
}

/// A row of the archive listing, decoded into its parts.
#[derive(Debug)]
pub struct MetallumReleaseParts {
    pub artist: String,
    pub artist_link: String,
    pub album: String,
    pub album_link: String,
    pub release_type: String,
    pub genre: String,
    pub release_date: Date,
}

/// Whether the cells of a row carry everything a release needs: the five
/// leading cells, and at least one anchor in each of the artist and album
/// fragments.
pub open spec fn row_complete(cells: Seq<Seq<char>>) -> bool {
    cells.len() >= 5 && anchors_of(cells[0]).len() > 0 && anchors_of(cells[1]).len() > 0
}

/// The release and date that a complete row describes: the artist string
/// joins every anchor text of the artist cell, the links come from the first
/// anchors, the album title is normalized, and the type and genre cells are
/// carried verbatim.
pub open spec fn spec_row_release(cells: Seq<Seq<char>>) -> Option<(Date, ReleaseView)> {
    if row_complete(cells) {
        match spec_parse_release_date(cells[4]) {
            Some(date) => Some(
                (
                    date,
                    ReleaseView {
                        artist: join_texts(anchors_of(cells[0])),
                        album: normalize_spec(anchors_of(cells[1])[0].0),
                        metallum_info: Some(
                            MetallumInfoView {
                                artist_link: anchors_of(cells[0])[0].1,
                                album_link: anchors_of(cells[1])[0].1,
                                release_type: cells[2],
                                genre: cells[3],
                            },
                        ),
                    },
                ),
            ),
            None => None,
        }
    } else {
        None
    }
}

impl MetallumReleaseParts {
    /// Decodes one row of the archive listing. A row without its five cells
    /// or without an anchor in the artist or album fragment is refused as
    /// missing an item; a row whose date text does not name a valid date is
    /// refused as unparsable. The album title is not yet normalized here.
    pub fn from_release(release: &Vec<String>) -> (r: Result<MetallumReleaseParts, Error>)
        ensures
            r is Ok <==> (row_complete(cell_views(release@)) && spec_parse_release_date(
                cell_views(release@)[4],
            ) is Some),
            r == Err::<MetallumReleaseParts, Error>(Error::NoItem) <==> !row_complete(
                cell_views(release@),
            ),
            r == Err::<MetallumReleaseParts, Error>(Error::ParseFail) <==> (row_complete(
                cell_views(release@),
            ) && spec_parse_release_date(cell_views(release@)[4]) is None),
            match r {
                Ok(p) => {
                    let cells = cell_views(release@);
                    &&& p.artist@ == join_texts(anchors_of(cells[0]))
                    &&& p.artist_link@ == anchors_of(cells[0])[0].1
                    &&& p.album@ == anchors_of(cells[1])[0].0
                    &&& p.album_link@ == anchors_of(cells[1])[0].1
                    &&& p.release_type@ == cells[2]
                    &&& p.genre@ == cells[3]
                    &&& Some(p.release_date) == spec_parse_release_date(cells[4])
                },
                Err(_) => true,
            },
    {
        let ghost cells = cell_views(release@);
        proof {
            assert(forall|i: int| 0 <= i < release@.len() ==> #[trigger] cells[i] == release@[i]@);
        }
        if release.len() < 5 {
            return Err(Error::NoItem);
        }
        let artist_anchors = fragment_anchors(release[0].as_str());
        proof {
            assert(artist_anchors.deep_view().len() == artist_anchors@.len());
        }
        if artist_anchors.len() == 0 {
            return Err(Error::NoItem);
        }
        let album_anchors = fragment_anchors(release[1].as_str());
        proof {
            assert(album_anchors.deep_view().len() == album_anchors@.len());
        }
        if album_anchors.len() == 0 {
            return Err(Error::NoItem);
        }
        let release_date = match parse_release_date(release[4].as_str()) {
            Some(date) => date,
            None => {
                return Err(Error::ParseFail);
            },
        };
        let artist = join_artists(&artist_anchors);
        let artist_link = artist_anchors[0].1.clone();
        let album = album_anchors[0].0.clone();
        let album_link = album_anchors[0].1.clone();
        proof {
            assert(artist_anchors.deep_view()[0] == (artist_anchors@[0].0@, artist_anchors@[0].1@));
            assert(album_anchors.deep_view()[0] == (album_anchors@[0].0@, album_anchors@[0].1@));
        }
        Ok(
            MetallumReleaseParts {
                artist,
                artist_link,
                album,
                album_link,
                release_type: release[2].clone(),
                genre: release[3].clone(),
                release_date,
            },
        )
    }
}

/// What one row contributes to day `d` of month `m` of the calendar for
/// `year`: its release when the row decodes and its date falls exactly there,
/// and nothing otherwise.
pub open spec fn row_contrib(row: Seq<Seq<char>>, year: int, m: Month, d: u8) -> Seq<ReleaseView> {
    match spec_row_release(row) {
        Some((date, rv)) => if date.year == year && date.month == m && date.day == d {
            seq![rv]
        } else {
            seq![]
        },
        None => seq![],
    }
}

/// The releases that the rows of one page contribute to day `d` of month `m`
/// of the calendar for `year`, in row order.
pub open spec fn page_day_releases(
    rows: Seq<Seq<Seq<char>>>,
    year: int,
    m: Month,
    d: u8,
) -> Seq<ReleaseView>
    decreases rows.len(),
{
    if rows.len() == 0 {
        seq![]
    } else {
        row_contrib(rows[0], year, m, d) + page_day_releases(rows.drop_first(), year, m, d)
    }
}

/// One more row appends its contribution.
proof fn lemma_page_day_snoc(
    rows: Seq<Seq<Seq<char>>>,
    row: Seq<Seq<char>>,
    year: int,
    m: Month,
    d: u8,
)
    ensures
        page_day_releases(rows.push(row), year, m, d) == page_day_releases(rows, year, m, d)
            + row_contrib(row, year, m, d),
    decreases rows.len(),
{
    if rows.len() == 0 {
        assert(rows.push(row)[0] == row);
        assert(rows.push(row).drop_first() =~= Seq::<Seq<Seq<char>>>::empty());
        assert(page_day_releases(Seq::<Seq<Seq<char>>>::empty(), year, m, d) == Seq::<
            ReleaseView,
        >::empty());
        assert(row_contrib(row, year, m, d) + Seq::<ReleaseView>::empty() =~= row_contrib(
            row,
            year,
            m,
            d,
        ));
        assert(Seq::<ReleaseView>::empty() + row_contrib(row, year, m, d) =~= row_contrib(
            row,
            year,
            m,
            d,
        ));
    } else {
        lemma_page_day_snoc(rows.drop_first(), row, year, m, d);
        assert(rows.push(row)[0] == rows[0]);
        assert(rows.push(row).drop_first() =~= rows.drop_first().push(row));
        assert(row_contrib(rows[0], year, m, d) + (page_day_releases(
            rows.drop_first(),
            year,
            m,
            d,
        ) + row_contrib(row, year, m, d)) =~= (row_contrib(rows[0], year, m, d)
            + page_day_releases(rows.drop_first(), year, m, d)) + row_contrib(row, year, m, d));
    }
}

/// Decodes every row of one page and adds the releases of the requested year
/// to the calendar, in row order. A row that fails to decode, and a row whose
/// date lies outside `year`, leave the calendar as it was.
pub fn add_page_to_calendar(calendar: &mut Calendar, rows: &Vec<Vec<String>>, year: i32)
    requires
        old(calendar).wf(),
    ensures
        final(calendar).wf(),
        final(calendar).year == old(calendar).year,
        forall|m: Month, d: u8|
            final(calendar).releases_at(m, d) == crate::calendar::add_dedup(
                #[trigger] old(calendar).releases_at(m, d),
                page_day_releases(rows.deep_view(), year as int, m, d),
            ),
{
    let n = rows.len();
    let ghost rdv = rows.deep_view();
    let mut i: usize = 0;
    proof {
        assert(rdv.len() == rows@.len());
        assert forall|m: Month, d: u8|
            calendar.releases_at(m, d) == crate::calendar::add_dedup(
                #[trigger] old(calendar).releases_at(m, d),
                page_day_releases(rdv.take(0), year as int, m, d),
            ) by {
            assert(rdv.take(0) =~= Seq::<Seq<Seq<char>>>::empty());
        }
    }
    while i < n
        invariant
            calendar.wf(),
            calendar.year == old(calendar).year,
            n == rows@.len(),
            rdv == rows.deep_view(),
            rdv.len() == n,
            i <= n,
            forall|m: Month, d: u8|
                calendar.releases_at(m, d) == crate::calendar::add_dedup(
                    #[trigger] old(calendar).releases_at(m, d),
                    page_day_releases(rdv.take(i as int), year as int, m, d),
                ),
        decreases n - i,
    {
        let ghost row = rdv[i as int];
        let ghost snap = *calendar;
        proof {
            assert(rdv[i as int] == rows@[i as int].deep_view());
            assert(cell_views(rows@[i as int]@) =~= rows@[i as int].deep_view());
            assert(rdv.take(i as int).push(row) =~= rdv.take(i + 1));
        }
        match MetallumReleaseParts::from_release(&rows[i]) {
            Ok(parts) => {
                if parts.release_date.year == year {
                    let release = Release::new(parts.artist.as_str(), parts.album.as_str())
                        .with_metallum(
                        parts.artist_link.as_str(),
                        parts.album_link.as_str(),
                        parts.release_type.as_str(),
                        parts.genre.as_str(),
                    );
                    let month = parts.release_date.month;
                    let day = parts.release_date.day;
                    proof {
                        let (date, rv) = spec_row_release(row)->Some_0;
                        assert(release@ == rv);
                        assert(row_contrib(row, year as int, month, day) =~= seq![rv]);
                    }
                    calendar.add_release(month, day, release);
                    proof {
                        let (date, rv) = spec_row_release(row)->Some_0;
                        assert forall|m: Month, d: u8|
                            calendar.releases_at(m, d) == crate::calendar::add_dedup(
                                #[trigger] old(calendar).releases_at(m, d),
                                page_day_releases(rdv.take(i + 1), year as int, m, d),
                            ) by {
                            lemma_page_day_snoc(rdv.take(i as int), row, year as int, m, d);
                            let before = page_day_releases(rdv.take(i as int), year as int, m, d);
                            if m == month && d == day {
                                crate::calendar::lemma_add_dedup_snoc(
                                    old(calendar).releases_at(m, d),
                                    before,
                                    rv,
                                );
                                assert(before.push(rv) =~= before + seq![rv]);
                            } else {
                                assert(row_contrib(row, year as int, m, d) =~= Seq::<
                                    ReleaseView,
                                >::empty());
                                assert(before + Seq::<ReleaseView>::empty() =~= before);
                            }
                        }
                    }
                } else {
                    proof {
                        assert forall|m: Month, d: u8|
                            calendar.releases_at(m, d) == crate::calendar::add_dedup(
                                #[trigger] old(calendar).releases_at(m, d),
                                page_day_releases(rdv.take(i + 1), year as int, m, d),
                            ) by {
                            lemma_page_day_snoc(rdv.take(i as int), row, year as int, m, d);
                            let before = page_day_releases(rdv.take(i as int), year as int, m, d);
                            assert(row_contrib(row, year as int, m, d) =~= Seq::<
                                ReleaseView,
                            >::empty());
                            assert(before + Seq::<ReleaseView>::empty() =~= before);
                        }
                    }
                }
            },
            Err(_) => {
                proof {
                    assert(spec_row_release(row) is None);
                    assert forall|m: Month, d: u8|
                        calendar.releases_at(m, d) == crate::calendar::add_dedup(
                            #[trigger] old(calendar).releases_at(m, d),
                            page_day_releases(rdv.take(i + 1), year as int, m, d),
                        ) by {
                        lemma_page_day_snoc(rdv.take(i as int), row, year as int, m, d);
                        let before = page_day_releases(rdv.take(i as int), year as int, m, d);
                        assert(row_contrib(row, year as int, m, d) =~= Seq::<
                            ReleaseView,
                        >::empty());
                        assert(before + Seq::<ReleaseView>::empty() =~= before);
                    }
                }
            },
        }
        i = i + 1;
    }
    proof {
        assert(rdv.take(n as int) =~= rdv);
    }
}

/// Year filter: a row whose parsed date lies outside the requested year
/// contributes nothing to the calendar of that year, for any month and day.
pub proof fn lemma_year_filter(row: Seq<Seq<char>>, year: int, m: Month, d: u8)
    requires
        match spec_row_release(row) {
            Some((date, rv)) => date.year != year,
            None => true,
        },
    ensures
        row_contrib(row, year, m, d) == Seq::<ReleaseView>::empty(),
        page_day_releases(seq![row], year, m, d) == Seq::<ReleaseView>::empty(),
{
    assert(seq![row][0] == row);
    assert(seq![row].drop_first() =~= Seq::<Seq<Seq<char>>>::empty());
    assert(page_day_releases(Seq::<Seq<Seq<char>>>::empty(), year, m, d) == Seq::<
        ReleaseView,
    >::empty());
    assert(row_contrib(row, year, m, d) + Seq::<ReleaseView>::empty() =~= row_contrib(
        row,
        year,
        m,
        d,
    ));
}

/// What one row contributes carries archive metadata: a decoded row always
/// attaches its links, type and genre.
proof fn lemma_row_contrib_each_has_info(row: Seq<Seq<char>>, year: int, m: Month, d: u8)
    ensures
        each_has_info(row_contrib(row, year, m, d)),
{
    let e = row_contrib(row, year, m, d);
    match spec_row_release(row) {
        Some((date, rv)) => {
            if date.year == year && date.month == m && date.day == d {
                assert(e.len() == 1 && e[0].metallum_info is Some);
            }
        },
        None => {},
    }
}

/// Every release a page contributes carries archive metadata.
proof fn lemma_page_day_each_has_info(rows: Seq<Seq<Seq<char>>>, year: int, m: Month, d: u8)
    ensures
        each_has_info(page_day_releases(rows, year, m, d)),
    decreases rows.len(),
{
    if rows.len() > 0 {
        lemma_row_contrib_each_has_info(rows[0], year, m, d);
        lemma_page_day_each_has_info(rows.drop_first(), year, m, d);
        let h = row_contrib(rows[0], year, m, d);
        let rest = page_day_releases(rows.drop_first(), year, m, d);
        assert forall|i: int|
            0 <= i < (h + rest).len() implies (#[trigger] (h + rest)[i]).metallum_info
            is Some by {
            if i < h.len() {
                assert((h + rest)[i] == h[i]);
            } else {
                assert((h + rest)[i] == rest[i - h.len()]);
            }
        }
    }
}

/// Builds the calendar of `year` from the archive source: pages are fetched
/// in ascending order and stop at the first empty answer; each page's rows of
/// the requested year are added in order. Never fails, and every release it
/// stores carries archive metadata.
pub fn scrape<C: Client>(client: &C, year: i32) -> (r: Result<Calendar, Error>)
    ensures
        match r {
            Ok(c) => {
                &&& c.wf()
                &&& c.year == year
                &&& forall|m: Month, d: u8| each_has_info(#[trigger] c.releases_at(m, d))
            },
            Err(_) => false,
        },
{
    let mut calendar = Calendar::new(year);
    let mut page: u16 = 0;
    proof {
        assert forall|m: Month, d: u8| each_has_info(#[trigger] calendar.releases_at(m, d)) by {
            assert(calendar.releases_at(m, d) == Seq::<ReleaseView>::empty());
        }
    }
    while page < u16::MAX
        invariant
            calendar.wf(),
            calendar.year == year,
            forall|m: Month, d: u8| each_has_info(#[trigger] calendar.releases_at(m, d)),
        decreases u16::MAX - page,
    {
        match client.fetch_metallum(page) {
            Some(releases) => {
                let ghost snap = calendar;
                add_page_to_calendar(&mut calendar, &releases.data, year);
                proof {
                    assert forall|m: Month, d: u8|
                        each_has_info(#[trigger] calendar.releases_at(m, d)) by {
                        let pdr = page_day_releases(releases.data.deep_view(), year as int, m, d);
                        lemma_page_day_each_has_info(releases.data.deep_view(), year as int, m, d);
                        assert(calendar.releases_at(m, d) == crate::calendar::add_dedup(
                            snap.releases_at(m, d),
                            pdr,
                        ));
                        crate::calendar::lemma_add_dedup_each_has_info(snap.releases_at(m, d), pdr);
                    }
                }
            },
            None => {
                return Ok(calendar);
            },
        }
        page = page + 1;
    }
    Ok(calendar)
}

} // verus!
