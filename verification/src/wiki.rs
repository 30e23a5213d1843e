//! The wiki extractor: reads the per-month HTML tables of a year page,
//! classifies each row by its cell count, and carries the current day and
//! artist across rows — and across tables — to undo the source's vertical
//! cell merging.

use vstd::prelude::*;

use crate::calendar::add_dedup;
use crate::calendar::lemma_add_dedup_append;
use crate::calendar::none_has_info;
use crate::calendar::Calendar;
use crate::calendar::Month;
use crate::calendar::Release;
use crate::calendar::ReleaseView;
use crate::client::Client;
use crate::text::chars_eq_lit;
use crate::text::chars_of;
use crate::text::normalize_spec;
use crate::text::parse_u8_chars;
use crate::text::parse_u8_spec;
use crate::text::trim;
use crate::text::trim_spec;
use crate::Error;

verus! {

/// The tables of an HTML document that a selector names: for each matching
/// table, its body rows; for each row, the concatenated text of each child
/// cell. The value depends on the document and the selector alone.
pub uninterp spec fn tables_of(doc: Seq<char>, sel: Seq<char>) -> Seq<Seq<Seq<Seq<char>>>>;

/// Relies on scraper's `Html::parse_document` and `Selector`: parses the
/// document, selects the elements the selector names, and lists, for each,
/// the cell texts of each `tbody tr` row. An unparsable selector selects
/// nothing; `"tbody tr"` is a fixed valid selector, so `Selector::parse`
/// cannot fail on it.
#[verifier::external_body]
fn html_tables(doc: &str, sel: &str) -> (r: Vec<Vec<Vec<String>>>)
    ensures
        r.deep_view() == tables_of(doc@, sel@),
{
    let document = scraper::Html::parse_document(doc);
    let table_sel = match scraper::Selector::parse(sel) {
        Ok(s) => s,
        Err(_) => return Vec::new(),
    };
    let row_sel = scraper::Selector::parse("tbody tr").unwrap();
    document
        .select(&table_sel)
        .map(|t| t.select(&row_sel).map(
            |row| row.child_elements().map(|c| c.text().collect::<String>()).collect(),
        ).collect())
        .collect()
}

/// The carried parser state: the current day of the month and the current
/// artist.
pub open spec fn wiki_state0() -> (u8, Seq<char>) {
    (1u8, Seq::<char>::empty())
}

/// What one table row does to the carried state, and what it emits for the
/// month being read, classified purely by cell count: three cells start a new
/// day, two a new artist on the same day, one a further album of the same
/// artist; any other count is ignored. A three-cell row whose artist cell is
/// the header placeholder emits nothing.
pub open spec fn row_step(state: (u8, Seq<char>), cells: Seq<Seq<char>>) -> (
    (u8, Seq<char>),
    Seq<(u8, ReleaseView)>,
) {
    if cells.len() == 1 {
        (
            state,
            seq![
                (
                    state.0,
                    ReleaseView {
                        artist: state.1,
                        album: normalize_spec(trim_spec(cells[0])),
                        metallum_info: None,
                    },
                ),
            ],
        )
    } else if cells.len() == 2 {
        let artist = trim_spec(cells[0]);
        (
            (state.0, artist),
            seq![
                (
                    state.0,
                    ReleaseView {
                        artist,
                        album: normalize_spec(trim_spec(cells[1])),
                        metallum_info: None,
                    },
                ),
            ],
        )
    } else if cells.len() == 3 {
        let day = match parse_u8_spec(trim_spec(cells[0])) {
            Some(d) => d,
            None => state.0,
        };
        let artist = trim_spec(cells[1]);
        if artist == "Artist"@ {
            ((day, artist), seq![])
        } else {
            (
                (day, artist),
                seq![
                    (
                        day,
                        ReleaseView {
                            artist,
                            album: normalize_spec(trim_spec(cells[2])),
                            metallum_info: None,
                        },
                    ),
                ],
            )
        }
    } else {
        (state, seq![])
    }
}

/// The state after a whole table, and everything the table emits, in row
/// order.
pub open spec fn rows_fold(state: (u8, Seq<char>), rows: Seq<Seq<Seq<char>>>) -> (
    (u8, Seq<char>),
    Seq<(u8, ReleaseView)>,
)
    decreases rows.len(),
{
    if rows.len() == 0 {
        (state, seq![])
    } else {
        let (s1, e1) = row_step(state, rows[0]);
        let (s2, e2) = rows_fold(s1, rows.drop_first());
        (s2, e1 + e2)
    }
}

/// One more row first folds the earlier rows, then steps once.
proof fn lemma_rows_fold_snoc(state: (u8, Seq<char>), rows: Seq<Seq<Seq<char>>>, row: Seq<Seq<char>>)
    ensures
        rows_fold(state, rows.push(row)) == {
            let (s1, e1) = rows_fold(state, rows);
            let (s2, e2) = row_step(s1, row);
            (s2, e1 + e2)
        },
    decreases rows.len(),
{
    if rows.len() == 0 {
        assert(rows.push(row)[0] == row);
        assert(rows.push(row).drop_first() =~= Seq::<Seq<Seq<char>>>::empty());
        let (s2, e2) = row_step(state, row);
        assert(rows_fold(s2, Seq::<Seq<Seq<char>>>::empty()) == (s2, Seq::<(u8, ReleaseView)>::empty()));
        assert(e2 + Seq::<(u8, ReleaseView)>::empty() =~= e2);
        assert(Seq::<(u8, ReleaseView)>::empty() + e2 =~= e2);
    } else {
        assert(rows.push(row)[0] == rows[0]);
        assert(rows.push(row).drop_first() =~= rows.drop_first().push(row));
        let (s1, e1) = row_step(state, rows[0]);
        lemma_rows_fold_snoc(s1, rows.drop_first(), row);
        let (sa, ea) = rows_fold(s1, rows.drop_first());
        let (sb, eb) = row_step(sa, row);
        assert(e1 + (ea + eb) =~= (e1 + ea) + eb);
    }
}

/// The releases among `ems` emitted for day `d`, in order.
pub open spec fn day_filter(ems: Seq<(u8, ReleaseView)>, d: u8) -> Seq<ReleaseView>
    decreases ems.len(),
{
    if ems.len() == 0 {
        seq![]
    } else {
        (if ems[0].0 == d {
            seq![ems[0].1]
        } else {
            seq![]
        }) + day_filter(ems.drop_first(), d)
    }
}

/// Filtering distributes over concatenation.
proof fn lemma_day_filter_append(a: Seq<(u8, ReleaseView)>, b: Seq<(u8, ReleaseView)>, d: u8)
    ensures
        day_filter(a + b, d) == day_filter(a, d) + day_filter(b, d),
    decreases a.len(),
{
    if a.len() == 0 {
        assert(a + b =~= b);
        assert(day_filter(a, d) + day_filter(b, d) =~= day_filter(b, d));
    } else {
        assert((a + b)[0] == a[0]);
        assert((a + b).drop_first() =~= a.drop_first() + b);
        lemma_day_filter_append(a.drop_first(), b, d);
        let h = if a[0].0 == d {
            seq![a[0].1]
        } else {
            Seq::<ReleaseView>::empty()
        };
        assert(h + (day_filter(a.drop_first(), d) + day_filter(b, d)) =~= (h + day_filter(
            a.drop_first(),
            d,
        )) + day_filter(b, d));
    }
}

/// Emissions tagged with the month they were read for.
pub open spec fn tag_month(ems: Seq<(u8, ReleaseView)>, m: Month) -> Seq<(Month, u8, ReleaseView)> {
    ems.map_values(|e: (u8, ReleaseView)| (m, e.0, e.1))
}

/// The releases among tagged emissions for month `m` and day `d`, in order.
pub open spec fn ems_filter(ems: Seq<(Month, u8, ReleaseView)>, m: Month, d: u8) -> Seq<ReleaseView>
    decreases ems.len(),
{
    if ems.len() == 0 {
        seq![]
    } else {
        (if ems[0].0 == m && ems[0].1 == d {
            seq![ems[0].2]
        } else {
            seq![]
        }) + ems_filter(ems.drop_first(), m, d)
    }
}

/// Filtering tagged emissions distributes over concatenation.
proof fn lemma_ems_filter_append(
    a: Seq<(Month, u8, ReleaseView)>,
    b: Seq<(Month, u8, ReleaseView)>,
    m: Month,
    d: u8,
)
    ensures
        ems_filter(a + b, m, d) == ems_filter(a, m, d) + ems_filter(b, m, d),
    decreases a.len(),
{
    if a.len() == 0 {
        assert(a + b =~= b);
        assert(ems_filter(a, m, d) + ems_filter(b, m, d) =~= ems_filter(b, m, d));
    } else {
        assert((a + b)[0] == a[0]);
        assert((a + b).drop_first() =~= a.drop_first() + b);
        lemma_ems_filter_append(a.drop_first(), b, m, d);
        let h = if a[0].0 == m && a[0].1 == d {
            seq![a[0].2]
        } else {
            Seq::<ReleaseView>::empty()
        };
        assert(h + (ems_filter(a.drop_first(), m, d) + ems_filter(b, m, d)) =~= (h + ems_filter(
            a.drop_first(),
            m,
            d,
        )) + ems_filter(b, m, d));
    }
}

/// Filtering month-tagged emissions is day-filtering for that month and
/// nothing for any other.
proof fn lemma_ems_filter_tag(ems: Seq<(u8, ReleaseView)>, month: Month, m: Month, d: u8)
    ensures
        m == month ==> ems_filter(tag_month(ems, month), m, d) == day_filter(ems, d),
        m != month ==> ems_filter(tag_month(ems, month), m, d) == Seq::<ReleaseView>::empty(),
    decreases ems.len(),
{
    if ems.len() == 0 {
        assert(tag_month(ems, month) =~= Seq::<(Month, u8, ReleaseView)>::empty());
    } else {
        lemma_ems_filter_tag(ems.drop_first(), month, m, d);
        let t = tag_month(ems, month);
        assert(t[0] == (month, ems[0].0, ems[0].1));
        assert(t.drop_first() =~= tag_month(ems.drop_first(), month));
        if m == month {
            assert(ems_filter(t, m, d) == (if ems[0].0 == d {
                seq![ems[0].1]
            } else {
                Seq::<ReleaseView>::empty()
            }) + day_filter(ems.drop_first(), d));
        } else {
            assert(ems_filter(t, m, d) == Seq::<ReleaseView>::empty() + Seq::<
                ReleaseView,
            >::empty());
            assert(Seq::<ReleaseView>::empty() + Seq::<ReleaseView>::empty() =~= Seq::<
                ReleaseView,
            >::empty());
        }
    }
}

/// One more emission extends a day's filtered releases exactly when it is for
/// that day.
proof fn lemma_filter_one(ek: Seq<(u8, ReleaseView)>, day0: u8, rv: ReleaseView, d: u8)
    ensures
        d == day0 ==> day_filter(ek + seq![(day0, rv)], d) == day_filter(ek, d).push(rv),
        d != day0 ==> day_filter(ek + seq![(day0, rv)], d) == day_filter(ek, d),
{
    lemma_day_filter_append(ek, seq![(day0, rv)], d);
    assert(seq![(day0, rv)][0] == (day0, rv));
    assert(seq![(day0, rv)].drop_first() =~= Seq::<(u8, ReleaseView)>::empty());
    assert(day_filter(Seq::<(u8, ReleaseView)>::empty(), d) == Seq::<ReleaseView>::empty());
    if d == day0 {
        assert(day_filter(seq![(day0, rv)], d) =~= seq![rv]);
        assert(day_filter(ek, d) + seq![rv] =~= day_filter(ek, d).push(rv));
    } else {
        assert(day_filter(seq![(day0, rv)], d) =~= Seq::<ReleaseView>::empty());
        assert(day_filter(ek, d) + Seq::<ReleaseView>::empty() =~= day_filter(ek, d));
    }
}

/// Scans the body rows of one month table, top to bottom, emitting releases
/// into the calendar and carrying the current day and artist in and out.
fn process_table(
    calendar: &mut Calendar,
    month: Month,
    current_day: &mut u8,
    current_artist: &mut String,
    rows: &Vec<Vec<String>>,
)
    requires
        old(calendar).wf(),
    ensures
        final(calendar).wf(),
        final(calendar).year == old(calendar).year,
        ({
            let fold = rows_fold((*old(current_day), old(current_artist)@), rows.deep_view());
            &&& *final(current_day) == fold.0.0
            &&& final(current_artist)@ == fold.0.1
            &&& forall|m2: Month, d: u8|
                m2 != month ==> final(calendar).releases_at(m2, d) == old(calendar).releases_at(
                    m2,
                    d,
                )
            &&& forall|d: u8|
                final(calendar).releases_at(month, d) == add_dedup(
                    #[trigger] old(calendar).releases_at(month, d),
                    day_filter(fold.1, d),
                )
        }),
{
    let n = rows.len();
    let ghost rdv = rows.deep_view();
    let ghost init = (*old(current_day), old(current_artist)@);
    let mut k: usize = 0;
    proof {
        assert(rdv.len() == rows@.len());
        assert(rdv.take(0) =~= Seq::<Seq<Seq<char>>>::empty());
        assert(rows_fold(init, rdv.take(0)) == (init, Seq::<(u8, ReleaseView)>::empty()));
        assert forall|d: u8|
            calendar.releases_at(month, d) == add_dedup(
                #[trigger] old(calendar).releases_at(month, d),
                day_filter(Seq::<(u8, ReleaseView)>::empty(), d),
            ) by {
            assert(day_filter(Seq::<(u8, ReleaseView)>::empty(), d) == Seq::<ReleaseView>::empty());
        }
    }
    while k < n
        invariant
            calendar.wf(),
            calendar.year == old(calendar).year,
            n == rows@.len(),
            rdv == rows.deep_view(),
            rdv.len() == n,
            k <= n,
            *current_day == rows_fold(init, rdv.take(k as int)).0.0,
            current_artist@ == rows_fold(init, rdv.take(k as int)).0.1,
            forall|m2: Month, d: u8|
                m2 != month ==> #[trigger] calendar.releases_at(m2, d) == old(
                    calendar,
                ).releases_at(m2, d),
            forall|d: u8|
                calendar.releases_at(month, d) == add_dedup(
                    #[trigger] old(calendar).releases_at(month, d),
                    day_filter(rows_fold(init, rdv.take(k as int)).1, d),
                ),
        decreases n - k,
    {
        let ghost row = rdv[k as int];
        let ghost sk = rows_fold(init, rdv.take(k as int)).0;
        let ghost ek = rows_fold(init, rdv.take(k as int)).1;
        proof {
            assert(rdv[k as int] == rows@[k as int].deep_view());
            assert(crate::metallum::cell_views(rows@[k as int]@) =~= rows@[k as int].deep_view());
            assert(rdv.take(k as int).push(row) =~= rdv.take(k + 1));
            lemma_rows_fold_snoc(init, rdv.take(k as int), row);
        }
        let cells = &rows[k];
        let clen = cells.len();
        if clen == 1 {
            let album_str = trim(cells[0].as_str());
            let rel = Release::new(current_artist.as_str(), album_str);
            let day0 = *current_day;
            proof {
                assert(row[0] == rows@[k as int]@[0]@);
                assert(row_step(sk, row).1 =~= seq![(sk.0, rel@)]);
            }
            calendar.add_release(month, day0, rel);
            proof {
                assert forall|d: u8|
                    calendar.releases_at(month, d) == add_dedup(
                        #[trigger] old(calendar).releases_at(month, d),
                        day_filter(rows_fold(init, rdv.take(k + 1)).1, d),
                    ) by {
                    lemma_filter_one(ek, day0, rel@, d);
                    assert(rows_fold(init, rdv.take(k + 1)).1 == ek + seq![(day0, rel@)]);
                    if d == day0 {
                        crate::calendar::lemma_add_dedup_snoc(
                            old(calendar).releases_at(month, d),
                            day_filter(ek, d),
                            rel@,
                        );
                    }
                }
            }
        } else if clen == 2 {
            let artist_str = trim(cells[0].as_str());
            let album_str = trim(cells[1].as_str());
            let rel = Release::new(artist_str, album_str);
            let day0 = *current_day;
            *current_artist = String::from_str(artist_str);
            proof {
                assert(row[0] == rows@[k as int]@[0]@);
                assert(row[1] == rows@[k as int]@[1]@);
                assert(row_step(sk, row).1 =~= seq![(sk.0, rel@)]);
            }
            calendar.add_release(month, day0, rel);
            proof {
                assert forall|d: u8|
                    calendar.releases_at(month, d) == add_dedup(
                        #[trigger] old(calendar).releases_at(month, d),
                        day_filter(rows_fold(init, rdv.take(k + 1)).1, d),
                    ) by {
                    lemma_filter_one(ek, day0, rel@, d);
                    assert(rows_fold(init, rdv.take(k + 1)).1 == ek + seq![(day0, rel@)]);
                    if d == day0 {
                        crate::calendar::lemma_add_dedup_snoc(
                            old(calendar).releases_at(month, d),
                            day_filter(ek, d),
                            rel@,
                        );
                    }
                }
            }
        } else if clen == 3 {
            let day_trimmed = trim(cells[0].as_str());
            let day_chars = chars_of(day_trimmed);
            match parse_u8_chars(&day_chars) {
                Some(d) => {
                    *current_day = d;
                },
                None => {},
            }
            let artist_str = trim(cells[1].as_str());
            let album_str = trim(cells[2].as_str());
            *current_artist = String::from_str(artist_str);
            let day0 = *current_day;
            proof {
                assert(row[0] == rows@[k as int]@[0]@);
                assert(row[1] == rows@[k as int]@[1]@);
                assert(row[2] == rows@[k as int]@[2]@);
            }
            let artist_chars = chars_of(artist_str);
            if !chars_eq_lit(&artist_chars, "Artist") {
                let rel = Release::new(artist_str, album_str);
                proof {
                    assert(row_step(sk, row).1 =~= seq![(day0, rel@)]);
                }
                calendar.add_release(month, day0, rel);
                proof {
                    assert forall|d: u8|
                        calendar.releases_at(month, d) == add_dedup(
                            #[trigger] old(calendar).releases_at(month, d),
                            day_filter(rows_fold(init, rdv.take(k + 1)).1, d),
                        ) by {
                        lemma_filter_one(ek, day0, rel@, d);
                        assert(rows_fold(init, rdv.take(k + 1)).1 == ek + seq![(day0, rel@)]);
                        if d == day0 {
                            crate::calendar::lemma_add_dedup_snoc(
                                old(calendar).releases_at(month, d),
                                day_filter(ek, d),
                                rel@,
                            );
                        }
                    }
                }
            } else {
                proof {
                    assert(row_step(sk, row).1 =~= Seq::<(u8, ReleaseView)>::empty());
                    assert(ek + Seq::<(u8, ReleaseView)>::empty() =~= ek);
                }
            }
        } else {
            proof {
                assert(row_step(sk, row).1 =~= Seq::<(u8, ReleaseView)>::empty());
                assert(ek + Seq::<(u8, ReleaseView)>::empty() =~= ek);
            }
        }
        k = k + 1;
    }
    proof {
        assert(rdv.take(n as int) =~= rdv);
    }
}

/// What processing one month selector does: with exactly one matching table,
/// its rows are read for that month; the November selector matching exactly
/// two tables reads the first as October's and the second as November's, a
/// quirk of the source's historical markup; any other count is ignored.
pub open spec fn month_step(doc: Seq<char>, sel: Seq<char>, month: Month, state: (u8, Seq<char>)) -> (
    (u8, Seq<char>),
    Seq<(Month, u8, ReleaseView)>,
) {
    let ts = tables_of(doc, sel);
    if month == Month::November && ts.len() == 2 {
        let f1 = rows_fold(state, ts[0]);
        let f2 = rows_fold(f1.0, ts[1]);
        (f2.0, tag_month(f1.1, Month::October) + tag_month(f2.1, Month::November))
    } else if ts.len() == 1 {
        let f1 = rows_fold(state, ts[0]);
        (f1.0, tag_month(f1.1, month))
    } else {
        (state, seq![])
    }
}

/// Processes the tables that one month selector names, with the carried
/// state running through.
fn process_month_tables(
    calendar: &mut Calendar,
    current_day: &mut u8,
    current_artist: &mut String,
    doc: &str,
    sel: &str,
    month: Month,
)
    requires
        old(calendar).wf(),
    ensures
        final(calendar).wf(),
        final(calendar).year == old(calendar).year,
        ({
            let st = month_step(doc@, sel@, month, (*old(current_day), old(current_artist)@));
            &&& *final(current_day) == st.0.0
            &&& final(current_artist)@ == st.0.1
            &&& forall|m2: Month, d: u8|
                final(calendar).releases_at(m2, d) == add_dedup(
                    #[trigger] old(calendar).releases_at(m2, d),
                    ems_filter(st.1, m2, d),
                )
        }),
{
    let ghost init = (*old(current_day), old(current_artist)@);
    let tables = html_tables(doc, sel);
    let ghost ts = tables_of(doc@, sel@);
    proof {
        assert(tables.deep_view() == ts);
        assert(tables.deep_view().len() == tables@.len());
    }
    if tables.len() == 2 && month.number() == 11 {
        proof {
            assert(month == Month::November);
            assert(tables@[0].deep_view() == ts[0]);
            assert(tables@[1].deep_view() == ts[1]);
        }
        let ghost cal0 = *calendar;
        process_table(calendar, Month::October, current_day, current_artist, &tables[0]);
        let ghost cal1 = *calendar;
        let ghost f1 = rows_fold(init, ts[0]);
        process_table(calendar, Month::November, current_day, current_artist, &tables[1]);
        proof {
            let f2 = rows_fold(f1.0, ts[1]);
            let e1 = tag_month(f1.1, Month::October);
            let e2 = tag_month(f2.1, Month::November);
            assert forall|m2: Month, d: u8|
                calendar.releases_at(m2, d) == add_dedup(
                    #[trigger] old(calendar).releases_at(m2, d),
                    ems_filter(e1 + e2, m2, d),
                ) by {
                lemma_ems_filter_append(e1, e2, m2, d);
                lemma_ems_filter_tag(f1.1, Month::October, m2, d);
                lemma_ems_filter_tag(f2.1, Month::November, m2, d);
                if m2 == Month::October {
                    assert(calendar.releases_at(m2, d) == cal1.releases_at(m2, d));
                    assert(day_filter(f1.1, d) + Seq::<ReleaseView>::empty() =~= day_filter(
                        f1.1,
                        d,
                    ));
                } else if m2 == Month::November {
                    assert(cal1.releases_at(m2, d) == old(calendar).releases_at(m2, d));
                    assert(Seq::<ReleaseView>::empty() + day_filter(f2.1, d) =~= day_filter(
                        f2.1,
                        d,
                    ));
                } else {
                    assert(calendar.releases_at(m2, d) == old(calendar).releases_at(m2, d));
                    assert(Seq::<ReleaseView>::empty() + Seq::<ReleaseView>::empty() =~= Seq::<
                        ReleaseView,
                    >::empty());
                    assert(add_dedup(old(calendar).releases_at(m2, d), Seq::<ReleaseView>::empty())
                        == old(calendar).releases_at(m2, d));
                }
            }
        }
    } else if tables.len() == 1 {
        proof {
            assert(tables@[0].deep_view() == ts[0]);
        }
        process_table(calendar, month, current_day, current_artist, &tables[0]);
        proof {
            let f1 = rows_fold(init, ts[0]);
            assert forall|m2: Month, d: u8|
                calendar.releases_at(m2, d) == add_dedup(
                    #[trigger] old(calendar).releases_at(m2, d),
                    ems_filter(tag_month(f1.1, month), m2, d),
                ) by {
                lemma_ems_filter_tag(f1.1, month, m2, d);
                if m2 != month {
                    assert(calendar.releases_at(m2, d) == old(calendar).releases_at(m2, d));
                    assert(add_dedup(old(calendar).releases_at(m2, d), Seq::<ReleaseView>::empty())
                        == old(calendar).releases_at(m2, d));
                }
            }
        }
    } else {
        proof {
            assert forall|m2: Month, d: u8|
                calendar.releases_at(m2, d) == add_dedup(
                    #[trigger] old(calendar).releases_at(m2, d),
                    ems_filter(Seq::<(Month, u8, ReleaseView)>::empty(), m2, d),
                ) by {
                assert(ems_filter(Seq::<(Month, u8, ReleaseView)>::empty(), m2, d) == Seq::<
                    ReleaseView,
                >::empty());
                assert(add_dedup(old(calendar).releases_at(m2, d), Seq::<ReleaseView>::empty())
                    == old(calendar).releases_at(m2, d));
            }
        }
    }
}

/// No emission of the wiki row scan carries archive metadata.
spec fn ems_none_has_info(ems: Seq<(u8, ReleaseView)>) -> bool {
    forall|i: int| 0 <= i < ems.len() ==> (#[trigger] ems[i]).1.metallum_info is None
}

/// No tagged emission carries archive metadata.
spec fn tagged_none_has_info(ems: Seq<(Month, u8, ReleaseView)>) -> bool {
    forall|i: int| 0 <= i < ems.len() ==> (#[trigger] ems[i]).2.metallum_info is None
}

/// A single row emits only metadata-free releases.
proof fn lemma_row_step_none_has_info(state: (u8, Seq<char>), cells: Seq<Seq<char>>)
    ensures
        ems_none_has_info(row_step(state, cells).1),
{
    let e = row_step(state, cells).1;
    if cells.len() == 1 {
        assert(e.len() == 1 && e[0].1.metallum_info is None);
    } else if cells.len() == 2 {
        assert(e.len() == 1 && e[0].1.metallum_info is None);
    } else if cells.len() == 3 {
        if trim_spec(cells[1]) == "Artist"@ {
        } else {
            assert(e.len() == 1 && e[0].1.metallum_info is None);
        }
    }
}

/// A whole table emits only metadata-free releases.
proof fn lemma_rows_fold_none_has_info(state: (u8, Seq<char>), rows: Seq<Seq<Seq<char>>>)
    ensures
        ems_none_has_info(rows_fold(state, rows).1),
    decreases rows.len(),
{
    if rows.len() > 0 {
        lemma_row_step_none_has_info(state, rows[0]);
        let (s1, e1) = row_step(state, rows[0]);
        lemma_rows_fold_none_has_info(s1, rows.drop_first());
        let (s2, e2) = rows_fold(s1, rows.drop_first());
        assert forall|i: int|
            0 <= i < (e1 + e2).len() implies (#[trigger] (e1 + e2)[i]).1.metallum_info
            is None by {
            if i < e1.len() {
                assert((e1 + e2)[i] == e1[i]);
            } else {
                assert((e1 + e2)[i] == e2[i - e1.len()]);
            }
        }
    }
}

/// Tagging emissions with their month keeps their releases as they are.
proof fn lemma_tag_none_has_info(ems: Seq<(u8, ReleaseView)>, m: Month)
    requires
        ems_none_has_info(ems),
    ensures
        tagged_none_has_info(tag_month(ems, m)),
{
    assert forall|i: int|
        0 <= i < tag_month(ems, m).len() implies (#[trigger] tag_month(ems, m)[i]).2.metallum_info
        is None by {
        assert(tag_month(ems, m)[i] == (m, ems[i].0, ems[i].1));
    }
}

/// The property carries over concatenation.
proof fn lemma_tagged_append_none_has_info(
    a: Seq<(Month, u8, ReleaseView)>,
    b: Seq<(Month, u8, ReleaseView)>,
)
    requires
        tagged_none_has_info(a),
        tagged_none_has_info(b),
    ensures
        tagged_none_has_info(a + b),
{
    assert forall|i: int|
        0 <= i < (a + b).len() implies (#[trigger] (a + b)[i]).2.metallum_info is None by {
        if i < a.len() {
            assert((a + b)[i] == a[i]);
        } else {
            assert((a + b)[i] == b[i - a.len()]);
        }
    }
}

/// A whole month selector step emits only metadata-free releases.
proof fn lemma_month_step_none_has_info(
    doc: Seq<char>,
    sel: Seq<char>,
    month: Month,
    state: (u8, Seq<char>),
)
    ensures
        tagged_none_has_info(month_step(doc, sel, month, state).1),
{
    let ts = tables_of(doc, sel);
    if month == Month::November && ts.len() == 2 {
        let f1 = rows_fold(state, ts[0]);
        let f2 = rows_fold(f1.0, ts[1]);
        lemma_rows_fold_none_has_info(state, ts[0]);
        lemma_rows_fold_none_has_info(f1.0, ts[1]);
        lemma_tag_none_has_info(f1.1, Month::October);
        lemma_tag_none_has_info(f2.1, Month::November);
        lemma_tagged_append_none_has_info(
            tag_month(f1.1, Month::October),
            tag_month(f2.1, Month::November),
        );
    } else if ts.len() == 1 {
        lemma_rows_fold_none_has_info(state, ts[0]);
        lemma_tag_none_has_info(rows_fold(state, ts[0]).1, month);
    }
}

/// Filtering keeps only emitted releases, so a day filtered out of
/// metadata-free emissions is metadata-free.
proof fn lemma_ems_filter_none_has_info(ems: Seq<(Month, u8, ReleaseView)>, m: Month, d: u8)
    requires
        tagged_none_has_info(ems),
    ensures
        none_has_info(ems_filter(ems, m, d)),
    decreases ems.len(),
{
    if ems.len() > 0 {
        assert(forall|i: int|
            0 <= i < ems.drop_first().len() ==> #[trigger] ems.drop_first()[i] == ems[i + 1]);
        lemma_ems_filter_none_has_info(ems.drop_first(), m, d);
        let h = if ems[0].0 == m && ems[0].1 == d {
            seq![ems[0].2]
        } else {
            Seq::<ReleaseView>::empty()
        };
        let rest = ems_filter(ems.drop_first(), m, d);
        assert forall|i: int|
            0 <= i < (h + rest).len() implies (#[trigger] (h + rest)[i]).metallum_info
            is None by {
            if i < h.len() {
                assert((h + rest)[i] == ems[0].2);
            } else {
                assert((h + rest)[i] == rest[i - h.len()]);
            }
        }
    }
}

/// Everything the wiki extraction emits for a document: the month selectors
/// are processed in calendar order, the alternate February spelling right
/// after the standard one, with the carried state running through the whole
/// sequence of tables.
pub open spec fn wiki_emissions(doc: Seq<char>) -> Seq<(Month, u8, ReleaseView)> {
    let s1 = month_step(doc, "#table_January"@, Month::January, wiki_state0());
    let s2 = month_step(doc, "#table_February"@, Month::February, s1.0);
    let s3 = month_step(doc, "#table_Febuary"@, Month::February, s2.0);
    let s4 = month_step(doc, "#table_March"@, Month::March, s3.0);
    let s5 = month_step(doc, "#table_April"@, Month::April, s4.0);
    let s6 = month_step(doc, "#table_May"@, Month::May, s5.0);
    let s7 = month_step(doc, "#table_June"@, Month::June, s6.0);
    let s8 = month_step(doc, "#table_July"@, Month::July, s7.0);
    let s9 = month_step(doc, "#table_August"@, Month::August, s8.0);
    let s10 = month_step(doc, "#table_September"@, Month::September, s9.0);
    let s11 = month_step(doc, "#table_October"@, Month::October, s10.0);
    let s12 = month_step(doc, "#table_November"@, Month::November, s11.0);
    let s13 = month_step(doc, "#table_December"@, Month::December, s12.0);
    s1.1 + s2.1 + s3.1 + s4.1 + s5.1 + s6.1 + s7.1 + s8.1 + s9.1 + s10.1 + s11.1 + s12.1 + s13.1
}

/// No wiki emission carries archive metadata: wiki-sourced releases never
/// have it.
proof fn lemma_wiki_emissions_none_has_info(doc: Seq<char>)
    ensures
        tagged_none_has_info(wiki_emissions(doc)),
{
    let s1 = month_step(doc, "#table_January"@, Month::January, wiki_state0());
    let s2 = month_step(doc, "#table_February"@, Month::February, s1.0);
    let s3 = month_step(doc, "#table_Febuary"@, Month::February, s2.0);
    let s4 = month_step(doc, "#table_March"@, Month::March, s3.0);
    let s5 = month_step(doc, "#table_April"@, Month::April, s4.0);
    let s6 = month_step(doc, "#table_May"@, Month::May, s5.0);
    let s7 = month_step(doc, "#table_June"@, Month::June, s6.0);
    let s8 = month_step(doc, "#table_July"@, Month::July, s7.0);
    let s9 = month_step(doc, "#table_August"@, Month::August, s8.0);
    let s10 = month_step(doc, "#table_September"@, Month::September, s9.0);
    let s11 = month_step(doc, "#table_October"@, Month::October, s10.0);
    let s12 = month_step(doc, "#table_November"@, Month::November, s11.0);
    let s13 = month_step(doc, "#table_December"@, Month::December, s12.0);
    lemma_month_step_none_has_info(doc, "#table_January"@, Month::January, wiki_state0());
    lemma_month_step_none_has_info(doc, "#table_February"@, Month::February, s1.0);
    lemma_month_step_none_has_info(doc, "#table_Febuary"@, Month::February, s2.0);
    lemma_month_step_none_has_info(doc, "#table_March"@, Month::March, s3.0);
    lemma_month_step_none_has_info(doc, "#table_April"@, Month::April, s4.0);
    lemma_month_step_none_has_info(doc, "#table_May"@, Month::May, s5.0);
    lemma_month_step_none_has_info(doc, "#table_June"@, Month::June, s6.0);
    lemma_month_step_none_has_info(doc, "#table_July"@, Month::July, s7.0);
    lemma_month_step_none_has_info(doc, "#table_August"@, Month::August, s8.0);
    lemma_month_step_none_has_info(doc, "#table_September"@, Month::September, s9.0);
    lemma_month_step_none_has_info(doc, "#table_October"@, Month::October, s10.0);
    lemma_month_step_none_has_info(doc, "#table_November"@, Month::November, s11.0);
    lemma_month_step_none_has_info(doc, "#table_December"@, Month::December, s12.0);
    lemma_tagged_append_none_has_info(s1.1, s2.1);
    lemma_tagged_append_none_has_info(s1.1 + s2.1, s3.1);
    lemma_tagged_append_none_has_info(s1.1 + s2.1 + s3.1, s4.1);
    lemma_tagged_append_none_has_info(s1.1 + s2.1 + s3.1 + s4.1, s5.1);
    lemma_tagged_append_none_has_info(s1.1 + s2.1 + s3.1 + s4.1 + s5.1, s6.1);
    lemma_tagged_append_none_has_info(s1.1 + s2.1 + s3.1 + s4.1 + s5.1 + s6.1, s7.1);
    lemma_tagged_append_none_has_info(s1.1 + s2.1 + s3.1 + s4.1 + s5.1 + s6.1 + s7.1, s8.1);
    lemma_tagged_append_none_has_info(s1.1 + s2.1 + s3.1 + s4.1 + s5.1 + s6.1 + s7.1 + s8.1, s9.1);
    lemma_tagged_append_none_has_info(s1.1 + s2.1 + s3.1 + s4.1 + s5.1 + s6.1 + s7.1 + s8.1 + s9.1, s10.1);
    lemma_tagged_append_none_has_info(s1.1 + s2.1 + s3.1 + s4.1 + s5.1 + s6.1 + s7.1 + s8.1 + s9.1 + s10.1, s11.1);
    lemma_tagged_append_none_has_info(s1.1 + s2.1 + s3.1 + s4.1 + s5.1 + s6.1 + s7.1 + s8.1 + s9.1 + s10.1 + s11.1, s12.1);
    lemma_tagged_append_none_has_info(s1.1 + s2.1 + s3.1 + s4.1 + s5.1 + s6.1 + s7.1 + s8.1 + s9.1 + s10.1 + s11.1 + s12.1, s13.1);
}

/// Whether `c` is exactly the calendar the wiki extraction yields for
/// `doc`: every day holds the de-duplicated releases the document emits
/// there.
pub open spec fn is_extraction_of(c: Calendar, doc: Seq<char>) -> bool {
    forall|m: Month, d: u8|
        #[trigger] c.releases_at(m, d) == add_dedup(
            Seq::<ReleaseView>::empty(),
            ems_filter(wiki_emissions(doc), m, d),
        )
}

/// One selector step extends the extraction: a calendar holding the
/// de-duplicated filter of the emissions so far, to which the step's own
/// emissions were then added day by day, holds the filter of the
/// concatenation.
proof fn lemma_extend_extraction(
    prev: Calendar,
    cur: Calendar,
    acc: Seq<(Month, u8, ReleaseView)>,
    step: Seq<(Month, u8, ReleaseView)>,
)
    requires
        forall|m: Month, d: u8|
            #[trigger] prev.releases_at(m, d) == add_dedup(
                Seq::<ReleaseView>::empty(),
                ems_filter(acc, m, d),
            ),
        forall|m: Month, d: u8|
            #[trigger] cur.releases_at(m, d) == add_dedup(
                prev.releases_at(m, d),
                ems_filter(step, m, d),
            ),
    ensures
        forall|m: Month, d: u8|
            #[trigger] cur.releases_at(m, d) == add_dedup(
                Seq::<ReleaseView>::empty(),
                ems_filter(acc + step, m, d),
            ),
{
    assert forall|m: Month, d: u8|
        #[trigger] cur.releases_at(m, d) == add_dedup(
            Seq::<ReleaseView>::empty(),
            ems_filter(acc + step, m, d),
        ) by {
        lemma_ems_filter_append(acc, step, m, d);
        lemma_add_dedup_append(
            Seq::<ReleaseView>::empty(),
            ems_filter(acc, m, d),
            ems_filter(step, m, d),
        );
    }
}

/// Builds the calendar of `year` from a wiki document body. Tables are
/// found by their month identifiers; the current day and artist carry
/// across rows and across tables. A missing or garbled table yields no
/// releases for its month; the function never fails, and no release it
/// stores carries archive metadata.
pub fn extract_calendar(doc: &str, year: i32) -> (c: Calendar)
    ensures
        c.wf(),
        c.year == year,
        is_extraction_of(c, doc@),
        forall|m: Month, d: u8| none_has_info(#[trigger] c.releases_at(m, d)),
{
    let mut calendar = Calendar::new(year);
    let mut current_day: u8 = 1;
    let mut current_artist: String = String::new();
    let ghost mut acc_ems = Seq::<(Month, u8, ReleaseView)>::empty();
    proof {
        assert forall|m: Month, d: u8|
            #[trigger] calendar.releases_at(m, d) == add_dedup(
                Seq::<ReleaseView>::empty(),
                ems_filter(acc_ems, m, d),
            ) by {
            assert(ems_filter(acc_ems, m, d) == Seq::<ReleaseView>::empty());
        }
        assert((current_day, current_artist@) == wiki_state0());
    }
    let ghost pre1 = (current_day, current_artist@);
    let ghost snap1 = calendar;
    process_month_tables(&mut calendar, &mut current_day, &mut current_artist, doc, "#table_January", Month::January);
    proof {
        let step = month_step(doc@, "#table_January"@, Month::January, pre1);
        assert((current_day, current_artist@) == step.0);
        lemma_extend_extraction(snap1, calendar, acc_ems, step.1);
        acc_ems = acc_ems + step.1;
    }
    let ghost pre2 = (current_day, current_artist@);
    let ghost snap2 = calendar;
    process_month_tables(&mut calendar, &mut current_day, &mut current_artist, doc, "#table_February", Month::February);
    proof {
        let step = month_step(doc@, "#table_February"@, Month::February, pre2);
        assert((current_day, current_artist@) == step.0);
        lemma_extend_extraction(snap2, calendar, acc_ems, step.1);
        acc_ems = acc_ems + step.1;
    }
    let ghost pre3 = (current_day, current_artist@);
    let ghost snap3 = calendar;
    process_month_tables(&mut calendar, &mut current_day, &mut current_artist, doc, "#table_Febuary", Month::February);
    proof {
        let step = month_step(doc@, "#table_Febuary"@, Month::February, pre3);
        assert((current_day, current_artist@) == step.0);
        lemma_extend_extraction(snap3, calendar, acc_ems, step.1);
        acc_ems = acc_ems + step.1;
    }
    let ghost pre4 = (current_day, current_artist@);
    let ghost snap4 = calendar;
    process_month_tables(&mut calendar, &mut current_day, &mut current_artist, doc, "#table_March", Month::March);
    proof {
        let step = month_step(doc@, "#table_March"@, Month::March, pre4);
        assert((current_day, current_artist@) == step.0);
        lemma_extend_extraction(snap4, calendar, acc_ems, step.1);
        acc_ems = acc_ems + step.1;
    }
    let ghost pre5 = (current_day, current_artist@);
    let ghost snap5 = calendar;
    process_month_tables(&mut calendar, &mut current_day, &mut current_artist, doc, "#table_April", Month::April);
    proof {
        let step = month_step(doc@, "#table_April"@, Month::April, pre5);
        assert((current_day, current_artist@) == step.0);
        lemma_extend_extraction(snap5, calendar, acc_ems, step.1);
        acc_ems = acc_ems + step.1;
    }
    let ghost pre6 = (current_day, current_artist@);
    let ghost snap6 = calendar;
    process_month_tables(&mut calendar, &mut current_day, &mut current_artist, doc, "#table_May", Month::May);
    proof {
        let step = month_step(doc@, "#table_May"@, Month::May, pre6);
        assert((current_day, current_artist@) == step.0);
        lemma_extend_extraction(snap6, calendar, acc_ems, step.1);
        acc_ems = acc_ems + step.1;
    }
    let ghost pre7 = (current_day, current_artist@);
    let ghost snap7 = calendar;
    process_month_tables(&mut calendar, &mut current_day, &mut current_artist, doc, "#table_June", Month::June);
    proof {
        let step = month_step(doc@, "#table_June"@, Month::June, pre7);
        assert((current_day, current_artist@) == step.0);
        lemma_extend_extraction(snap7, calendar, acc_ems, step.1);
        acc_ems = acc_ems + step.1;
    }
    let ghost pre8 = (current_day, current_artist@);
    let ghost snap8 = calendar;
    process_month_tables(&mut calendar, &mut current_day, &mut current_artist, doc, "#table_July", Month::July);
    proof {
        let step = month_step(doc@, "#table_July"@, Month::July, pre8);
        assert((current_day, current_artist@) == step.0);
        lemma_extend_extraction(snap8, calendar, acc_ems, step.1);
        acc_ems = acc_ems + step.1;
    }
    let ghost pre9 = (current_day, current_artist@);
    let ghost snap9 = calendar;
    process_month_tables(&mut calendar, &mut current_day, &mut current_artist, doc, "#table_August", Month::August);
    proof {
        let step = month_step(doc@, "#table_August"@, Month::August, pre9);
        assert((current_day, current_artist@) == step.0);
        lemma_extend_extraction(snap9, calendar, acc_ems, step.1);
        acc_ems = acc_ems + step.1;
    }
    let ghost pre10 = (current_day, current_artist@);
    let ghost snap10 = calendar;
    process_month_tables(&mut calendar, &mut current_day, &mut current_artist, doc, "#table_September", Month::September);
    proof {
        let step = month_step(doc@, "#table_September"@, Month::September, pre10);
        assert((current_day, current_artist@) == step.0);
        lemma_extend_extraction(snap10, calendar, acc_ems, step.1);
        acc_ems = acc_ems + step.1;
    }
    let ghost pre11 = (current_day, current_artist@);
    let ghost snap11 = calendar;
    process_month_tables(&mut calendar, &mut current_day, &mut current_artist, doc, "#table_October", Month::October);
    proof {
        let step = month_step(doc@, "#table_October"@, Month::October, pre11);
        assert((current_day, current_artist@) == step.0);
        lemma_extend_extraction(snap11, calendar, acc_ems, step.1);
        acc_ems = acc_ems + step.1;
    }
    let ghost pre12 = (current_day, current_artist@);
    let ghost snap12 = calendar;
    process_month_tables(&mut calendar, &mut current_day, &mut current_artist, doc, "#table_November", Month::November);
    proof {
        let step = month_step(doc@, "#table_November"@, Month::November, pre12);
        assert((current_day, current_artist@) == step.0);
        lemma_extend_extraction(snap12, calendar, acc_ems, step.1);
        acc_ems = acc_ems + step.1;
    }
    let ghost pre13 = (current_day, current_artist@);
    let ghost snap13 = calendar;
    process_month_tables(&mut calendar, &mut current_day, &mut current_artist, doc, "#table_December", Month::December);
    proof {
        let step = month_step(doc@, "#table_December"@, Month::December, pre13);
        assert((current_day, current_artist@) == step.0);
        lemma_extend_extraction(snap13, calendar, acc_ems, step.1);
        acc_ems = acc_ems + step.1;
    }
    proof {
        assert(wiki_emissions(doc@) == acc_ems);
        assert forall|m: Month, d: u8| none_has_info(#[trigger] calendar.releases_at(m, d)) by {
            lemma_wiki_emissions_none_has_info(doc@);
            lemma_ems_filter_none_has_info(wiki_emissions(doc@), m, d);
            assert(none_has_info(Seq::<ReleaseView>::empty()));
            crate::calendar::lemma_add_dedup_none_has_info(
                Seq::<ReleaseView>::empty(),
                ems_filter(wiki_emissions(doc@), m, d),
            );
        }
    }
    calendar
}

/// Builds the calendar of `year` from the wiki source: fetches the year
/// page and extracts it. Fails exactly when the document itself cannot be
/// had; every successful calendar is the extraction of some document, and
/// none of its releases carries archive metadata.
pub fn scrape<C: Client>(client: &C, year: i32) -> (r: Result<Calendar, Error>)
    ensures
        match r {
            Ok(c) => {
                &&& c.wf()
                &&& c.year == year
                &&& exists|doc: Seq<char>| is_extraction_of(c, doc)
                &&& forall|m: Month, d: u8| none_has_info(#[trigger] c.releases_at(m, d))
            },
            Err(_) => true,
        },
{
    let doc = match client.get_calendar(year) {
        Ok(d) => d,
        Err(e) => {
            return Err(e);
        },
    };
    let calendar = extract_calendar(doc.as_str(), year);
    proof {
        assert(exists|d0: Seq<char>| is_extraction_of(calendar, d0)) by {
            assert(is_extraction_of(calendar, doc@));
        }
    }
    Ok(calendar)
}

} // verus!
