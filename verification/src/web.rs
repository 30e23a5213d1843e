//! Logic behind the web layer: the calendar-grid cells shown for a month,
//! and the keyword matcher that custom feeds filter genres with.

use vstd::prelude::*;

use crate::text::chars_of;
use crate::text::is_space_char;
use crate::text::space_char;

verus! {

/// A page of the application, for navigation highlighting.
#[derive(PartialEq, Eq, Structural)]
pub enum Page {
    About,
    Calendar,
    Contact,
    Home,
    Other,
}

/// A single cell of the rendered month grid.
#[derive(Debug)]
pub struct CalendarDay {
    /// The day of the month shown in the cell.
    pub day: u8,
    /// Whether the cell belongs to the previous or next month.
    pub is_outside_month: bool,
    /// How many releases that day has, when it belongs to the month shown.
    pub num_releases: Option<i64>,
}

/// The lower-case form of a string, as `str::to_lowercase` computes it. The
/// value depends on the characters alone.
pub uninterp spec fn lower_of(s: Seq<char>) -> Seq<char>;

/// Relies on `str::to_lowercase`: the Unicode lower-case form of the string.
#[verifier::external_body]
fn lowercase(s: &str) -> (r: String)
    ensures
        r@ == lower_of(s@),
{
    s.to_lowercase()
}

/// The pieces of `s` between delimiter characters when `cur` is the piece
/// being read: empty pieces are kept, and a trailing delimiter yields a final
/// empty piece, as `str::split` does.
pub open spec fn split_acc(s: Seq<char>, cur: Seq<char>, delim: spec_fn(char) -> bool) -> Seq<
    Seq<char>,
>
    decreases s.len(),
{
    if s.len() == 0 {
        seq![cur]
    } else if delim(s[0]) {
        seq![cur] + split_acc(s.drop_first(), seq![], delim)
    } else {
        split_acc(s.drop_first(), cur.push(s[0]), delim)
    }
}

/// Whether `c` separates genre words: whitespace, a comma or a semicolon.
pub open spec fn is_genre_delim(c: char) -> bool {
    is_space_char(c) || c == ',' || c == ';'
}

/// The genre words of `s`.
pub open spec fn split_genre(s: Seq<char>) -> Seq<Seq<char>> {
    split_acc(s, seq![], |c: char| is_genre_delim(c))
}

/// The keywords of `s`, separated by `@`.
pub open spec fn split_keywords(s: Seq<char>) -> Seq<Seq<char>> {
    split_acc(s, seq![], |c: char| c == '@')
}

/// Whether `kw` occurs in `w` as a contiguous substring.
pub open spec fn contains_sub(w: Seq<char>, kw: Seq<char>) -> bool {
    exists|i: int|
        0 <= i <= w.len() - kw.len() && #[trigger] w.subrange(i, i + kw.len() as int) == kw
}

/// Whether any `@`-separated keyword occurs inside any genre word, both
/// sides lower-cased.
pub open spec fn spec_contains_any_keywords(genre: Seq<char>, keywords: Seq<char>) -> bool {
    exists|ki: int, wi: int|
        {
            &&& 0 <= ki < split_keywords(lower_of(keywords)).len()
            &&& 0 <= wi < split_genre(lower_of(genre)).len()
            &&& contains_sub(
                split_genre(lower_of(genre))[wi],
                split_keywords(lower_of(keywords))[ki],
            )
        }
}

/// Splits the characters of `v` at the delimiters that `by_genre` selects:
/// genre delimiters when set, the `@` sign otherwise.
fn split_chars(v: &Vec<char>, by_genre: bool) -> (r: Vec<Vec<char>>)
    ensures
        by_genre ==> crate::text::word_views(r@) == split_genre(v@),
        !by_genre ==> crate::text::word_views(r@) == split_keywords(v@),
{
    let ghost delim: spec_fn(char) -> bool = if by_genre {
        |c: char| is_genre_delim(c)
    } else {
        |c: char| c == '@'
    };
    let n = v.len();
    let mut out: Vec<Vec<char>> = Vec::new();
    let mut cur: Vec<char> = Vec::new();
    let mut i: usize = 0;
    proof {
        assert(v@.skip(0) =~= v@);
        assert(crate::text::word_views(out@) =~= Seq::<Seq<char>>::empty());
        assert(Seq::<Seq<char>>::empty() + split_acc(v@, seq![], delim) =~= split_acc(
            v@,
            seq![],
            delim,
        ));
    }
    while i < n
        invariant
            n == v@.len(),
            i <= n,
            delim == (if by_genre {
                |c: char| is_genre_delim(c)
            } else {
                |c: char| c == '@'
            }),
            split_acc(v@, seq![], delim) == crate::text::word_views(out@) + split_acc(
                v@.skip(i as int),
                cur@,
                delim,
            ),
        decreases n - i,
    {
        proof {
            assert(v@.skip(i as int).drop_first() =~= v@.skip(i + 1));
            assert(v@.skip(i as int)[0] == v@[i as int]);
        }
        let ghost prev_cur = cur@;
        let c = v[i];
        let is_delim = if by_genre {
            space_char(c) || c == ',' || c == ';'
        } else {
            c == '@'
        };
        if is_delim {
            out.push(cur);
            cur = Vec::new();
            proof {
                assert(split_acc(v@.skip(i as int), prev_cur, delim) == seq![prev_cur] + split_acc(
                    v@.skip(i + 1),
                    seq![],
                    delim,
                ));
                assert(crate::text::word_views(out@) =~= crate::text::word_views(
                    out@.drop_last(),
                ).push(prev_cur));
                assert(crate::text::word_views(out@.drop_last()) + (seq![prev_cur] + split_acc(
                    v@.skip(i + 1),
                    seq![],
                    delim,
                )) =~= crate::text::word_views(out@) + split_acc(v@.skip(i + 1), seq![], delim));
            }
        } else {
            cur.push(c);
            proof {
                assert(split_acc(v@.skip(i as int), prev_cur, delim) == split_acc(
                    v@.skip(i + 1),
                    prev_cur.push(v@[i as int]),
                    delim,
                ));
            }
        }
        i = i + 1;
    }
    let ghost prev_cur = cur@;
    out.push(cur);
    proof {
        assert(v@.skip(n as int) =~= Seq::<char>::empty());
        assert(split_acc(Seq::<char>::empty(), prev_cur, delim) == seq![prev_cur]);
        assert(crate::text::word_views(out@) =~= crate::text::word_views(out@.drop_last()).push(
            prev_cur,
        ));
        assert(crate::text::word_views(out@.drop_last()).push(prev_cur)
            =~= crate::text::word_views(out@.drop_last()) + seq![prev_cur]);
        assert(split_acc(v@, seq![], delim) =~= crate::text::word_views(out@));
    }
    out
}

/// Whether `kw` occurs in `w`.
fn contains_chars(w: &Vec<char>, kw: &Vec<char>) -> (r: bool)
    ensures
        r == contains_sub(w@, kw@),
{
    let wlen = w.len();
    let klen = kw.len();
    if klen == 0 {
        proof {
            assert(w@.subrange(0, 0 + kw@.len() as int) =~= kw@);
        }
        return true;
    }
    if klen > wlen {
        proof {
            if contains_sub(w@, kw@) {
                let i = choose|i: int|
                    0 <= i <= w@.len() - kw@.len() && #[trigger] w@.subrange(i, i + kw@.len() as int)
                        == kw@;
                assert(false);
            }
        }
        return false;
    }
    let mut i: usize = 0;
    while i <= wlen - klen
        invariant
            wlen == w@.len(),
            klen == kw@.len(),
            1 <= klen <= wlen,
            i <= wlen - klen + 1,
            forall|q: int| 0 <= q < i ==> #[trigger] w@.subrange(q, q + kw@.len() as int) != kw@,
        decreases wlen - i,
    {
        if crate::text::match_at(w, i, kw) {
            proof {
                assert(w@.skip(i as int).take(klen as int) =~= w@.subrange(
                    i as int,
                    i + klen as int,
                ));
            }
            return true;
        }
        proof {
            assert(w@.skip(i as int).take(klen as int) =~= w@.subrange(i as int, i + klen as int));
        }
        i = i + 1;
    }
    proof {
        if contains_sub(w@, kw@) {
            let q = choose|q: int|
                0 <= q <= w@.len() - kw@.len() && #[trigger] w@.subrange(q, q + kw@.len() as int)
                    == kw@;
            assert(false);
        }
    }
    false
}

/// Whether any of the `@`-separated `keywords` occurs inside any
/// whitespace-, comma- or semicolon-separated word of `genre`, both sides
/// lower-cased first.
pub fn contains_any_keywords(genre: &str, keywords: &str) -> (r: bool)
    ensures
        r == spec_contains_any_keywords(genre@, keywords@),
{
    let g = lowercase(genre);
    let k = lowercase(keywords);
    let gchars = chars_of(g.as_str());
    let kchars = chars_of(k.as_str());
    let gwords = split_chars(&gchars, true);
    let kws = split_chars(&kchars, false);
    let ghost gw = split_genre(lower_of(genre@));
    let ghost kw = split_keywords(lower_of(keywords@));
    let mut ki: usize = 0;
    while ki < kws.len()
        invariant
            gw == split_genre(lower_of(genre@)),
            kw == split_keywords(lower_of(keywords@)),
            crate::text::word_views(gwords@) == gw,
            crate::text::word_views(kws@) == kw,
            ki <= kws@.len(),
            forall|a: int, b: int|
                0 <= a < ki && 0 <= b < gw.len() ==> !contains_sub(#[trigger] gw[b], #[trigger] kw[a]),
        decreases kws@.len() - ki,
    {
        let mut wi: usize = 0;
        while wi < gwords.len()
            invariant
                gw == split_genre(lower_of(genre@)),
                kw == split_keywords(lower_of(keywords@)),
                crate::text::word_views(gwords@) == gw,
                crate::text::word_views(kws@) == kw,
                ki < kws@.len(),
                wi <= gwords@.len(),
                forall|b: int| 0 <= b < wi ==> !contains_sub(#[trigger] gw[b], kw[ki as int]),
            decreases gwords@.len() - wi,
        {
            if contains_chars(&gwords[wi], &kws[ki]) {
                proof {
                    assert(gw[wi as int] == gwords@[wi as int]@);
                    assert(kw[ki as int] == kws@[ki as int]@);
                    assert(spec_contains_any_keywords(genre@, keywords@)) by {
                        assert(0 <= ki < split_keywords(lower_of(keywords@)).len() && 0 <= wi
                            < split_genre(lower_of(genre@)).len() && contains_sub(
                            split_genre(lower_of(genre@))[wi as int],
                            split_keywords(lower_of(keywords@))[ki as int],
                        ));
                    }
                }
                return true;
            }
            proof {
                assert(gw[wi as int] == gwords@[wi as int]@);
                assert(kw[ki as int] == kws@[ki as int]@);
            }
            wi = wi + 1;
        }
        ki = ki + 1;
    }
    proof {
        if spec_contains_any_keywords(genre@, keywords@) {
            let (a, b) = choose|a: int, b: int|
                {
                    &&& 0 <= a < kw.len()
                    &&& 0 <= b < gw.len()
                    &&& contains_sub(gw[b], kw[a])
                };
            assert(false);
        }
    }
    false
}

/// How many trailing cells of the next month the grid shows after a month
/// whose last day falls on the given weekday, counted with Monday as zero.
pub open spec fn spec_last_week_offset(last_weekday: int) -> int {
    if last_weekday == 6 {
        5
    } else if last_weekday >= 1 {
        last_weekday - 1
    } else {
        0
    }
}

/// The cells of the month grid: the tail of the previous month up to the
/// month's first weekday, the month's own days with their release counts,
/// and the head of the next month filling the final week. Weekdays are
/// counted with Monday as zero.
pub fn calculate_calendar(
    days_in_prev_month: u8,
    num_days_current_month: u8,
    first_weekday: u8,
    last_weekday: u8,
    counts: &Vec<Option<i64>>,
) -> (r: Vec<CalendarDay>)
    requires
        first_weekday <= 6,
        last_weekday <= 6,
        days_in_prev_month > first_weekday,
        counts@.len() == num_days_current_month as int,
    ensures
        ({
            let pre = first_weekday + 1;
            let post = spec_last_week_offset(last_weekday as int);
            &&& r@.len() == pre + num_days_current_month + post
            &&& forall|i: int|
                0 <= i < pre ==> {
                    &&& (#[trigger] r@[i]).day == days_in_prev_month - first_weekday + i
                    &&& r@[i].is_outside_month
                    &&& r@[i].num_releases is None
                }
            &&& forall|i: int|
                0 <= i < num_days_current_month ==> {
                    &&& (#[trigger] r@[pre + i]).day == i + 1
                    &&& !r@[pre + i].is_outside_month
                    &&& r@[pre + i].num_releases == counts@[i]
                }
            &&& forall|i: int|
                0 <= i < post ==> {
                    &&& (#[trigger] r@[pre + num_days_current_month + i]).day == i + 1
                    &&& r@[pre + num_days_current_month + i].is_outside_month
                    &&& r@[pre + num_days_current_month + i].num_releases is None
                }
        }),
{
    let mut days: Vec<CalendarDay> = Vec::new();
    let pre: u8 = first_weekday + 1;
    let mut i: u8 = 0;
    while i < pre
        invariant
            pre == first_weekday + 1,
            first_weekday <= 6,
            days_in_prev_month > first_weekday,
            i <= pre,
            days@.len() == i as int,
            forall|q: int|
                0 <= q < i ==> {
                    &&& (#[trigger] days@[q]).day == days_in_prev_month - first_weekday + q
                    &&& days@[q].is_outside_month
                    &&& days@[q].num_releases is None
                },
        decreases pre - i,
    {
        days.push(
            CalendarDay {
                day: days_in_prev_month - first_weekday + i,
                is_outside_month: true,
                num_releases: None,
            },
        );
        i = i + 1;
    }
    let mut j: u8 = 0;
    while j < num_days_current_month
        invariant
            pre == first_weekday + 1,
            counts@.len() == num_days_current_month as int,
            j <= num_days_current_month,
            days@.len() == pre + j,
            forall|q: int|
                0 <= q < pre ==> {
                    &&& (#[trigger] days@[q]).day == days_in_prev_month - first_weekday + q
                    &&& days@[q].is_outside_month
                    &&& days@[q].num_releases is None
                },
            forall|q: int|
                0 <= q < j ==> {
                    &&& (#[trigger] days@[pre + q]).day == q + 1
                    &&& !days@[pre + q].is_outside_month
                    &&& days@[pre + q].num_releases == counts@[q]
                },
        decreases num_days_current_month - j,
    {
        days.push(
            CalendarDay {
                day: j + 1,
                is_outside_month: false,
                num_releases: counts[j as usize],
            },
        );
        j = j + 1;
    }
    let offset_last: u8 = if last_weekday == 6 {
        5
    } else if last_weekday >= 1 {
        last_weekday - 1
    } else {
        0
    };
    let mut k: u8 = 0;
    while k < offset_last
        invariant
            pre == first_weekday + 1,
            counts@.len() == num_days_current_month as int,
            offset_last == spec_last_week_offset(last_weekday as int),
            k <= offset_last,
            days@.len() == pre + num_days_current_month + k,
            forall|q: int|
                0 <= q < pre ==> {
                    &&& (#[trigger] days@[q]).day == days_in_prev_month - first_weekday + q
                    &&& days@[q].is_outside_month
                    &&& days@[q].num_releases is None
                },
            forall|q: int|
                0 <= q < num_days_current_month ==> {
                    &&& (#[trigger] days@[pre + q]).day == q + 1
                    &&& !days@[pre + q].is_outside_month
                    &&& days@[pre + q].num_releases == counts@[q]
                },
            forall|q: int|
                0 <= q < k ==> {
                    &&& (#[trigger] days@[pre + num_days_current_month + q]).day == q + 1
                    &&& days@[pre + num_days_current_month + q].is_outside_month
                    &&& days@[pre + num_days_current_month + q].num_releases is None
                },
        decreases offset_last - k,
    {
        days.push(CalendarDay { day: k + 1, is_outside_month: true, num_releases: None });
        k = k + 1;
    }
    days
}

} // verus!
