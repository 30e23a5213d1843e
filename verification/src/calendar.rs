//! The calendar model: releases for one year, indexed by month and day, with
//! strict structural de-duplication within each day.

use vstd::prelude::*;

use crate::text::normalize_album;
use crate::text::normalize_spec;

verus! {

/// A month of the year.
#[derive(Clone, Copy, Debug, PartialEq, Eq, Structural)]
pub enum Month {
    January,
    February,
    March,
    April,
    May,
    June,
    July,
    August,
    September,
    October,
    November,
    December,
}

impl Month {
    /// The number of the month, 1 for January through 12 for December.
    pub open spec fn spec_number(self) -> int {
        match self {
            Month::January => 1,
            Month::February => 2,
            Month::March => 3,
            Month::April => 4,
            Month::May => 5,
            Month::June => 6,
            Month::July => 7,
            Month::August => 8,
            Month::September => 9,
            Month::October => 10,
            Month::November => 11,
            Month::December => 12,
        }
    }

    /// The number of the month, 1 through 12.
    pub fn number(self) -> (r: u8)
        ensures
            r == self.spec_number(),
            1 <= r <= 12,
    {
        match self {
            Month::January => 1,
            Month::February => 2,
            Month::March => 3,
            Month::April => 4,
            Month::May => 5,
            Month::June => 6,
            Month::July => 7,
            Month::August => 8,
            Month::September => 9,
            Month::October => 10,
            Month::November => 11,
            Month::December => 12,
        }
    }

    /// The month with the given number, 1 through 12.
    pub fn from_number(n: u8) -> (r: Month)
        requires
            1 <= n <= 12,
        ensures
            r.spec_number() == n,
    {
        match n {
            1 => Month::January,
            2 => Month::February,
            3 => Month::March,
            4 => Month::April,
            5 => Month::May,
            6 => Month::June,
            7 => Month::July,
            8 => Month::August,
            9 => Month::September,
            10 => Month::October,
            11 => Month::November,
            _ => Month::December,
        }
    }
}

/// The mathematical value of a [`MetallumInfo`]: its four link and text fields
/// as character sequences.
pub struct MetallumInfoView {
    pub artist_link: Seq<char>,
    pub album_link: Seq<char>,
    pub release_type: Seq<char>,
    pub genre: Seq<char>,
}

/// Information about a release obtained from the metal archive source.
#[derive(Debug, Clone)]
pub struct MetallumInfo {
    pub artist_link: String,
    pub album_link: String,
    pub release_type: String,
    pub genre: String,
}

impl View for MetallumInfo {
    type V = MetallumInfoView;

    open spec fn view(&self) -> MetallumInfoView {
        MetallumInfoView {
            artist_link: self.artist_link@,
            album_link: self.album_link@,
            release_type: self.release_type@,
            genre: self.genre@,
        }
    }
}

impl PartialEq for MetallumInfo {
    fn eq(&self, other: &MetallumInfo) -> (r: bool) {
        self.artist_link == other.artist_link && self.album_link == other.album_link
            && self.release_type == other.release_type && self.genre == other.genre
    }
}

impl vstd::std_specs::cmp::PartialEqSpecImpl for MetallumInfo {
    open spec fn obeys_eq_spec() -> bool {
        true
    }

    open spec fn eq_spec(&self, other: &MetallumInfo) -> bool {
        self@ == other@
    }
}

/// The mathematical value of a [`Release`]: artist, album, and the optional
/// archive metadata.
pub struct ReleaseView {
    pub artist: Seq<char>,
    pub album: Seq<char>,
    pub metallum_info: Option<MetallumInfoView>,
}

/// A heavy metal release: an artist, a whitespace-normalized album title and,
/// for archive-sourced entries only, extra metadata.
#[derive(Debug, Clone)]
pub struct Release {
    pub artist: String,
    pub album: String,
    pub metallum_info: Option<MetallumInfo>,
}

impl View for Release {
    type V = ReleaseView;

    open spec fn view(&self) -> ReleaseView {
        ReleaseView {
            artist: self.artist@,
            album: self.album@,
            metallum_info: match self.metallum_info {
                Some(info) => Some(info@),
                None => None,
            },
        }
    }
}

impl PartialEq for Release {
    fn eq(&self, other: &Release) -> (r: bool) {
        self.artist == other.artist && self.album == other.album && match (
            &self.metallum_info,
            &other.metallum_info,
        ) {
            (Some(a), Some(b)) => a == b,
            (None, None) => true,
            _ => false,
        }
    }
}

impl vstd::std_specs::cmp::PartialEqSpecImpl for Release {
    open spec fn obeys_eq_spec() -> bool {
        true
    }

    open spec fn eq_spec(&self, other: &Release) -> bool {
        self@ == other@
    }
}

impl Release {
    /// A release without archive metadata. The album title is
    /// whitespace-normalized, and a bracketed qualifier, if any, is cut off.
    pub fn new(artist: &str, album: &str) -> (r: Release)
        ensures
            r@.artist == artist@,
            r@.album == normalize_spec(album@),
            r@.metallum_info is None,
    {
        Release {
            artist: String::from_str(artist),
            album: normalize_album(album),
            metallum_info: None,
        }
    }

    /// The same release enriched with archive metadata.
    pub fn with_metallum(
        self,
        artist_link: &str,
        album_link: &str,
        release_type: &str,
        genre: &str,
    ) -> (r: Release)
        ensures
            r@.artist == self@.artist,
            r@.album == self@.album,
            r@.metallum_info == Some(
                MetallumInfoView {
                    artist_link: artist_link@,
                    album_link: album_link@,
                    release_type: release_type@,
                    genre: genre@,
                },
            ),
    {
        Release {
            artist: self.artist,
            album: self.album,
            metallum_info: Some(
                MetallumInfo {
                    artist_link: String::from_str(artist_link),
                    album_link: String::from_str(album_link),
                    release_type: String::from_str(release_type),
                    genre: String::from_str(genre),
                },
            ),
        }
    }
}

/// The views of the releases in `s`, in order.
pub open spec fn rel_views(s: Seq<Release>) -> Seq<ReleaseView> {
    s.map_values(|r: Release| r@)
}

/// The releases of one day of one month, in insertion order.
#[derive(Debug)]
pub struct DayEntry {
    pub day: u8,
    pub releases: Vec<Release>,
}

/// The index of the entry for day `d` in `s`, or `-1` if there is none.
pub open spec fn find_day(s: Seq<DayEntry>, d: u8) -> int
    decreases s.len(),
{
    if s.len() == 0 {
        -1
    } else if s[0].day == d {
        0
    } else {
        let r = find_day(s.drop_first(), d);
        if r == -1 {
            -1
        } else {
            1 + r
        }
    }
}

/// What `find_day` finds: a first entry for the day, or none at all.
proof fn lemma_find_day_props(s: Seq<DayEntry>, d: u8)
    ensures
        find_day(s, d) >= -1,
        find_day(s, d) == -1 ==> forall|i: int| 0 <= i < s.len() ==> (#[trigger] s[i]).day != d,
        find_day(s, d) >= 0 ==> {
            &&& find_day(s, d) < s.len()
            &&& s[find_day(s, d)].day == d
            &&& forall|i: int| 0 <= i < find_day(s, d) ==> (#[trigger] s[i]).day != d
        },
    decreases s.len(),
{
    if s.len() > 0 && s[0].day != d {
        lemma_find_day_props(s.drop_first(), d);
        let r = find_day(s.drop_first(), d);
        let t = s.drop_first();
        if r >= 0 {
            assert(s[1 + r] == t[r]);
            assert forall|i: int| 0 <= i < 1 + r implies (#[trigger] s[i]).day != d by {
                if i >= 1 {
                    assert(t[i - 1] == s[i]);
                }
            }
        } else {
            assert(forall|j: int| 0 <= j < t.len() ==> (#[trigger] t[j]).day != d);
            assert forall|i: int| 0 <= i < s.len() implies (#[trigger] s[i]).day != d by {
                if i >= 1 {
                    assert(t[i - 1] == s[i]);
                }
            }
        }
    }
}

/// An index holding day `d`, preceded by no entry for `d`, is what `find_day`
/// returns; a `d`-free list gives `-1`.
proof fn lemma_find_day_at(s: Seq<DayEntry>, d: u8, k: int)
    requires
        0 <= k <= s.len(),
        forall|i: int| 0 <= i < k ==> (#[trigger] s[i]).day != d,
        k < s.len() ==> s[k].day == d,
    ensures
        k < s.len() ==> find_day(s, d) == k,
        k == s.len() ==> find_day(s, d) == -1,
    decreases k,
{
    if s.len() > 0 && k > 0 {
        assert(forall|i: int| 0 <= i < k - 1 ==> s.drop_first()[i] == s[i + 1]);
        lemma_find_day_at(s.drop_first(), d, k - 1);
    }
}

/// The releases stored for day `d` in the day list `s`, or the empty sequence.
pub open spec fn month_releases(s: Seq<DayEntry>, d: u8) -> Seq<ReleaseView> {
    let i = find_day(s, d);
    if i >= 0 {
        rel_views(s[i].releases@)
    } else {
        seq![]
    }
}

/// No two elements of `s` are the same value.
pub open spec fn distinct_releases(rs: Seq<ReleaseView>) -> bool {
    forall|i: int, j: int| 0 <= i < j < rs.len() ==> rs[i] != rs[j]
}

/// A well-formed day list: one entry per day, each non-empty and without
/// duplicate releases.
pub open spec fn month_wf(s: Seq<DayEntry>) -> bool {
    &&& forall|i: int, j: int|
        0 <= i < j < s.len() ==> (#[trigger] s[i]).day != (#[trigger] s[j]).day
    &&& forall|i: int|
        0 <= i < s.len() ==> (#[trigger] s[i]).releases@.len() > 0 && distinct_releases(
            rel_views(s[i].releases@),
        )
}

/// A calendar of releases for one year, organized by month and day.
///
/// All twelve months are present from the start; days appear as releases for
/// them arrive. Within one day a release value is stored at most once.
#[derive(Debug)]
pub struct Calendar {
    pub year: i32,
    pub months: Vec<Vec<DayEntry>>,
}

impl Calendar {
    /// The day lists of month `m`.
    pub open spec fn month_seq(self, m: Month) -> Seq<DayEntry> {
        self.months@[m.spec_number() - 1]@
    }

    /// The releases recorded for day `d` of month `m`, in insertion order;
    /// empty if the day has no entry.
    pub open spec fn releases_at(self, m: Month, d: u8) -> Seq<ReleaseView> {
        month_releases(self.month_seq(m), d)
    }

    /// Structural well-formedness: twelve months, days unique within each
    /// month, day lists non-empty and duplicate-free.
    pub open spec fn wf(self) -> bool {
        &&& self.months@.len() == 12
        &&& forall|mi: int| 0 <= mi < 12 ==> month_wf(#[trigger] self.months@[mi]@)
    }

    /// A calendar for `year` with all twelve months present and empty.
    pub fn new(year: i32) -> (r: Calendar)
        ensures
            r.wf(),
            r.year == year,
            forall|m: Month, d: u8| #[trigger] r.releases_at(m, d) == Seq::<ReleaseView>::empty(),
    {
        let mut months: Vec<Vec<DayEntry>> = Vec::new();
        let mut i: usize = 0;
        while i < 12
            invariant
                i <= 12,
                months@.len() == i,
                forall|mi: int| 0 <= mi < i ==> (#[trigger] months@[mi])@.len() == 0,
            decreases 12 - i,
        {
            months.push(Vec::new());
            i = i + 1;
        }
        let r = Calendar { year, months };
        proof {
            assert forall|m: Month, d: u8| #[trigger] r.releases_at(m, d) == Seq::<
                ReleaseView,
            >::empty() by {
                assert(r.month_seq(m).len() == 0);
            }
        }
        r
    }
}

/// Distinct months carry distinct numbers.
proof fn lemma_month_number_injective(a: Month, b: Month)
    requires
        a.spec_number() == b.spec_number(),
    ensures
        a == b,
{
}

/// Whether a release with the view of `r` is already among `v`.
fn contains_release(v: &Vec<Release>, r: &Release) -> (b: bool)
    ensures
        b == rel_views(v@).contains(r@),
{
    let n = v.len();
    let mut i: usize = 0;
    while i < n
        invariant
            i <= n,
            n == v@.len(),
            forall|q: int| 0 <= q < i ==> (#[trigger] v@[q])@ != r@,
        decreases n - i,
    {
        if &v[i] == r {
            proof {
                assert(rel_views(v@)[i as int] == r@);
            }
            return true;
        }
        i = i + 1;
    }
    proof {
        assert forall|q: int| 0 <= q < rel_views(v@).len() implies #[trigger] rel_views(v@)[q]
            != r@ by {
            assert(rel_views(v@)[q] == v@[q]@);
        }
    }
    false
}

impl Calendar {
    /// Appends `release` to the given day unless a structurally equal release
    /// is already recorded there; every other day is untouched.
    pub fn add_release(&mut self, month: Month, day: u8, release: Release)
        requires
            old(self).wf(),
        ensures
            final(self).wf(),
            final(self).year == old(self).year,
            forall|m2: Month, d2: u8|
                !(m2 == month && d2 == day) ==> final(self).releases_at(m2, d2) == old(
                    self,
                ).releases_at(m2, d2),
            old(self).releases_at(month, day).contains(release@) ==> *final(self) == *old(self),
            !old(self).releases_at(month, day).contains(release@) ==> final(self).releases_at(
                month,
                day,
            ) == old(self).releases_at(month, day).push(release@),
    {
        let mi = (month.number() - 1) as usize;
        let ghost old_inner = self.months@[mi as int]@;
        let mlen = self.months[mi].len();
        let mut k: usize = 0;
        while k < mlen && self.months[mi][k].day != day
            invariant
                mi < 12,
                self == old(self),
                mlen == self.months@[mi as int]@.len(),
                old(self).wf(),
                k <= mlen,
                forall|q: int| 0 <= q < k ==> (#[trigger] self.months@[mi as int]@[q]).day != day,
            decreases mlen - k,
        {
            k = k + 1;
        }
        proof {
            lemma_find_day_at(old_inner, day, k as int);
        }
        if k < mlen {
            let present = contains_release(&self.months[mi][k].releases, &release);
            proof {
                assert(old(self).releases_at(month, day) == rel_views(old_inner[k as int].releases@));
            }
            if !present {
                self.months[mi][k].releases.push(release);
                proof {
                    let new_inner = self.months@[mi as int]@;
                    let e = old_inner[k as int];
                    let e2 = new_inner[k as int];
                    assert(new_inner =~= old_inner.update(
                        k as int,
                        DayEntry { day: e.day, releases: e2.releases },
                    ));
                    assert(e2.releases@ == e.releases@.push(release));
                    assert(rel_views(e2.releases@) =~= rel_views(e.releases@).push(release@));
                    lemma_find_day_at(new_inner, day, k as int);
                    assert(month_wf(new_inner)) by {
                        assert(forall|i: int|
                            0 <= i < new_inner.len() && i != k ==> new_inner[i]
                                == old_inner[i]);
                        assert(distinct_releases(rel_views(e2.releases@))) by {
                            let rv = rel_views(e.releases@);
                            let rv2 = rel_views(e2.releases@);
                            assert(forall|i: int| 0 <= i < rv.len() ==> rv2[i] == rv[i]);
                            assert(rv2[rv.len() as int] == release@);
                            assert(forall|i: int| 0 <= i < rv.len() ==> rv[i] != release@);
                        }
                    }
                    assert forall|m2: Month, d2: u8|
                        !(m2 == month && d2 == day) implies self.releases_at(m2, d2) == old(
                        self,
                    ).releases_at(m2, d2) by {
                        if m2 == month {
                            lemma_find_day_props(old_inner, d2);
                            let f = find_day(old_inner, d2);
                            if f >= 0 {
                                lemma_find_day_at(new_inner, d2, f);
                                assert(new_inner[f] == old_inner[f]);
                            } else {
                                lemma_find_day_at(new_inner, d2, new_inner.len() as int);
                            }
                        } else {
                            if m2.spec_number() == month.spec_number() {
                                lemma_month_number_injective(m2, month);
                            }
                            assert(self.month_seq(m2) == old(self).month_seq(m2));
                        }
                    }
                }
            }
        } else {
            let mut rs: Vec<Release> = Vec::new();
            rs.push(release);
            self.months[mi].push(DayEntry { day, releases: rs });
            proof {
                let new_inner = self.months@[mi as int]@;
                assert(new_inner.len() == old_inner.len() + 1);
                assert(forall|i: int| 0 <= i < old_inner.len() ==> new_inner[i] == old_inner[i]);
                assert(new_inner[old_inner.len() as int].day == day);
                assert(new_inner[old_inner.len() as int].releases@.len() == 1);
                lemma_find_day_at(new_inner, day, old_inner.len() as int);
                assert(old(self).releases_at(month, day) == Seq::<ReleaseView>::empty());
                assert(rel_views(new_inner[old_inner.len() as int].releases@) =~= Seq::<
                    ReleaseView,
                >::empty().push(release@));
                assert(month_wf(new_inner)) by {
                    assert forall|i: int, j: int|
                        0 <= i < j < new_inner.len() implies (#[trigger] new_inner[i]).day != (
                    #[trigger] new_inner[j]).day by {
                        if j == old_inner.len() {
                            assert(new_inner[i].day != day);
                        }
                    }
                    assert forall|i: int|
                        0 <= i < new_inner.len() implies (#[trigger] new_inner[i]).releases@.len()
                        > 0 && distinct_releases(rel_views(new_inner[i].releases@)) by {
                        if i < old_inner.len() {
                            assert(new_inner[i] == old_inner[i]);
                        } else {
                            assert(rel_views(new_inner[i].releases@).len() == 1);
                        }
                    }
                }
                assert forall|m2: Month, d2: u8|
                    !(m2 == month && d2 == day) implies self.releases_at(m2, d2) == old(
                    self,
                ).releases_at(m2, d2) by {
                    if m2 == month {
                        lemma_find_day_props(old_inner, d2);
                        let f = find_day(old_inner, d2);
                        if f >= 0 {
                            lemma_find_day_at(new_inner, d2, f);
                            assert(new_inner[f] == old_inner[f]);
                        } else {
                            assert(d2 != day);
                            lemma_find_day_at(new_inner, d2, new_inner.len() as int);
                        }
                    } else {
                        if m2.spec_number() == month.spec_number() {
                            lemma_month_number_injective(m2, month);
                        }
                        assert(self.month_seq(m2) == old(self).month_seq(m2));
                    }
                }
            }
        }
    }

    /// The releases recorded for the given day, if it has an entry.
    pub fn get_releases(&self, month: Month, day: u8) -> (r: Option<&Vec<Release>>)
        requires
            self.wf(),
        ensures
            match r {
                Some(v) => rel_views(v@) == self.releases_at(month, day) && v@.len() > 0,
                None => self.releases_at(month, day) == Seq::<ReleaseView>::empty(),
            },
    {
        let mi = (month.number() - 1) as usize;
        let mlen = self.months[mi].len();
        let mut k: usize = 0;
        while k < mlen && self.months[mi][k].day != day
            invariant
                mi < 12,
                self.wf(),
                mlen == self.months@[mi as int]@.len(),
                k <= mlen,
                forall|q: int| 0 <= q < k ==> (#[trigger] self.months@[mi as int]@[q]).day != day,
            decreases mlen - k,
        {
            k = k + 1;
        }
        proof {
            lemma_find_day_at(self.months@[mi as int]@, day, k as int);
        }
        if k < mlen {
            Some(&self.months[mi][k].releases)
        } else {
            None
        }
    }
}

/// `acc` extended by the members of `b` in order, skipping any already
/// present: the per-day rule by which releases accumulate.
pub open spec fn add_dedup(acc: Seq<ReleaseView>, b: Seq<ReleaseView>) -> Seq<ReleaseView>
    decreases b.len(),
{
    if b.len() == 0 {
        acc
    } else {
        let acc2 = if acc.contains(b[0]) {
            acc
        } else {
            acc.push(b[0])
        };
        add_dedup(acc2, b.drop_first())
    }
}

/// What one day of a merged calendar holds: first the left calendar's
/// releases, then the right's, each added under the de-duplication rule.
pub open spec fn merge_day(a: Seq<ReleaseView>, b: Seq<ReleaseView>) -> Seq<ReleaseView> {
    add_dedup(add_dedup(seq![], a), b)
}

/// Adding one more release after `b` either appends it or, when already
/// present, changes nothing.
pub(crate) proof fn lemma_add_dedup_snoc(acc: Seq<ReleaseView>, b: Seq<ReleaseView>, x: ReleaseView)
    ensures
        add_dedup(acc, b.push(x)) == {
            let a2 = add_dedup(acc, b);
            if a2.contains(x) {
                a2
            } else {
                a2.push(x)
            }
        },
    decreases b.len(),
{
    if b.len() == 0 {
        assert(b.push(x)[0] == x);
        assert(b.push(x).drop_first() =~= Seq::<ReleaseView>::empty());
        let acc2 = if acc.contains(x) {
            acc
        } else {
            acc.push(x)
        };
        assert(add_dedup(acc, b.push(x)) == add_dedup(acc2, b.push(x).drop_first()));
        assert(add_dedup(acc2, b.push(x).drop_first()) == acc2);
        assert(add_dedup(acc, b) == acc);
    } else {
        assert(b.push(x)[0] == b[0]);
        assert(b.push(x).drop_first() =~= b.drop_first().push(x));
        let acc2 = if acc.contains(b[0]) {
            acc
        } else {
            acc.push(b[0])
        };
        lemma_add_dedup_snoc(acc2, b.drop_first(), x);
        assert(add_dedup(acc, b.push(x)) == add_dedup(acc2, b.drop_first().push(x)));
        assert(add_dedup(acc, b) == add_dedup(acc2, b.drop_first()));
    }
}

/// Releases already accumulated are never lost by adding more.
proof fn lemma_add_dedup_keeps_acc(acc: Seq<ReleaseView>, b: Seq<ReleaseView>, x: ReleaseView)
    requires
        acc.contains(x),
    ensures
        add_dedup(acc, b).contains(x),
    decreases b.len(),
{
    if b.len() > 0 {
        let acc2 = if acc.contains(b[0]) {
            acc
        } else {
            acc.push(b[0])
        };
        if !acc.contains(b[0]) {
            let i = choose|i: int| 0 <= i < acc.len() && acc[i] == x;
            assert(acc2[i] == x);
        }
        lemma_add_dedup_keeps_acc(acc2, b.drop_first(), x);
    }
}

/// Every release offered to `add_dedup` is present afterwards.
proof fn lemma_add_dedup_keeps_new(acc: Seq<ReleaseView>, b: Seq<ReleaseView>, i: int)
    requires
        0 <= i < b.len(),
    ensures
        add_dedup(acc, b).contains(b[i]),
    decreases b.len(),
{
    let acc2 = if acc.contains(b[0]) {
        acc
    } else {
        acc.push(b[0])
    };
    if i == 0 {
        if acc.contains(b[0]) {
            lemma_add_dedup_keeps_acc(acc2, b.drop_first(), b[0]);
        } else {
            assert(acc2[acc.len() as int] == b[0]);
            lemma_add_dedup_keeps_acc(acc2, b.drop_first(), b[0]);
        }
    } else {
        assert(b.drop_first()[i - 1] == b[i]);
        lemma_add_dedup_keeps_new(acc2, b.drop_first(), i - 1);
    }
}

/// Adding releases that are all already present changes nothing.
proof fn lemma_add_dedup_subsumed(acc: Seq<ReleaseView>, b: Seq<ReleaseView>)
    requires
        forall|i: int| 0 <= i < b.len() ==> acc.contains(#[trigger] b[i]),
    ensures
        add_dedup(acc, b) == acc,
    decreases b.len(),
{
    if b.len() > 0 {
        assert(acc.contains(b[0]));
        assert(forall|i: int| 0 <= i < b.drop_first().len() ==> b.drop_first()[i] == b[i + 1]);
        lemma_add_dedup_subsumed(acc, b.drop_first());
    }
}

/// Accumulating a duplicate-free sequence into an empty day reproduces it
/// exactly.
proof fn lemma_add_dedup_distinct_prefix(acc: Seq<ReleaseView>, b: Seq<ReleaseView>)
    requires
        distinct_releases(acc + b),
    ensures
        add_dedup(acc, b) == acc + b,
    decreases b.len(),
{
    if b.len() == 0 {
        assert(acc + b =~= acc);
    } else {
        let all = acc + b;
        assert(!acc.contains(b[0])) by {
            if acc.contains(b[0]) {
                let i = choose|i: int| 0 <= i < acc.len() && acc[i] == b[0];
                assert(all[i] == acc[i]);
                assert(all[acc.len() as int] == b[0]);
            }
        }
        assert(acc.push(b[0]) + b.drop_first() =~= acc + b);
        lemma_add_dedup_distinct_prefix(acc.push(b[0]), b.drop_first());
    }
}

/// A duplicate-free day added to an empty one is reproduced exactly.
pub proof fn lemma_add_dedup_distinct(b: Seq<ReleaseView>)
    requires
        distinct_releases(b),
    ensures
        add_dedup(seq![], b) == b,
{
    assert(Seq::<ReleaseView>::empty() + b =~= b);
    lemma_add_dedup_distinct_prefix(seq![], b);
}

/// Adding two batches one after the other is adding their concatenation.
pub proof fn lemma_add_dedup_append(acc: Seq<ReleaseView>, a: Seq<ReleaseView>, b: Seq<ReleaseView>)
    ensures
        add_dedup(acc, a + b) == add_dedup(add_dedup(acc, a), b),
    decreases a.len(),
{
    if a.len() == 0 {
        assert(a + b =~= b);
        assert(add_dedup(acc, a) == acc);
    } else {
        let acc2 = if acc.contains(a[0]) {
            acc
        } else {
            acc.push(a[0])
        };
        assert((a + b)[0] == a[0]);
        assert((a + b).drop_first() =~= a.drop_first() + b);
        lemma_add_dedup_append(acc2, a.drop_first(), b);
    }
}

impl MetallumInfo {
    /// An equal copy of this metadata.
    fn duplicate(&self) -> (r: MetallumInfo)
        ensures
            r == *self,
    {
        MetallumInfo {
            artist_link: self.artist_link.clone(),
            album_link: self.album_link.clone(),
            release_type: self.release_type.clone(),
            genre: self.genre.clone(),
        }
    }
}

impl Release {
    /// An equal copy of this release.
    fn duplicate(&self) -> (r: Release)
        ensures
            r == *self,
    {
        Release {
            artist: self.artist.clone(),
            album: self.album.clone(),
            metallum_info: match &self.metallum_info {
                Some(info) => Some(info.duplicate()),
                None => None,
            },
        }
    }
}

impl Calendar {
    /// Adds every release of `rs` to day `d` of month `m`, in order, under the
    /// de-duplication rule.
    fn absorb_day(&mut self, m: Month, d: u8, rs: &Vec<Release>)
        requires
            old(self).wf(),
        ensures
            final(self).wf(),
            final(self).year == old(self).year,
            forall|m2: Month, d2: u8|
                !(m2 == m && d2 == d) ==> final(self).releases_at(m2, d2) == old(
                    self,
                ).releases_at(m2, d2),
            final(self).releases_at(m, d) == add_dedup(
                old(self).releases_at(m, d),
                rel_views(rs@),
            ),
    {
        let n = rs.len();
        let mut i: usize = 0;
        proof {
            assert(rel_views(rs@).take(0) =~= Seq::<ReleaseView>::empty());
        }
        while i < n
            invariant
                self.wf(),
                self.year == old(self).year,
                n == rs@.len(),
                i <= n,
                forall|m2: Month, d2: u8|
                    !(m2 == m && d2 == d) ==> #[trigger] self.releases_at(m2, d2) == old(
                        self,
                    ).releases_at(m2, d2),
                self.releases_at(m, d) == add_dedup(
                    old(self).releases_at(m, d),
                    rel_views(rs@).take(i as int),
                ),
            decreases n - i,
        {
            let ghost pre = self.releases_at(m, d);
            let ghost done = rel_views(rs@).take(i as int);
            let r = rs[i].duplicate();
            proof {
                lemma_add_dedup_snoc(old(self).releases_at(m, d), done, r@);
                assert(done.push(r@) =~= rel_views(rs@).take(i + 1)) by {
                    assert(rel_views(rs@)[i as int] == rs@[i as int]@);
                }
            }
            self.add_release(m, d, r);
            i = i + 1;
        }
        proof {
            assert(rel_views(rs@).take(n as int) =~= rel_views(rs@));
        }
    }

    /// Adds every day entry of `entries` to month `m`, under the
    /// de-duplication rule.
    fn absorb_month(&mut self, m: Month, entries: &Vec<DayEntry>)
        requires
            old(self).wf(),
            month_wf(entries@),
        ensures
            final(self).wf(),
            final(self).year == old(self).year,
            forall|m2: Month, d2: u8|
                m2 != m ==> final(self).releases_at(m2, d2) == old(self).releases_at(m2, d2),
            forall|d: u8|
                final(self).releases_at(m, d) == add_dedup(
                    #[trigger] old(self).releases_at(m, d),
                    month_releases(entries@, d),
                ),
    {
        let n = entries.len();
        let mut k: usize = 0;
        while k < n
            invariant
                self.wf(),
                self.year == old(self).year,
                month_wf(entries@),
                n == entries@.len(),
                k <= n,
                forall|m2: Month, d2: u8|
                    m2 != m ==> #[trigger] self.releases_at(m2, d2) == old(self).releases_at(
                        m2,
                        d2,
                    ),
                forall|d: u8|
                    self.releases_at(m, d) == add_dedup(
                        #[trigger] old(self).releases_at(m, d),
                        month_releases(entries@.take(k as int), d),
                    ),
            decreases n - k,
        {
            let dk = entries[k].day;
            proof {
                assert(forall|q: int|
                    0 <= q < k ==> (#[trigger] entries@.take(k as int)[q]).day
                        == entries@[q].day);
                assert(forall|q: int| 0 <= q < k ==> (#[trigger] entries@[q]).day != dk);
                lemma_find_day_at(entries@.take(k as int), dk, k as int);
                assert(month_releases(entries@.take(k as int), dk) == Seq::<
                    ReleaseView,
                >::empty());
            }
            self.absorb_day(m, dk, &entries[k].releases);
            k = k + 1;
            proof {
                let tk = entries@.take(k as int);
                assert(forall|q: int| 0 <= q < k ==> #[trigger] tk[q] == entries@[q]);
                assert forall|d: u8|
                    self.releases_at(m, d) == add_dedup(
                        #[trigger] old(self).releases_at(m, d),
                        month_releases(tk, d),
                    ) by {
                    let tk1 = entries@.take(k - 1);
                    assert(forall|q: int| 0 <= q < k - 1 ==> #[trigger] tk1[q] == entries@[q]);
                    if d == dk {
                        lemma_find_day_at(tk, d, k - 1);
                        assert(month_releases(tk, d) == rel_views(
                            entries@[k - 1].releases@,
                        ));
                        assert(month_releases(tk1, d) == Seq::<ReleaseView>::empty());
                    } else {
                        lemma_find_day_props(tk1, d);
                        let f = find_day(tk1, d);
                        if f >= 0 {
                            lemma_find_day_at(tk, d, f);
                            assert(tk[f] == tk1[f]);
                        } else {
                            lemma_find_day_at(tk, d, k as int);
                        }
                        assert(month_releases(tk, d) == month_releases(tk1, d));
                    }
                }
            }
        }
        proof {
            assert(entries@.take(n as int) =~= entries@);
        }
    }

    /// Adds every release of `src` to this calendar, month by month, day by
    /// day, in `src`'s stored order, under the de-duplication rule.
    fn absorb(&mut self, src: &Calendar)
        requires
            old(self).wf(),
            src.wf(),
        ensures
            final(self).wf(),
            final(self).year == old(self).year,
            forall|m: Month, d: u8|
                final(self).releases_at(m, d) == add_dedup(
                    #[trigger] old(self).releases_at(m, d),
                    src.releases_at(m, d),
                ),
    {
        let mut mi: u8 = 1;
        while mi <= 12
            invariant
                self.wf(),
                self.year == old(self).year,
                src.wf(),
                1 <= mi <= 13,
                forall|m: Month, d: u8|
                    m.spec_number() < mi ==> #[trigger] self.releases_at(m, d) == add_dedup(
                        old(self).releases_at(m, d),
                        src.releases_at(m, d),
                    ),
                forall|m: Month, d: u8|
                    m.spec_number() >= mi ==> #[trigger] self.releases_at(m, d) == old(
                        self,
                    ).releases_at(m, d),
            decreases 13 - mi,
        {
            let m = Month::from_number(mi);
            let ghost snap = *self;
            self.absorb_month(m, &src.months[(mi - 1) as usize]);
            proof {
                assert forall|m2: Month, d: u8|
                    m2.spec_number() < mi + 1 implies #[trigger] self.releases_at(m2, d)
                    == add_dedup(old(self).releases_at(m2, d), src.releases_at(m2, d)) by {
                    if m2.spec_number() < mi {
                        assert(m2 != m);
                        assert(self.releases_at(m2, d) == snap.releases_at(m2, d));
                    } else {
                        lemma_month_number_injective(m2, m);
                        assert(self.releases_at(m, d) == add_dedup(
                            snap.releases_at(m, d),
                            month_releases(src.months@[mi - 1]@, d),
                        ));
                        assert(month_releases(src.months@[mi - 1]@, d) == src.releases_at(m, d));
                        assert(snap.releases_at(m, d) == old(self).releases_at(m, d));
                    }
                }
                assert forall|m2: Month, d: u8|
                    m2.spec_number() >= mi + 1 implies #[trigger] self.releases_at(m2, d) == old(
                    self,
                ).releases_at(m2, d) by {
                    assert(m2 != m);
                    assert(self.releases_at(m2, d) == snap.releases_at(m2, d));
                }
            }
            mi = mi + 1;
        }
    }

    /// A new calendar holding every release of `self` and then every release
    /// of `other`, with the per-day de-duplication rule applied throughout.
    /// Neither input is changed.
    pub fn merge(&self, other: &Calendar) -> (r: Calendar)
        requires
            self.wf(),
            other.wf(),
        ensures
            r.wf(),
            r.year == self.year,
            forall|m: Month, d: u8|
                #[trigger] r.releases_at(m, d) == merge_day(
                    self.releases_at(m, d),
                    other.releases_at(m, d),
                ),
    {
        let mut r = Calendar::new(self.year);
        let ghost r0 = r;
        r.absorb(self);
        let ghost r1 = r;
        r.absorb(other);
        proof {
            assert forall|m: Month, d: u8| #[trigger] r.releases_at(m, d) == merge_day(
                self.releases_at(m, d),
                other.releases_at(m, d),
            ) by {
                assert(r0.releases_at(m, d) == Seq::<ReleaseView>::empty());
                assert(r1.releases_at(m, d) == add_dedup(
                    r0.releases_at(m, d),
                    self.releases_at(m, d),
                ));
                assert(r.releases_at(m, d) == add_dedup(
                    r1.releases_at(m, d),
                    other.releases_at(m, d),
                ));
            }
        }
        r
    }
}

/// De-duplication within a day: however a well-formed calendar was built, no
/// day lists the same release value twice, so adding a release a second time
/// cannot produce a second entry.
pub proof fn lemma_day_entries_distinct(c: Calendar, m: Month, d: u8)
    requires
        c.wf(),
    ensures
        distinct_releases(c.releases_at(m, d)),
{
    let s = c.month_seq(m);
    lemma_find_day_props(s, d);
}

/// Merge identity: merging a well-formed calendar's day with itself gives
/// back exactly that day, since each release is its own exact duplicate.
/// Together with the contract of [`Calendar::merge`], the merge of a calendar
/// with itself holds, for every month and day, the same releases as the
/// calendar alone.
pub proof fn lemma_merge_identity(a: Seq<ReleaseView>)
    requires
        distinct_releases(a),
    ensures
        merge_day(a, a) == a,
{
    lemma_add_dedup_distinct(a);
    assert forall|i: int| 0 <= i < a.len() implies a.contains(#[trigger] a[i]) by {
    }
    lemma_add_dedup_subsumed(a, a);
}

/// No release of `rs` carries archive metadata, as wiki-sourced entries
/// never do.
pub open spec fn none_has_info(rs: Seq<ReleaseView>) -> bool {
    forall|i: int| 0 <= i < rs.len() ==> (#[trigger] rs[i]).metallum_info is None
}

/// Every release of `rs` carries archive metadata, as archive-sourced
/// entries always do.
pub open spec fn each_has_info(rs: Seq<ReleaseView>) -> bool {
    forall|i: int| 0 <= i < rs.len() ==> (#[trigger] rs[i]).metallum_info is Some
}

/// `add_dedup` only selects: a property of every element of both inputs
/// holds of every element of the result.
pub proof fn lemma_add_dedup_elements(
    acc: Seq<ReleaseView>,
    b: Seq<ReleaseView>,
    p: spec_fn(ReleaseView) -> bool,
)
    requires
        forall|i: int| 0 <= i < acc.len() ==> p(#[trigger] acc[i]),
        forall|i: int| 0 <= i < b.len() ==> p(#[trigger] b[i]),
    ensures
        forall|i: int| 0 <= i < add_dedup(acc, b).len() ==> p(#[trigger] add_dedup(acc, b)[i]),
    decreases b.len(),
{
    if b.len() > 0 {
        let acc2 = if acc.contains(b[0]) {
            acc
        } else {
            acc.push(b[0])
        };
        assert forall|i: int| 0 <= i < acc2.len() implies p(#[trigger] acc2[i]) by {
            if i < acc.len() {
                assert(acc2[i] == acc[i]);
            } else {
                assert(acc2[i] == b[0]);
            }
        }
        assert(forall|i: int|
            0 <= i < b.drop_first().len() ==> #[trigger] b.drop_first()[i] == b[i + 1]);
        lemma_add_dedup_elements(acc2, b.drop_first(), p);
        assert(add_dedup(acc, b) == add_dedup(acc2, b.drop_first()));
        assert forall|i: int|
            0 <= i < add_dedup(acc, b).len() implies p(#[trigger] add_dedup(acc, b)[i]) by {
            assert(add_dedup(acc, b)[i] == add_dedup(acc2, b.drop_first())[i]);
        }
    }
}

/// Accumulating metadata-free releases leaves the day metadata-free.
pub proof fn lemma_add_dedup_none_has_info(acc: Seq<ReleaseView>, b: Seq<ReleaseView>)
    requires
        none_has_info(acc),
        none_has_info(b),
    ensures
        none_has_info(add_dedup(acc, b)),
{
    let p = |rv: ReleaseView| rv.metallum_info is None;
    assert forall|i: int| 0 <= i < acc.len() implies p(#[trigger] acc[i]) by {}
    assert forall|i: int| 0 <= i < b.len() implies p(#[trigger] b[i]) by {}
    lemma_add_dedup_elements(acc, b, p);
    assert forall|i: int|
        0 <= i < add_dedup(acc, b).len() implies (#[trigger] add_dedup(acc, b)[i]).metallum_info
        is None by {
        assert(p(add_dedup(acc, b)[i]));
    }
}

/// Accumulating metadata-carrying releases leaves every stored release with
/// its metadata.
pub proof fn lemma_add_dedup_each_has_info(acc: Seq<ReleaseView>, b: Seq<ReleaseView>)
    requires
        each_has_info(acc),
        each_has_info(b),
    ensures
        each_has_info(add_dedup(acc, b)),
{
    let p = |rv: ReleaseView| rv.metallum_info is Some;
    assert forall|i: int| 0 <= i < acc.len() implies p(#[trigger] acc[i]) by {}
    assert forall|i: int| 0 <= i < b.len() implies p(#[trigger] b[i]) by {}
    lemma_add_dedup_elements(acc, b, p);
    assert forall|i: int|
        0 <= i < add_dedup(acc, b).len() implies (#[trigger] add_dedup(acc, b)[i]).metallum_info
        is Some by {
        assert(p(add_dedup(acc, b)[i]));
    }
}

/// Merge identity at the calendar level: by the contract of
/// [`Calendar::merge`], merging a well-formed calendar with itself yields,
/// for every month and day, exactly the releases of that calendar alone.
pub proof fn lemma_merge_self(c: Calendar, m: Month, d: u8)
    requires
        c.wf(),
    ensures
        merge_day(c.releases_at(m, d), c.releases_at(m, d)) == c.releases_at(m, d),
{
    lemma_day_entries_distinct(c, m, d);
    lemma_merge_identity(c.releases_at(m, d));
}

/// Merging never loses a release: whatever stood in either day stands in the
/// merged day. Two releases that differ in any field — for instance the same
/// artist and album with and without archive metadata — therefore both
/// survive the merge; releases are never unified across sources.
pub proof fn lemma_merge_keeps_both(
    a: Seq<ReleaseView>,
    b: Seq<ReleaseView>,
    r1: ReleaseView,
    r2: ReleaseView,
)
    requires
        a.contains(r1),
        b.contains(r2),
    ensures
        merge_day(a, b).contains(r1),
        merge_day(a, b).contains(r2),
{
    let a1 = add_dedup(seq![], a);
    let i = choose|i: int| 0 <= i < a.len() && a[i] == r1;
    lemma_add_dedup_keeps_new(seq![], a, i);
    lemma_add_dedup_keeps_acc(a1, b, r1);
    let j = choose|j: int| 0 <= j < b.len() && b[j] == r2;
    lemma_add_dedup_keeps_new(a1, b, j);
}

} // verus!
