//! Character-level text utilities: whitespace classification, trimming,
//! splitting into words, and whitespace normalization of album titles.

use vstd::prelude::*;

verus! {

/// Whether `c` has the Unicode `White_Space` property, the set of characters
/// that `str::split_whitespace` and `str::trim` split and trim on.
pub open spec fn is_space_char(c: char) -> bool {
    c == '\u{0009}' || c == '\u{000A}' || c == '\u{000B}' || c == '\u{000C}'
        || c == '\u{000D}' || c == '\u{0020}' || c == '\u{0085}' || c == '\u{00A0}'
        || c == '\u{1680}' || c == '\u{2000}' || c == '\u{2001}' || c == '\u{2002}'
        || c == '\u{2003}' || c == '\u{2004}' || c == '\u{2005}' || c == '\u{2006}'
        || c == '\u{2007}' || c == '\u{2008}' || c == '\u{2009}' || c == '\u{200A}'
        || c == '\u{2028}' || c == '\u{2029}' || c == '\u{202F}' || c == '\u{205F}'
        || c == '\u{3000}'
}

/// Runtime test for [`is_space_char`].
pub fn space_char(c: char) -> (r: bool)
    ensures
        r == is_space_char(c),
{
    c == '\u{0009}' || c == '\u{000A}' || c == '\u{000B}' || c == '\u{000C}'
        || c == '\u{000D}' || c == '\u{0020}' || c == '\u{0085}' || c == '\u{00A0}'
        || c == '\u{1680}' || c == '\u{2000}' || c == '\u{2001}' || c == '\u{2002}'
        || c == '\u{2003}' || c == '\u{2004}' || c == '\u{2005}' || c == '\u{2006}'
        || c == '\u{2007}' || c == '\u{2008}' || c == '\u{2009}' || c == '\u{200A}'
        || c == '\u{2028}' || c == '\u{2029}' || c == '\u{202F}' || c == '\u{205F}'
        || c == '\u{3000}'
}

/// The characters of `s`, one per element.
pub fn chars_of(s: &str) -> (r: Vec<char>)
    ensures
        r@ == s@,
{
    let n = s.unicode_len();
    let mut r: Vec<char> = Vec::new();
    let mut i: usize = 0;
    while i < n
        invariant
            n == s@.len(),
            i <= n,
            r@ == s@.subrange(0, i as int),
        decreases n - i,
    {
        r.push(s.get_char(i));
        i = i + 1;
        proof {
            assert(r@ =~= s@.subrange(0, i as int));
        }
    }
    proof {
        assert(s@.subrange(0, n as int) =~= s@);
    }
    r
}

/// `s` with its leading whitespace removed.
pub open spec fn trim_start_spec(s: Seq<char>) -> Seq<char>
    decreases s.len(),
{
    if s.len() > 0 && is_space_char(s[0]) {
        trim_start_spec(s.drop_first())
    } else {
        s
    }
}

/// `s` with its trailing whitespace removed.
pub open spec fn trim_end_spec(s: Seq<char>) -> Seq<char>
    decreases s.len(),
{
    if s.len() > 0 && is_space_char(s.last()) {
        trim_end_spec(s.drop_last())
    } else {
        s
    }
}

/// `s` with whitespace removed from both ends, as `str::trim` does.
pub open spec fn trim_spec(s: Seq<char>) -> Seq<char> {
    trim_end_spec(trim_start_spec(s))
}

/// Dropping the first `a` characters of `s` computes `trim_start_spec` when
/// exactly the first `a` characters are whitespace.
proof fn lemma_trim_start_at(s: Seq<char>, a: int)
    requires
        0 <= a <= s.len(),
        forall|i: int| 0 <= i < a ==> is_space_char(s[i]),
        a < s.len() ==> !is_space_char(s[a]),
    ensures
        trim_start_spec(s) == s.skip(a),
    decreases a,
{
    if a == 0 {
        assert(s.skip(0) =~= s);
    } else {
        lemma_trim_start_at(s.drop_first(), a - 1);
        assert(s.drop_first().skip(a - 1) =~= s.skip(a));
    }
}

/// Keeping the first `b` characters of `s` computes `trim_end_spec` when
/// exactly the characters from `b` on are whitespace.
proof fn lemma_trim_end_at(s: Seq<char>, b: int)
    requires
        0 <= b <= s.len(),
        forall|i: int| b <= i < s.len() ==> is_space_char(s[i]),
        b > 0 ==> !is_space_char(s[b - 1]),
    ensures
        trim_end_spec(s) == s.take(b),
    decreases s.len() - b,
{
    if b == s.len() {
        assert(s.take(b) =~= s);
    } else {
        lemma_trim_end_at(s.drop_last(), b);
        assert(s.drop_last().take(b) =~= s.take(b));
    }
}

/// `s` with whitespace removed from both ends.
pub fn trim(s: &str) -> (r: &str)
    ensures
        r@ == trim_spec(s@),
{
    let n = s.unicode_len();
    let mut a: usize = 0;
    while a < n && space_char(s.get_char(a))
        invariant
            n == s@.len(),
            a <= n,
            forall|i: int| 0 <= i < a ==> is_space_char(s@[i]),
        decreases n - a,
    {
        a = a + 1;
    }
    let mut b: usize = n;
    while b > a && space_char(s.get_char(b - 1))
        invariant
            n == s@.len(),
            a <= b <= n,
            forall|i: int| b <= i < n ==> is_space_char(s@[i]),
        decreases b,
    {
        b = b - 1;
    }
    proof {
        lemma_trim_start_at(s@, a as int);
        lemma_trim_end_at(s@.skip(a as int), b - a);
        assert(s@.skip(a as int).take(b - a) =~= s@.subrange(a as int, b as int));
    }
    s.substring_char(a, b)
}

/// The words remaining in `s` when `cur` is the word being read at the moment,
/// in order of appearance. A word is a maximal run of non-whitespace characters.
pub open spec fn words_acc(s: Seq<char>, cur: Seq<char>) -> Seq<Seq<char>>
    decreases s.len(),
{
    if s.len() == 0 {
        if cur.len() > 0 {
            seq![cur]
        } else {
            seq![]
        }
    } else if is_space_char(s[0]) {
        if cur.len() > 0 {
            seq![cur] + words_acc(s.drop_first(), seq![])
        } else {
            words_acc(s.drop_first(), seq![])
        }
    } else {
        words_acc(s.drop_first(), cur.push(s[0]))
    }
}

/// The whitespace-separated words of `s`, as `str::split_whitespace` yields them.
pub open spec fn words(s: Seq<char>) -> Seq<Seq<char>> {
    words_acc(s, seq![])
}

/// The elements of `ws` joined with a single space between neighbours.
pub open spec fn join_words(ws: Seq<Seq<char>>) -> Seq<char>
    decreases ws.len(),
{
    if ws.len() == 0 {
        seq![]
    } else if ws.len() == 1 {
        ws[0]
    } else {
        ws[0] + seq![' '] + join_words(ws.drop_first())
    }
}

/// `s` with every internal run of whitespace collapsed to one space and the
/// ends trimmed.
pub open spec fn collapse_ws(s: Seq<char>) -> Seq<char> {
    join_words(words(s))
}

/// The index of the first occurrence of `c` in `s`, or `-1` if there is none.
pub open spec fn find_char(s: Seq<char>, c: char) -> int
    decreases s.len(),
{
    if s.len() == 0 {
        -1
    } else if s[0] == c {
        0
    } else {
        let r = find_char(s.drop_first(), c);
        if r == -1 {
            -1
        } else {
            1 + r
        }
    }
}

/// What `find_char` finds: a first occurrence, or none at all.
proof fn lemma_find_char_props(s: Seq<char>, c: char)
    ensures
        find_char(s, c) >= -1,
        find_char(s, c) == -1 ==> forall|i: int| 0 <= i < s.len() ==> s[i] != c,
        find_char(s, c) >= 0 ==> {
            &&& find_char(s, c) < s.len()
            &&& s[find_char(s, c)] == c
            &&& forall|i: int| 0 <= i < find_char(s, c) ==> s[i] != c
        },
    decreases s.len(),
{
    if s.len() > 0 && s[0] != c {
        lemma_find_char_props(s.drop_first(), c);
        let r = find_char(s.drop_first(), c);
        if r >= 0 {
            assert(s[1 + r] == s.drop_first()[r]);
            assert forall|i: int| 0 <= i < 1 + r implies s[i] != c by {
                if i >= 1 {
                    assert(s.drop_first()[i - 1] == s[i]);
                }
            }
        } else {
            let t = s.drop_first();
            assert(forall|j: int| 0 <= j < t.len() ==> t[j] != c);
            assert forall|i: int| 0 <= i < s.len() implies s[i] != c by {
                if i >= 1 {
                    assert(t[i - 1] == s[i]);
                }
            }
        }
    }
}

/// The converse direction: an index that is `c` preceded by no `c` is what
/// `find_char` returns, and a `c`-free string gives `-1`.
proof fn lemma_find_char_at(s: Seq<char>, c: char, k: int)
    requires
        0 <= k <= s.len(),
        forall|i: int| 0 <= i < k ==> s[i] != c,
        k < s.len() ==> s[k] == c,
    ensures
        k < s.len() ==> find_char(s, c) == k,
        k == s.len() ==> find_char(s, c) == -1,
    decreases k,
{
    if s.len() > 0 && k > 0 {
        lemma_find_char_at(s.drop_first(), c, k - 1);
    }
}

/// The words of `s` designated by index pairs `bs` into `s`.
pub open spec fn words_of_bounds(s: Seq<char>, bs: Seq<(usize, usize)>) -> Seq<Seq<char>> {
    bs.map_values(|p: (usize, usize)| s.subrange(p.0 as int, p.1 as int))
}

/// Joining `ws` with one more word appended extends the join by a separating
/// space and that word.
proof fn lemma_join_snoc(ws: Seq<Seq<char>>, w: Seq<char>)
    ensures
        ws.len() == 0 ==> join_words(ws.push(w)) == w,
        ws.len() > 0 ==> join_words(ws.push(w)) == join_words(ws) + seq![' '] + w,
    decreases ws.len(),
{
    if ws.len() == 0 {
        assert(ws.push(w)[0] == w);
        assert(join_words(ws.push(w)) == w);
    } else if ws.len() == 1 {
        assert(ws.push(w).drop_first() =~= seq![w]);
        assert(ws.push(w)[0] == ws[0]);
        assert(join_words(seq![w]) == w);
        assert(join_words(ws.push(w)) == ws[0] + seq![' '] + w);
    } else {
        lemma_join_snoc(ws.drop_first(), w);
        assert(ws.push(w).drop_first() =~= ws.drop_first().push(w));
        assert(join_words(ws.push(w)) == ws[0] + seq![' '] + join_words(ws.drop_first().push(w)));
        assert((ws[0] + seq![' ']) + (join_words(ws.drop_first()) + seq![' '] + w) =~= (ws[0]
            + seq![' '] + join_words(ws.drop_first())) + seq![' '] + w);
    }
}

/// A canonical album title: whitespace runs collapsed to single spaces and,
/// when a `[` occurs, only the text before the first `[`, trimmed.
pub open spec fn normalize_spec(s: Seq<char>) -> Seq<char> {
    let j = collapse_ws(s);
    let k = find_char(j, '[');
    if k >= 0 {
        trim_spec(j.take(k))
    } else {
        j
    }
}

/// The current word read so far, for the scan in `normalize_album`.
spec fn cur_word(s: Seq<char>, cur_start: Option<usize>, i: int) -> Seq<char> {
    match cur_start {
        Some(st) => s.subrange(st as int, i),
        None => seq![],
    }
}

/// Computes `normalize_spec` of `s`.
pub fn normalize_album(s: &str) -> (r: String)
    ensures
        r@ == normalize_spec(s@),
{
    let n = s.unicode_len();
    let mut bounds: Vec<(usize, usize)> = Vec::new();
    let mut cur_start: Option<usize> = None;
    let mut i: usize = 0;
    proof {
        assert(s@.skip(0) =~= s@);
        assert(words_of_bounds(s@, bounds@) =~= Seq::<Seq<char>>::empty());
        assert(Seq::<Seq<char>>::empty() + words(s@) =~= words(s@));
    }
    while i < n
        invariant
            n == s@.len(),
            i <= n,
            match cur_start {
                Some(st) => st < i && forall|q: int| st <= q < i ==> !is_space_char(s@[q]),
                None => true,
            },
            forall|k: int|
                0 <= k < bounds@.len() ==> (#[trigger] bounds@[k]).0 <= bounds@[k].1 <= n,
            words(s@) == words_of_bounds(s@, bounds@) + words_acc(
                s@.skip(i as int),
                cur_word(s@, cur_start, i as int),
            ),
        decreases n - i,
    {
        proof {
            assert(s@.skip(i as int).drop_first() =~= s@.skip(i + 1));
            assert(s@.skip(i as int)[0] == s@[i as int]);
        }
        let ghost prev_cur = cur_word(s@, cur_start, i as int);
        if space_char(s.get_char(i)) {
            match cur_start {
                Some(st) => {
                    bounds.push((st, i));
                    cur_start = None;
                    proof {
                        assert(prev_cur.len() > 0);
                        assert(words_of_bounds(s@, bounds@) =~= words_of_bounds(
                            s@,
                            bounds@.drop_last(),
                        ).push(prev_cur));
                        assert(words_of_bounds(s@, bounds@.drop_last()) + (seq![prev_cur]
                            + words_acc(s@.skip(i + 1), seq![])) =~= words_of_bounds(s@, bounds@)
                            + words_acc(s@.skip(i + 1), seq![]));
                    }
                },
                None => {},
            }
        } else {
            match cur_start {
                Some(st) => {
                    proof {
                        assert(s@.subrange(st as int, i + 1) =~= prev_cur.push(s@[i as int]));
                    }
                },
                None => {
                    cur_start = Some(i);
                    proof {
                        assert(s@.subrange(i as int, i + 1) =~= seq![].push(s@[i as int]));
                    }
                },
            }
        }
        i = i + 1;
    }
    match cur_start {
        Some(st) => {
            bounds.push((st, n));
            proof {
                let prev_cur = cur_word(s@, Some(st), n as int);
                assert(s@.skip(n as int) =~= Seq::<char>::empty());
                assert(words_acc(seq![], prev_cur) == seq![prev_cur]);
                assert(words_of_bounds(s@, bounds@) =~= words_of_bounds(
                    s@,
                    bounds@.drop_last(),
                ).push(prev_cur));
                assert(words_of_bounds(s@, bounds@.drop_last()).push(prev_cur)
                    =~= words_of_bounds(s@, bounds@.drop_last()) + seq![prev_cur]);
            }
        },
        None => {
            proof {
                assert(s@.skip(n as int) =~= Seq::<char>::empty());
            }
        },
    }
    proof {
        assert(words(s@) =~= words_of_bounds(s@, bounds@));
    }

    let mut j = String::new();
    let ghost wob = words_of_bounds(s@, bounds@);
    let mut idx: usize = 0;
    while idx < bounds.len()
        invariant
            n == s@.len(),
            wob == words_of_bounds(s@, bounds@),
            forall|k: int|
                0 <= k < bounds@.len() ==> (#[trigger] bounds@[k]).0 <= bounds@[k].1 <= n,
            idx <= bounds@.len(),
            j@ == join_words(wob.take(idx as int)),
        decreases bounds@.len() - idx,
    {
        let st = bounds[idx].0;
        let en = bounds[idx].1;
        if idx > 0 {
            j.append(" ");
        }
        j.append(s.substring_char(st, en));
        proof {
            reveal_strlit(" ");
            assert(" "@ =~= seq![' ']);
            lemma_join_snoc(wob.take(idx as int), wob[idx as int]);
            assert(wob.take(idx as int).push(wob[idx as int]) =~= wob.take(idx + 1));
        }
        idx = idx + 1;
    }
    proof {
        assert(wob.take(bounds@.len() as int) =~= wob);
        assert(j@ == collapse_ws(s@));
    }

    let jn = j.as_str().unicode_len();
    let mut k: usize = 0;
    while k < jn && j.as_str().get_char(k) != '['
        invariant
            jn == j@.len(),
            k <= jn,
            forall|q: int| 0 <= q < k ==> j@[q] != '[',
        decreases jn - k,
    {
        k = k + 1;
    }
    proof {
        lemma_find_char_at(j@, '[', k as int);
    }
    if k < jn {
        proof {
            assert(j@.subrange(0, k as int) =~= j@.take(k as int));
        }
        let cut = j.as_str().substring_char(0, k);
        let trimmed = trim(cut);
        String::from_str(trimmed)
    } else {
        j
    }
}

/// No character of `w` is whitespace.
pub open spec fn space_free(w: Seq<char>) -> bool {
    forall|i: int| 0 <= i < w.len() ==> !is_space_char(#[trigger] w[i])
}

/// A string in the shape that collapsing whitespace produces: every whitespace
/// character is a plain space, none at either end, no two in a row.
pub open spec fn canonical(s: Seq<char>) -> bool {
    &&& forall|i: int| 0 <= i < s.len() && is_space_char(#[trigger] s[i]) ==> s[i] == ' '
    &&& (s.len() > 0 ==> !is_space_char(s[0]))
    &&& (s.len() > 0 ==> !is_space_char(s[s.len() - 1]))
    &&& forall|i: int|
        0 <= i < s.len() - 1 ==> !(is_space_char(#[trigger] s[i]) && is_space_char(s[i + 1]))
}

/// Every word that `words_acc` yields is non-empty and whitespace-free.
proof fn lemma_words_acc_wf(s: Seq<char>, cur: Seq<char>)
    requires
        space_free(cur),
    ensures
        forall|k: int|
            0 <= k < words_acc(s, cur).len() ==> (#[trigger] words_acc(s, cur)[k]).len() > 0
                && space_free(words_acc(s, cur)[k]),
    decreases s.len(),
{
    if s.len() == 0 {
        if cur.len() > 0 {
            assert(words_acc(s, cur) == seq![cur]);
            assert(words_acc(s, cur)[0] == cur);
        }
    } else if is_space_char(s[0]) {
        lemma_words_acc_wf(s.drop_first(), seq![]);
        if cur.len() > 0 {
            let ws = words_acc(s, cur);
            let rest = words_acc(s.drop_first(), seq![]);
            assert forall|k: int|
                0 <= k < ws.len() implies (#[trigger] ws[k]).len() > 0 && space_free(ws[k]) by {
                if k == 0 {
                    assert(ws[k] == cur);
                } else {
                    assert(ws[k] == rest[k - 1]);
                }
            }
        } else {
            assert(words_acc(s, cur) == words_acc(s.drop_first(), seq![]));
        }
    } else {
        assert(space_free(cur.push(s[0]))) by {
            assert(forall|i: int|
                0 <= i < cur.len() ==> cur.push(s[0])[i] == cur[i]);
            assert(cur.push(s[0])[cur.len() as int] == s[0]);
        }
        lemma_words_acc_wf(s.drop_first(), cur.push(s[0]));
        assert(words_acc(s, cur) == words_acc(s.drop_first(), cur.push(s[0])));
    }
}

/// `words_acc` yields at least one word when a word is open or a
/// non-whitespace character remains.
proof fn lemma_words_acc_nonempty(s: Seq<char>, cur: Seq<char>)
    requires
        cur.len() > 0 || exists|i: int| 0 <= i < s.len() && !is_space_char(#[trigger] s[i]),
    ensures
        words_acc(s, cur).len() > 0,
    decreases s.len(),
{
    if s.len() == 0 {
    } else if is_space_char(s[0]) {
        if cur.len() == 0 {
            let i = choose|i: int| 0 <= i < s.len() && !is_space_char(#[trigger] s[i]);
            assert(s.drop_first()[i - 1] == s[i]);
            lemma_words_acc_nonempty(s.drop_first(), seq![]);
        }
    } else {
        lemma_words_acc_nonempty(s.drop_first(), cur.push(s[0]));
    }
}

/// A non-empty word list joins to a string opening with the first word's
/// first character.
proof fn lemma_join_first(ws: Seq<Seq<char>>)
    requires
        ws.len() > 0,
        ws[0].len() > 0,
    ensures
        join_words(ws).len() > 0,
        join_words(ws)[0] == ws[0][0],
{
    if ws.len() > 1 {
        assert(join_words(ws)[0] == (ws[0] + seq![' '])[0]);
    }
}

/// Joining words that a scan of a canonical-shaped string yields restores the
/// string itself, prefixed by the word open at the start of the scan.
proof fn lemma_join_words_acc(s: Seq<char>, cur: Seq<char>)
    requires
        space_free(cur),
        forall|i: int| 0 <= i < s.len() && is_space_char(#[trigger] s[i]) ==> s[i] == ' ',
        forall|i: int|
            0 <= i < s.len() - 1 ==> !(is_space_char(#[trigger] s[i]) && is_space_char(s[i + 1])),
        s.len() > 0 ==> !is_space_char(s[s.len() - 1]),
        cur.len() == 0 && s.len() > 0 ==> !is_space_char(s[0]),
    ensures
        cur.len() > 0 ==> join_words(words_acc(s, cur)) == cur + s,
        cur.len() == 0 ==> join_words(words_acc(s, cur)) == s,
    decreases s.len(),
{
    let t = s.drop_first();
    if s.len() == 0 {
        if cur.len() > 0 {
            assert(join_words(seq![cur]) == cur);
            assert(cur + s =~= cur);
        }
    } else if is_space_char(s[0]) {
        assert(cur.len() > 0);
        assert(s.len() >= 2) by {
            assert(!is_space_char(s[s.len() - 1]));
        }
        assert(forall|i: int| 0 <= i < t.len() ==> t[i] == s[i + 1]);
        assert(!is_space_char(t[0]));
        lemma_join_words_acc(t, seq![]);
        lemma_words_acc_nonempty(t, seq![]);
        let rest = words_acc(t, seq![]);
        let ws = words_acc(s, cur);
        assert(ws == seq![cur] + rest);
        assert(ws.len() >= 2);
        assert(ws[0] == cur);
        assert(ws.drop_first() =~= rest);
        assert(join_words(ws) == cur + seq![' '] + join_words(rest));
        assert(cur + seq![' '] + t =~= cur + s);
    } else {
        assert(forall|i: int| 0 <= i < t.len() ==> t[i] == s[i + 1]);
        assert(space_free(cur.push(s[0]))) by {
            assert(forall|i: int|
                0 <= i < cur.len() ==> cur.push(s[0])[i] == cur[i]);
            assert(cur.push(s[0])[cur.len() as int] == s[0]);
        }
        lemma_join_words_acc(t, cur.push(s[0]));
        assert(cur.push(s[0]) + t =~= cur + s);
        if cur.len() == 0 {
            assert(cur.push(s[0]) + t =~= s);
        }
    }
}

/// A canonical string is restored exactly by splitting it into words and
/// joining them again.
pub proof fn lemma_collapse_of_canonical(s: Seq<char>)
    requires
        canonical(s),
    ensures
        collapse_ws(s) == s,
{
    lemma_join_words_acc(s, seq![]);
}

/// Joining non-empty whitespace-free words yields a canonical string.
proof fn lemma_join_canonical(ws: Seq<Seq<char>>)
    requires
        forall|k: int|
            0 <= k < ws.len() ==> (#[trigger] ws[k]).len() > 0 && space_free(ws[k]),
    ensures
        canonical(join_words(ws)),
    decreases ws.len(),
{
    if ws.len() == 0 {
    } else if ws.len() == 1 {
        assert(join_words(ws) == ws[0]);
    } else {
        let w0 = ws[0];
        let rest = ws.drop_first();
        assert(forall|k: int| 0 <= k < rest.len() ==> rest[k] == ws[k + 1]);
        lemma_join_canonical(rest);
        let jr = join_words(rest);
        lemma_join_first(rest);
        let j = join_words(ws);
        assert(j == w0 + seq![' '] + jr);
        let m = w0.len() as int;
        assert(j.len() == m + 1 + jr.len());
        assert(forall|i: int| 0 <= i < m ==> j[i] == w0[i]);
        assert(j[m] == ' ') by {
            assert(j[m] == (w0 + seq![' '])[m]);
        }
        assert(forall|i: int| m + 1 <= i < j.len() ==> j[i] == jr[i - m - 1]);
        assert forall|i: int| 0 <= i < j.len() && is_space_char(#[trigger] j[i]) implies j[i]
            == ' ' by {
            if i < m {
                assert(!is_space_char(w0[i]));
            } else if i > m {
                assert(j[i] == jr[i - m - 1]);
            }
        }
        assert(!is_space_char(j[0]));
        assert(!is_space_char(j[j.len() - 1])) by {
            assert(j[j.len() - 1] == jr[jr.len() - 1]);
        }
        assert forall|i: int|
            0 <= i < j.len() - 1 implies !(is_space_char(#[trigger] j[i]) && is_space_char(
            j[i + 1],
        )) by {
            if i < m - 1 {
                assert(!is_space_char(j[i]));
            } else if i == m - 1 {
                assert(j[i] == w0[m - 1]);
            } else if i == m {
                assert(j[i + 1] == jr[0]);
            } else {
                assert(j[i] == jr[i - m - 1]);
                assert(j[i + 1] == jr[i - m]);
            }
        }
    }
}

/// Collapsing whitespace always yields a canonical string.
pub proof fn lemma_collapse_canonical(s: Seq<char>)
    ensures
        canonical(collapse_ws(s)),
{
    lemma_words_acc_wf(s, seq![]);
    lemma_join_canonical(words(s));
}

/// `trim_start_spec` drops a prefix and leaves no leading whitespace.
proof fn lemma_trim_start_is_skip(x: Seq<char>)
    ensures
        exists|a: int|
            0 <= a <= x.len() && trim_start_spec(x) == x.skip(a),
        trim_start_spec(x).len() > 0 ==> !is_space_char(trim_start_spec(x)[0]),
    decreases x.len(),
{
    if x.len() > 0 && is_space_char(x[0]) {
        lemma_trim_start_is_skip(x.drop_first());
        let a = choose|a: int|
            0 <= a <= x.drop_first().len() && trim_start_spec(x.drop_first()) == x.drop_first().skip(
                a,
            );
        assert(x.drop_first().skip(a) =~= x.skip(a + 1));
    } else {
        assert(x.skip(0) =~= x);
    }
}

/// `trim_end_spec` keeps a prefix and leaves no trailing whitespace.
proof fn lemma_trim_end_is_take(x: Seq<char>)
    ensures
        exists|b: int|
            0 <= b <= x.len() && trim_end_spec(x) == x.take(b),
        trim_end_spec(x).len() > 0 ==> !is_space_char(trim_end_spec(x)[trim_end_spec(
            x,
        ).len() - 1]),
    decreases x.len(),
{
    if x.len() > 0 && is_space_char(x.last()) {
        lemma_trim_end_is_take(x.drop_last());
        let b = choose|b: int|
            0 <= b <= x.drop_last().len() && trim_end_spec(x.drop_last()) == x.drop_last().take(b);
        assert(x.drop_last().take(b) =~= x.take(b));
    } else {
        assert(x.take(x.len() as int) =~= x);
    }
}

/// Trimming keeps only characters of the original string, in place, and the
/// result of trimming a canonically spaced string is canonical.
proof fn lemma_trim_canonical(x: Seq<char>)
    requires
        forall|i: int| 0 <= i < x.len() && is_space_char(#[trigger] x[i]) ==> x[i] == ' ',
        forall|i: int|
            0 <= i < x.len() - 1 ==> !(is_space_char(#[trigger] x[i]) && is_space_char(x[i + 1])),
    ensures
        canonical(trim_spec(x)),
        forall|i: int|
            0 <= i < trim_spec(x).len() ==> exists|q: int|
                0 <= q < x.len() && #[trigger] trim_spec(x)[i] == x[q],
{
    let y = trim_start_spec(x);
    let r = trim_spec(x);
    lemma_trim_start_is_skip(x);
    let a = choose|a: int| 0 <= a <= x.len() && trim_start_spec(x) == x.skip(a);
    lemma_trim_end_is_take(y);
    let b = choose|b: int| 0 <= b <= y.len() && trim_end_spec(y) == y.take(b);
    assert(r =~= x.subrange(a, a + b));
    assert(forall|i: int| 0 <= i < r.len() ==> r[i] == x[a + i]);
    if r.len() > 0 {
        assert(!is_space_char(r[0])) by {
            assert(r[0] == y[0]);
        }
        assert(!is_space_char(r[r.len() - 1]));
    }
    assert forall|i: int|
        0 <= i < r.len() implies exists|q: int| 0 <= q < x.len() && #[trigger] r[i] == x[q] by {
        assert(0 <= a + i < x.len() && r[i] == x[a + i]);
    }
}

/// Normalizing an album title twice yields the same title as normalizing it
/// once.
pub proof fn lemma_normalize_idempotent(s: Seq<char>)
    ensures
        normalize_spec(normalize_spec(s)) == normalize_spec(s),
{
    let j = collapse_ws(s);
    lemma_collapse_canonical(s);
    let k = find_char(j, '[');
    lemma_find_char_props(j, '[');
    if k == -1 {
        lemma_collapse_of_canonical(j);
    } else {
        let cut = j.take(k);
        assert(forall|i: int| 0 <= i < cut.len() ==> cut[i] == j[i]);
        let r = trim_spec(cut);
        lemma_trim_canonical(cut);
        lemma_collapse_of_canonical(r);
        assert(forall|i: int| 0 <= i < r.len() ==> r[i] != '[') by {
            assert(forall|i: int| 0 <= i < cut.len() ==> #[trigger] cut[i] != '[');
        }
        lemma_find_char_at(r, '[', r.len() as int);
    }
}

/// The views of the character vectors in `s`.
pub open spec fn word_views(s: Seq<Vec<char>>) -> Seq<Seq<char>> {
    s.map_values(|w: Vec<char>| w@)
}

/// The whitespace-separated words of `v`, each as its own vector.
pub fn split_words(v: &Vec<char>) -> (r: Vec<Vec<char>>)
    ensures
        word_views(r@) == words(v@),
{
    let n = v.len();
    let mut out: Vec<Vec<char>> = Vec::new();
    let mut cur: Vec<char> = Vec::new();
    let mut i: usize = 0;
    proof {
        assert(v@.skip(0) =~= v@);
        assert(word_views(out@) =~= Seq::<Seq<char>>::empty());
        assert(Seq::<Seq<char>>::empty() + words(v@) =~= words(v@));
    }
    while i < n
        invariant
            n == v@.len(),
            i <= n,
            words(v@) == word_views(out@) + words_acc(v@.skip(i as int), cur@),
        decreases n - i,
    {
        proof {
            assert(v@.skip(i as int).drop_first() =~= v@.skip(i + 1));
            assert(v@.skip(i as int)[0] == v@[i as int]);
        }
        let ghost prev_cur = cur@;
        let c = v[i];
        if space_char(c) {
            if cur.len() > 0 {
                out.push(cur);
                cur = Vec::new();
                proof {
                    assert(words_acc(v@.skip(i as int), prev_cur) == seq![prev_cur] + words_acc(
                        v@.skip(i + 1),
                        seq![],
                    ));
                    assert(word_views(out@) =~= word_views(out@.drop_last()).push(prev_cur));
                    assert(word_views(out@.drop_last()) + (seq![prev_cur] + words_acc(
                        v@.skip(i + 1),
                        seq![],
                    )) =~= word_views(out@) + words_acc(v@.skip(i + 1), seq![]));
                }
            } else {
                proof {
                    assert(words_acc(v@.skip(i as int), prev_cur) == words_acc(
                        v@.skip(i + 1),
                        seq![],
                    ));
                    assert(prev_cur =~= Seq::<char>::empty());
                }
            }
        } else {
            cur.push(c);
            proof {
                assert(words_acc(v@.skip(i as int), prev_cur) == words_acc(
                    v@.skip(i + 1),
                    prev_cur.push(v@[i as int]),
                ));
            }
        }
        i = i + 1;
    }
    proof {
        assert(v@.skip(n as int) =~= Seq::<char>::empty());
    }
    if cur.len() > 0 {
        let ghost prev_cur = cur@;
        out.push(cur);
        proof {
            assert(words_acc(seq![], prev_cur) == seq![prev_cur]);
            assert(word_views(out@) =~= word_views(out@.drop_last()).push(prev_cur));
            assert(word_views(out@.drop_last()).push(prev_cur) =~= word_views(out@.drop_last())
                + seq![prev_cur]);
        }
    }
    proof {
        assert(words(v@) =~= word_views(out@));
    }
    out
}

/// Whether `c` is an ASCII decimal digit.
pub open spec fn is_digit(c: char) -> bool {
    '0' <= c && c <= '9'
}

/// All characters of `s` are decimal digits.
pub open spec fn all_digits(s: Seq<char>) -> bool {
    forall|i: int| 0 <= i < s.len() ==> is_digit(#[trigger] s[i])
}

/// The numeric value of a digit string, most significant digit first.
pub open spec fn digits_val(s: Seq<char>) -> int
    decreases s.len(),
{
    if s.len() == 0 {
        0
    } else {
        digits_val(s.drop_last()) * 10 + (s.last() as int - 48)
    }
}

/// A digit string has a non-negative value.
proof fn lemma_digits_val_nonneg(s: Seq<char>)
    requires
        all_digits(s),
    ensures
        digits_val(s) >= 0,
    decreases s.len(),
{
    if s.len() > 0 {
        assert(forall|i: int| 0 <= i < s.len() - 1 ==> s.drop_last()[i] == s[i]);
        lemma_digits_val_nonneg(s.drop_last());
        assert(s.last() as int >= 48);
    }
}

/// A prefix of a digit string has a value no larger than the whole.
proof fn lemma_digits_val_prefix(s: Seq<char>, j: int)
    requires
        all_digits(s),
        0 <= j <= s.len(),
    ensures
        digits_val(s.take(j)) <= digits_val(s),
    decreases s.len() - j,
{
    if j == s.len() {
        assert(s.take(j) =~= s);
    } else {
        lemma_digits_val_prefix(s, j + 1);
        assert(s.take(j + 1).drop_last() =~= s.take(j));
        assert(forall|i: int| 0 <= i < j + 1 ==> s.take(j + 1)[i] == s[i]);
        lemma_digits_val_nonneg(s.take(j));
        assert(s.take(j + 1).last() as int >= 48);
    }
}

/// The numeric value of `s` as `u8::from_str` reads it: an optional plus
/// sign, then only digits, and a value of at most 255.
pub open spec fn parse_u8_spec(s: Seq<char>) -> Option<u8> {
    let t = if s.len() > 0 && s[0] == '+' {
        s.drop_first()
    } else {
        s
    };
    if t.len() > 0 && all_digits(t) && digits_val(t) <= 255 {
        Some(digits_val(t) as u8)
    } else {
        None
    }
}

/// Computes `parse_u8_spec` of `w`.
pub fn parse_u8_chars(w: &Vec<char>) -> (r: Option<u8>)
    ensures
        r == parse_u8_spec(w@),
{
    let mut i: usize = 0;
    if w.len() > 0 && w[0] == '+' {
        i = 1;
    }
    let ghost t = w@.skip(i as int);
    proof {
        if w@.len() > 0 && w@[0] == '+' {
            assert(t =~= w@.drop_first());
        } else {
            assert(t =~= w@);
        }
    }
    if i == w.len() {
        return None;
    }
    let n = w.len();
    let mut acc: u32 = 0;
    let mut j: usize = i;
    proof {
        assert(t.take(0) =~= Seq::<char>::empty());
    }
    while j < n
        invariant
            n == w@.len(),
            i <= j <= n,
            t == w@.skip(i as int),
            t == (if w@.len() > 0 && w@[0] == '+' {
                w@.drop_first()
            } else {
                w@
            }),
            t.len() > 0,
            acc == digits_val(t.take(j - i)),
            acc <= 255,
            all_digits(t.take(j - i)),
        decreases n - j,
    {
        let c = w[j];
        proof {
            assert(t[j - i] == w@[j as int]);
        }
        if !(c >= '0' && c <= '9') {
            proof {
                assert(!is_digit(t[j - i]));
            }
            return None;
        }
        let d: u32 = c as u32 - 48;
        proof {
            assert(c as int >= 48 && c as int <= 57);
            assert(t.take(j - i + 1).drop_last() =~= t.take(j - i));
            assert(t.take(j - i + 1).last() == t[j - i]);
            assert(digits_val(t.take(j - i + 1)) == acc * 10 + d);
            assert(all_digits(t.take(j - i + 1))) by {
                assert(forall|q: int| 0 <= q < j - i ==> #[trigger] t.take(j - i + 1)[q] == t.take(j - i)[q]);
                assert(t.take(j - i + 1)[(j - i) as int] == t[j - i]);
            }
        }
        let na: u32 = acc * 10 + d;
        if na > 255 {
            proof {
                if all_digits(t) {
                    lemma_digits_val_prefix(t, j - i + 1);
                }
            }
            return None;
        }
        acc = na;
        j = j + 1;
    }
    proof {
        assert(t.take((n - i) as int) =~= t);
    }
    Some(acc as u8)
}

/// The numeric value of `s` as `i32::from_str` reads it: an optional sign,
/// then only digits, with the value in the range of the type.
pub open spec fn parse_i32_spec(s: Seq<char>) -> Option<i32> {
    let neg = s.len() > 0 && s[0] == '-';
    let t = if s.len() > 0 && (s[0] == '+' || s[0] == '-') {
        s.drop_first()
    } else {
        s
    };
    if t.len() > 0 && all_digits(t) && (if neg {
        digits_val(t) <= 2147483648
    } else {
        digits_val(t) <= 2147483647
    }) {
        Some(
            (if neg {
                -digits_val(t)
            } else {
                digits_val(t)
            }) as i32,
        )
    } else {
        None
    }
}

/// Computes `parse_i32_spec` of `w`.
pub fn parse_i32_chars(w: &Vec<char>) -> (r: Option<i32>)
    ensures
        r == parse_i32_spec(w@),
{
    let mut i: usize = 0;
    let mut neg = false;
    if w.len() > 0 && (w[0] == '+' || w[0] == '-') {
        i = 1;
        neg = w[0] == '-';
    }
    let ghost t = w@.skip(i as int);
    proof {
        if w@.len() > 0 && (w@[0] == '+' || w@[0] == '-') {
            assert(t =~= w@.drop_first());
        } else {
            assert(t =~= w@);
        }
    }
    if i == w.len() {
        return None;
    }
    let limit: u64 = if neg {
        2147483648
    } else {
        2147483647
    };
    let n = w.len();
    let mut acc: u64 = 0;
    let mut j: usize = i;
    proof {
        assert(t.take(0) =~= Seq::<char>::empty());
    }
    while j < n
        invariant
            n == w@.len(),
            i <= j <= n,
            t == w@.skip(i as int),
            t == (if w@.len() > 0 && (w@[0] == '+' || w@[0] == '-') {
                w@.drop_first()
            } else {
                w@
            }),
            t.len() > 0,
            neg == (w@.len() > 0 && w@[0] == '-'),
            limit == if neg {
                2147483648u64
            } else {
                2147483647u64
            },
            acc == digits_val(t.take(j - i)),
            acc <= limit,
            all_digits(t.take(j - i)),
        decreases n - j,
    {
        let c = w[j];
        proof {
            assert(t[j - i] == w@[j as int]);
        }
        if !(c >= '0' && c <= '9') {
            proof {
                assert(!is_digit(t[j - i]));
            }
            return None;
        }
        let d: u64 = c as u64 - 48;
        proof {
            assert(c as int >= 48 && c as int <= 57);
            assert(t.take(j - i + 1).drop_last() =~= t.take(j - i));
            assert(t.take(j - i + 1).last() == t[j - i]);
            assert(digits_val(t.take(j - i + 1)) == acc * 10 + d);
            assert(all_digits(t.take(j - i + 1))) by {
                assert(forall|q: int| 0 <= q < j - i ==> #[trigger] t.take(j - i + 1)[q] == t.take(j - i)[q]);
                assert(t.take(j - i + 1)[(j - i) as int] == t[j - i]);
            }
        }
        let na: u64 = acc * 10 + d;
        if na > limit {
            proof {
                if all_digits(t) {
                    lemma_digits_val_prefix(t, j - i + 1);
                }
            }
            return None;
        }
        acc = na;
        j = j + 1;
    }
    proof {
        assert(t.take((n - i) as int) =~= t);
    }
    if neg {
        let v: i64 = -(acc as i64);
        Some(v as i32)
    } else {
        Some(acc as i32)
    }
}

/// `s` with every non-overlapping occurrence of `pat` removed, scanning from
/// the left, as `str::replace` with an empty replacement does.
pub open spec fn remove_all_spec(s: Seq<char>, pat: Seq<char>) -> Seq<char>
    decreases s.len(),
    when pat.len() > 0
{
    if s.len() == 0 {
        seq![]
    } else if s.len() >= pat.len() && s.take(pat.len() as int) == pat {
        remove_all_spec(s.skip(pat.len() as int), pat)
    } else {
        seq![s[0]] + remove_all_spec(s.drop_first(), pat)
    }
}

/// Whether `pat` occurs in `v` starting at position `i`.
pub(crate) fn match_at(v: &Vec<char>, i: usize, pat: &Vec<char>) -> (r: bool)
    requires
        i <= v@.len(),
    ensures
        r == (v@.len() - i >= pat@.len() && v@.skip(i as int).take(pat@.len() as int) == pat@),
{
    let plen = pat.len();
    let vlen = v.len();
    if vlen - i < plen {
        proof {
            if v@.len() - i >= pat@.len() {
                assert(false);
            }
        }
        return false;
    }
    let mut q: usize = 0;
    while q < plen
        invariant
            vlen == v@.len(),
            i + plen <= vlen,
            plen == pat@.len(),
            q <= plen,
            forall|z: int| 0 <= z < q ==> v@[i + z] == pat@[z],
        decreases plen - q,
    {
        if v[i + q] != pat[q] {
            proof {
                assert(v@.skip(i as int).take(plen as int)[q as int] == v@[i + q]);
            }
            return false;
        }
        q = q + 1;
    }
    proof {
        assert(v@.skip(i as int).take(plen as int) =~= pat@);
    }
    true
}

/// Computes `remove_all_spec` of `v` and `pat`.
pub fn remove_all(v: &Vec<char>, pat: &Vec<char>) -> (r: Vec<char>)
    requires
        pat@.len() > 0,
    ensures
        r@ == remove_all_spec(v@, pat@),
{
    let n = v.len();
    let plen = pat.len();
    let mut out: Vec<char> = Vec::new();
    let mut i: usize = 0;
    proof {
        assert(v@.skip(0) =~= v@);
        assert(Seq::<char>::empty() + remove_all_spec(v@, pat@) =~= remove_all_spec(v@, pat@));
    }
    while i < n
        invariant
            n == v@.len(),
            plen == pat@.len(),
            plen > 0,
            i <= n,
            out@ + remove_all_spec(v@.skip(i as int), pat@) == remove_all_spec(v@, pat@),
        decreases n - i,
    {
        let ghost rest = v@.skip(i as int);
        if match_at(v, i, pat) {
            proof {
                assert(rest.skip(plen as int) =~= v@.skip(i + plen));
                assert(remove_all_spec(rest, pat@) == remove_all_spec(v@.skip(i + plen), pat@));
            }
            i = i + plen;
        } else {
            out.push(v[i]);
            proof {
                assert(rest[0] == v@[i as int]);
                assert(rest.drop_first() =~= v@.skip(i + 1));
                if rest.len() >= plen && rest.take(plen as int) == pat@ {
                    assert(false);
                }
                assert(remove_all_spec(rest, pat@) == seq![rest[0]] + remove_all_spec(
                    v@.skip(i + 1),
                    pat@,
                ));
                assert(out@ + remove_all_spec(v@.skip(i + 1), pat@) =~= out@.drop_last() + (
                seq![rest[0]] + remove_all_spec(v@.skip(i + 1), pat@)));
            }
            i = i + 1;
        }
    }
    proof {
        assert(v@.skip(n as int) =~= Seq::<char>::empty());
        assert(out@ + Seq::<char>::empty() =~= out@);
    }
    out
}

/// Whether the characters of `w` spell exactly the string `s`.
pub fn chars_eq_lit(w: &Vec<char>, s: &str) -> (r: bool)
    ensures
        r == (w@ == s@),
{
    let n = s.unicode_len();
    if w.len() != n {
        proof {
            if w@ == s@ {
                assert(w@.len() == s@.len());
            }
        }
        return false;
    }
    let mut i: usize = 0;
    while i < n
        invariant
            n == s@.len(),
            n == w@.len(),
            i <= n,
            forall|q: int| 0 <= q < i ==> w@[q] == s@[q],
        decreases n - i,
    {
        if w[i] != s.get_char(i) {
            return false;
        }
        i = i + 1;
    }
    proof {
        assert(w@ =~= s@);
    }
    true
}

/// Whether the two strings hold the same characters.
pub fn str_eq(a: &str, b: &str) -> (r: bool)
    ensures
        r == (a@ == b@),
{
    chars_eq_lit(&chars_of(a), b)
}

/// Whether `s` opens with the prefix `p`.
pub open spec fn starts_with_spec(s: Seq<char>, p: Seq<char>) -> bool {
    s.len() >= p.len() && s.subrange(0, p.len() as int) == p
}

/// Runtime test for [`starts_with_spec`].
pub fn str_starts_with(s: &str, p: &str) -> (r: bool)
    ensures
        r == starts_with_spec(s@, p@),
{
    let n = s.unicode_len();
    let m = p.unicode_len();
    if n < m {
        return false;
    }
    str_eq(s.substring_char(0, m), p)
}

} // verus!
