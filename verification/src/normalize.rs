//! Deterministic normalization for dimension-node identity, plus the static
//! table of the 24 musical keys the graph always materializes.
//!
//! Every function here is pure and total: the same input always yields the
//! same output.
//!
//! ## Dimension identity rules
//! - **Artist** id = trimmed artist tag; a missing/blank tag → `"Unknown Artist"`.
//! - **Album** id = `"<artist-id>|<album>"`, only when an album tag is present.
//! - **Genre** id = trimmed, lowercased tag, only when a genre tag is present.
//! - **Decade** id = `"<floor-to-10>s"`, e.g. year 1974 → `"1970s"`.

use vstd::prelude::*;

use crate::text::{
    chars_eq, collapse_whitespace, collapse_ws, is_digit, join_with_spaces, join_words,
    split_words, starts_with, to_lowercase, trim_by, trim_set, words, TrimSet, chars_of, concat, decimal, decimal_chars, lowercase_chars, slice_chars, string_of, trim,
    trim_ws, unicode_lowercase,
};

verus! {

/// Fallback artist id when a track carries no usable artist tag.
pub open spec fn unknown_artist() -> Seq<char> {
    seq!['U', 'n', 'k', 'n', 'o', 'w', 'n', ' ', 'A', 'r', 't', 'i', 's', 't']
}

/// The fallback artist id as characters.
pub fn unknown_artist_chars() -> (r: Vec<char>)
    ensures
        r@ == unknown_artist(),
{
    let r = vec!['U', 'n', 'k', 'n', 'o', 'w', 'n', ' ', 'A', 'r', 't', 'i', 's', 't'];
    assert(r@ =~= unknown_artist());
    r
}

/// The trimmed tag when it is present and not blank.
pub open spec fn present_tag(tag: Option<Seq<char>>) -> Option<Seq<char>> {
    match tag {
        Some(t) => if trim(t).len() > 0 {
            Some(trim(t))
        } else {
            None
        },
        None => None,
    }
}

/// The view of an optional string argument.
pub open spec fn opt_view(tag: Option<&str>) -> Option<Seq<char>> {
    match tag {
        Some(t) => Some(t@),
        None => None,
    }
}

/// Artist id: the trimmed tag, or `"Unknown Artist"` when absent or blank.
pub open spec fn artist_id_of(tag: Option<Seq<char>>) -> Seq<char> {
    match present_tag(tag) {
        Some(a) => a,
        None => unknown_artist(),
    }
}

pub fn present_tag_exec(tag: Option<&str>) -> (r: Option<Vec<char>>)
    ensures
        match r {
            Some(v) => present_tag(opt_view(tag)) == Some(v@),
            None => present_tag(opt_view(tag)) is None,
        },
{
    match tag {
        Some(t) => {
            let v = trim_ws(&chars_of(t));
            if v.len() > 0 {
                Some(v)
            } else {
                None
            }
        },
        None => None,
    }
}

/// The artist-node id for an (optional, raw) artist tag: trimmed, or
/// `"Unknown Artist"` when the tag is absent or blank. It doubles as the
/// artist display name.
pub fn artist_id(artist_tag: Option<&str>) -> (r: String)
    ensures
        r@ == artist_id_of(opt_view(artist_tag)),
{
    match present_tag_exec(artist_tag) {
        Some(v) => string_of(&v),
        None => string_of(&unknown_artist_chars()),
    }
}

/// Album id: `"<artist_id>|<trimmed album>"` when the album tag is present.
pub open spec fn album_id_of(artist: Seq<char>, tag: Option<Seq<char>>) -> Option<Seq<char>> {
    match present_tag(tag) {
        Some(a) => Some(artist + seq!['|'] + a),
        None => None,
    }
}

/// The album-node id: `"<artist_id>|<album>"`, or `None` when the album tag is
/// absent or blank. The same album title under two artists yields two ids.
pub fn album_id(artist_id: &str, album_tag: Option<&str>) -> (r: Option<String>)
    ensures
        match r {
            Some(s) => album_id_of(artist_id@, opt_view(album_tag)) == Some(s@),
            None => album_id_of(artist_id@, opt_view(album_tag)) is None,
        },
{
    match present_tag_exec(album_tag) {
        Some(a) => {
            let mut head = chars_of(artist_id);
            head.push('|');
            Some(string_of(&concat(&head, &a)))
        },
        None => None,
    }
}

/// The trimmed album display name, or `None` when absent or blank.
pub fn album_name(album_tag: Option<&str>) -> (r: Option<String>)
    ensures
        match r {
            Some(s) => present_tag(opt_view(album_tag)) == Some(s@),
            None => present_tag(opt_view(album_tag)) is None,
        },
{
    match present_tag_exec(album_tag) {
        Some(a) => Some(string_of(&a)),
        None => None,
    }
}

/// Genre id: the trimmed tag, Unicode-lowercased, when present.
pub open spec fn genre_id_of(tag: Option<Seq<char>>) -> Option<Seq<char>> {
    match present_tag(tag) {
        Some(g) => Some(unicode_lowercase(g)),
        None => None,
    }
}

/// The genre-node id: trimmed + lowercased, or `None` when absent or blank, so
/// `"Pop"` and `"pop"` collapse to one node.
pub fn genre_id(genre_tag: Option<&str>) -> (r: Option<String>)
    ensures
        match r {
            Some(s) => genre_id_of(opt_view(genre_tag)) == Some(s@),
            None => genre_id_of(opt_view(genre_tag)) is None,
        },
{
    match present_tag_exec(genre_tag) {
        Some(g) => Some(string_of(&lowercase_chars(&g))),
        None => None,
    }
}

/// Decade id: the year floored to a multiple of ten, then `"s"`.
pub open spec fn decade_id_of(year: nat) -> Seq<char> {
    decimal((year / 10) * 10).push('s')
}

/// The decade-node id for a release year (1974 → `"1970s"`, 2009 → `"2000s"`).
pub fn decade_id(year: u32) -> (r: String)
    ensures
        r@ == decade_id_of(year as nat),
{
    let mut d = decimal_chars(((year / 10) * 10) as u64);
    d.push('s');
    string_of(&d)
}

/// The file-name component of a `/`-joined path: everything after the last
/// `/`, or the whole string when there is none.
pub open spec fn file_name_of(path: Seq<char>) -> Seq<char>
    decreases path.len(),
{
    if path.len() == 0 {
        path
    } else if path.last() == '/' {
        Seq::empty()
    } else {
        file_name_of(path.drop_last()).push(path.last())
    }
}

/// The file-name component of a (possibly `/`-joined, relative) source path.
pub fn filename_from_path(path: &str) -> (r: String)
    ensures
        r@ == file_name_of(path@),
{
    let v = chars_of(path);
    string_of(&file_name_chars(&v))
}

/// [`filename_from_path`] on characters.
pub fn file_name_chars(v: &[char]) -> (r: Vec<char>)
    ensures
        r@ == file_name_of(v@),
{
    let n = v.len();
    let mut start: usize = n;
    assert(v@.take(n as int) =~= v@);
    assert(v@.subrange(n as int, n as int) =~= Seq::<char>::empty());
    assert(file_name_of(v@) + Seq::<char>::empty() =~= file_name_of(v@));
    while start > 0 && v[start - 1] != '/'
        invariant
            start <= n == v@.len(),
            file_name_of(v@) == file_name_of(v@.take(start as int)) + v@.subrange(
                start as int,
                n as int,
            ),
        decreases start,
    {
        let ghost pre = v@.take(start as int);
        assert(pre.drop_last() =~= v@.take(start as int - 1));
        assert(v@.subrange(start as int - 1, n as int) =~= seq![v@[start as int - 1]]
            + v@.subrange(start as int, n as int));
        assert(file_name_of(pre) == file_name_of(pre.drop_last()).push(pre.last()));
        start -= 1;
    }
    if start == 0 {
        assert(v@.take(0) =~= Seq::<char>::empty());
    }
    assert(v@.take(n as int) =~= v@);
    let r = slice_chars(v, start, n);
    assert(file_name_of(v@.take(start as int)) =~= Seq::<char>::empty());
    assert(r@ =~= Seq::<char>::empty() + v@.subrange(start as int, n as int));
    r
}


// ─────────────────────────── version-key title ───────────────────────────

/// The three common Unicode apostrophes (`’ ‘ ʼ`) fold to ASCII `'`.
pub open spec fn fold_apostrophe(c: char) -> char {
    if c == '\u{2019}' || c == '\u{2018}' || c == '\u{02bc}' {
        '\''
    } else {
        c
    }
}

/// [`fold_apostrophe`] over a sequence.
pub open spec fn fold_apostrophes(s: Seq<char>) -> Seq<char> {
    Seq::new(s.len(), |i: int| fold_apostrophe(s[i]))
}

/// Bracket removal, read left to right with the current nesting `depth`:
/// `(` and `[` open a group, `)` and `]` close one (never below zero), and
/// only characters outside every group are kept. An unmatched opener drops
/// the remainder.
pub open spec fn debracket_from(s: Seq<char>, depth: nat) -> Seq<char>
    decreases s.len(),
{
    if s.len() == 0 {
        Seq::empty()
    } else {
        let c = s[0];
        if c == '(' || c == '[' {
            debracket_from(s.drop_first(), depth + 1)
        } else if c == ')' || c == ']' {
            debracket_from(
                s.drop_first(),
                if depth > 0 {
                    (depth - 1) as nat
                } else {
                    0
                },
            )
        } else if depth == 0 {
            seq![c] + debracket_from(s.drop_first(), 0)
        } else {
            debracket_from(s.drop_first(), depth)
        }
    }
}

/// Every `(...)` and `[...]` group removed.
pub open spec fn debracket(s: Seq<char>) -> Seq<char> {
    debracket_from(s, 0)
}

/// `" - "` starts at position `p` of `s`.
pub open spec fn sep_at(s: Seq<char>, p: int) -> bool {
    0 <= p && p + 3 <= s.len() && s[p] == ' ' && s[p + 1] == '-' && s[p + 2] == ' '
}

/// The last position below `k` where `" - "` starts, or -1.
pub open spec fn last_sep_below(s: Seq<char>, k: nat) -> int
    decreases k,
{
    if k == 0 {
        -1
    } else if sep_at(s, k - 1) {
        k - 1
    } else {
        last_sep_below(s, (k - 1) as nat)
    }
}

/// `str::rfind(" - ")`, with -1 for "not found".
pub open spec fn last_sep(s: Seq<char>) -> int {
    last_sep_below(s, s.len())
}

/// The edition/mastering marker words, in the order they are tried.
pub open spec fn marker(i: int) -> Seq<char> {
    if i == 0 {
        seq!['l', 'i', 'v', 'e']
    } else     if i == 1 {
        seq!['r', 'e', 'm', 'a', 's', 't', 'e', 'r']
    } else     if i == 2 {
        seq!['r', 'e', 'm', 'a', 's', 't', 'e', 'r', 'e', 'd']
    } else     if i == 3 {
        seq!['m', 'o', 'n', 'o']
    } else     if i == 4 {
        seq!['s', 't', 'e', 'r', 'e', 'o']
    } else     if i == 5 {
        seq!['d', 'e', 'm', 'o']
    } else     if i == 6 {
        seq!['v', 'e', 'r', 's', 'i', 'o', 'n']
    } else     if i == 7 {
        seq!['e', 'd', 'i', 't']
    } else     if i == 8 {
        seq!['s', 'i', 'n', 'g', 'l', 'e', ' ', 'v', 'e', 'r', 's', 'i', 'o', 'n']
    } else     if i == 9 {
        seq!['a', 'l', 'b', 'u', 'm', ' ', 'v', 'e', 'r', 's', 'i', 'o', 'n']
    } else {
        Seq::empty()
    }
}

/// Every character is an ASCII digit, and there is at least one.
pub open spec fn all_digits(w: Seq<char>) -> bool {
    w.len() > 0 && forall|i: int| 0 <= i < w.len() ==> is_digit(#[trigger] w[i])
}

/// A standalone four-digit year token.
pub open spec fn is_year(w: Seq<char>) -> bool {
    w.len() == 4 && all_digits(w)
}

/// The words that are not year tokens, in order.
pub open spec fn non_year(ws: Seq<Seq<char>>) -> Seq<Seq<char>>
    decreases ws.len(),
{
    if ws.len() == 0 {
        Seq::empty()
    } else if is_year(ws.last()) {
        non_year(ws.drop_last())
    } else {
        non_year(ws.drop_last()).push(ws.last())
    }
}

/// The joined tail equals a marker or begins with a marker and a space.
pub open spec fn matches_marker(j: Seq<char>) -> bool {
    exists|i: int| 0 <= i < 10 && (j == #[trigger] marker(i) || marker(i).push(' ').is_prefix_of(j))
}

/// `"take "`.
pub open spec fn take_prefix() -> Seq<char> {
    seq!['t', 'a', 'k', 'e', ' ']
}

/// Whether a (trimmed) post-separator tail reads as an edition marker: a
/// `take N` with a numeric first word; a tail made only of year tokens; or a
/// tail whose non-year words, joined, equal or start with a marker word.
pub open spec fn is_edition_marker_of(t: Seq<char>) -> bool {
    if t.len() == 0 {
        false
    } else if take_prefix().is_prefix_of(t) {
        let ws = words(t.skip(5));
        ws.len() > 0 && all_digits(ws[0])
    } else {
        let ny = non_year(words(t));
        ny.len() == 0 || matches_marker(join_words(ny))
    }
}

/// Repeatedly drop the last `" - <tail>"` while the trimmed tail is an
/// edition marker.
pub open spec fn strip_markers(s: Seq<char>) -> Seq<char>
    decreases s.len(),
{
    let p = last_sep(s);
    if 0 <= p && p + 3 <= s.len() && is_edition_marker_of(trim(s.skip(p + 3))) {
        strip_markers(s.take(p))
    } else {
        s
    }
}

/// The version-key title: lowercase and fold apostrophes, drop bracket
/// groups, collapse whitespace, drop trailing edition markers, collapse again
/// and trim `-`, `_`, `.` and whitespace off the ends.
pub open spec fn normalized_title_of(title: Seq<char>) -> Seq<char> {
    let lowered = fold_apostrophes(unicode_lowercase(title));
    let collapsed = collapse_ws(debracket(lowered));
    trim_by(collapse_ws(strip_markers(collapsed)), TrimSet::SeparatorPunct)
}

fn fold_apostrophes_exec(v: &[char]) -> (r: Vec<char>)
    ensures
        r@ == fold_apostrophes(v@),
{
    let mut r: Vec<char> = Vec::new();
    let mut i: usize = 0;
    while i < v.len()
        invariant
            i <= v.len(),
            r@ == fold_apostrophes(v@.take(i as int)),
        decreases v.len() - i,
    {
        let c = v[i];
        if c == '\u{2019}' || c == '\u{2018}' || c == '\u{02bc}' {
            r.push('\'');
        } else {
            r.push(c);
        }
        i += 1;
        assert(r@ =~= fold_apostrophes(v@.take(i as int)));
    }
    assert(v@.take(v.len() as int) =~= v@);
    r
}

/// Remove every `(...)` / `[...]` group (non-nested counting; an unmatched
/// opener drops the remainder).
fn strip_bracket_groups(v: &[char]) -> (r: Vec<char>)
    ensures
        r@ == debracket(v@),
{
    let n = v.len();
    let mut r: Vec<char> = Vec::new();
    let mut depth: usize = 0;
    let mut i: usize = 0;
    assert(v@.subrange(0, n as int) =~= v@);
    while i < n
        invariant
            i <= n == v@.len(),
            depth <= i,
            r@ + debracket_from(v@.subrange(i as int, n as int), depth as nat) == debracket(v@),
        decreases n - i,
    {
        let ghost rest = v@.subrange(i as int, n as int);
        assert(rest.drop_first() =~= v@.subrange(i as int + 1, n as int));
        let c = v[i];
        let ghost r0 = r@;
        if c == '(' || c == '[' {
            depth += 1;
        } else if c == ')' || c == ']' {
            if depth > 0 {
                depth -= 1;
            }
        } else if depth == 0 {
            r.push(c);
            assert(r@ =~= r0 + seq![c]);
        }
        i += 1;
    }
    assert(v@.subrange(n as int, n as int) =~= Seq::<char>::empty());
    assert(r@ + Seq::<char>::empty() =~= r@);
    r
}

fn is_sep_at(v: &[char], p: usize) -> (b: bool)
    ensures
        b == sep_at(v@, p as int),
{
    p < v.len() && v.len() - p >= 3 && v[p] == ' ' && v[p + 1] == '-' && v[p + 2] == ' '
}

/// The last position where `" - "` starts.
fn last_separator(v: &[char]) -> (r: Option<usize>)
    ensures
        match r {
            Some(p) => last_sep(v@) == p as int,
            None => last_sep(v@) == -1,
        },
{
    let mut k: usize = v.len();
    while k > 0
        invariant
            k <= v.len(),
            last_sep(v@) == last_sep_below(v@, k as nat),
        decreases k,
    {
        if is_sep_at(v, k - 1) {
            return Some(k - 1);
        }
        k -= 1;
    }
    None
}

proof fn lemma_last_sep_bound(s: Seq<char>, k: nat)
    ensures
        last_sep_below(s, k) == -1 || sep_at(s, last_sep_below(s, k)),
    decreases k,
{
    if k > 0 && !sep_at(s, k - 1) {
        lemma_last_sep_bound(s, (k - 1) as nat);
    }
}

/// The marker word `i` as characters.
fn marker_chars(i: usize) -> (r: Vec<char>)
    requires
        i < 10,
    ensures
        r@ == marker(i as int),
{
    let r = match i {
        0 => vec!['l', 'i', 'v', 'e'],
        1 => vec!['r', 'e', 'm', 'a', 's', 't', 'e', 'r'],
        2 => vec!['r', 'e', 'm', 'a', 's', 't', 'e', 'r', 'e', 'd'],
        3 => vec!['m', 'o', 'n', 'o'],
        4 => vec!['s', 't', 'e', 'r', 'e', 'o'],
        5 => vec!['d', 'e', 'm', 'o'],
        6 => vec!['v', 'e', 'r', 's', 'i', 'o', 'n'],
        7 => vec!['e', 'd', 'i', 't'],
        8 => vec!['s', 'i', 'n', 'g', 'l', 'e', ' ', 'v', 'e', 'r', 's', 'i', 'o', 'n'],
        _ => vec!['a', 'l', 'b', 'u', 'm', ' ', 'v', 'e', 'r', 's', 'i', 'o', 'n'],
    };
    assert(r@ =~= marker(i as int));
    r
}

fn all_digits_exec(w: &[char]) -> (b: bool)
    ensures
        b == all_digits(w@),
{
    if w.len() == 0 {
        return false;
    }
    let mut i: usize = 0;
    while i < w.len()
        invariant
            i <= w.len(),
            forall|k: int| 0 <= k < i ==> is_digit(#[trigger] w@[k]),
        decreases w.len() - i,
    {
        if !('0' <= w[i] && w[i] <= '9') {
            return false;
        }
        i += 1;
    }
    true
}

fn non_year_words(ws: &Vec<Vec<char>>) -> (r: Vec<Vec<char>>)
    ensures
        r.deep_view() == non_year(ws.deep_view()),
{
    let mut r: Vec<Vec<char>> = Vec::new();
    let mut i: usize = 0;
    while i < ws.len()
        invariant
            i <= ws.len(),
            r.deep_view() == non_year(ws.deep_view().take(i as int)),
        decreases ws.len() - i,
    {
        let ghost pre = ws.deep_view().take(i as int + 1);
        assert(pre.drop_last() =~= ws.deep_view().take(i as int));
        assert(pre.last() == ws[i as int]@);
        let w = &ws[i];
        let year = w.len() == 4 && all_digits_exec(w.as_slice());
        if !year {
            let ghost r0 = r.deep_view();
            let wc = w.clone();
            assert(wc@ == w@);
            r.push(wc);
            assert(r.deep_view() =~= r0.push(w@));
        }
        i += 1;
    }
    assert(ws.deep_view().take(ws.len() as int) =~= ws.deep_view());
    r
}

fn matches_marker_exec(j: &[char]) -> (b: bool)
    ensures
        b == matches_marker(j@),
{
    let mut i: usize = 0;
    while i < 10
        invariant
            i <= 10,
            forall|k: int|
                0 <= k < i ==> !(j@ == #[trigger] marker(k) || marker(k).push(' ').is_prefix_of(
                    j@,
                )),
        decreases 10 - i,
    {
        let m = marker_chars(i);
        let mut ms = m.clone();
        ms.push(' ');
        assert(ms@ == marker(i as int).push(' '));
        if chars_eq(j, &m) || starts_with(j, &ms) {
            return true;
        }
        i += 1;
    }
    false
}

/// Whether a post-separator tail (already trimmed) is an edition marker.
fn is_edition_marker(t: &[char]) -> (b: bool)
    ensures
        b == is_edition_marker_of(t@),
{
    if t.len() == 0 {
        return false;
    }
    let tp = vec!['t', 'a', 'k', 'e', ' '];
    assert(tp@ =~= take_prefix());
    if starts_with(t, &tp) {
        let rest = slice_chars(t, 5, t.len());
        assert(rest@ =~= t@.skip(5));
        let ws = split_words(&rest);
        if ws.len() == 0 {
            return false;
        }
        assert(ws.deep_view()[0] == ws[0]@);
        return all_digits_exec(ws[0].as_slice());
    }
    let ws = split_words(t);
    let ny = non_year_words(&ws);
    if ny.len() == 0 {
        return true;
    }
    let joined = join_with_spaces(&ny);
    matches_marker_exec(&joined)
}

/// Drop a trailing `" - <marker>…"` segment while one is present.
fn strip_trailing_markers(v: &[char]) -> (r: Vec<char>)
    ensures
        r@ == strip_markers(v@),
{
    let mut cur = slice_chars(v, 0, v.len());
    assert(cur@ =~= v@);
    loop
        invariant
            strip_markers(cur@) == strip_markers(v@),
        decreases cur.len(),
    {
        match last_separator(&cur) {
            Some(p) => {
                proof {
                    lemma_last_sep_bound(cur@, cur@.len());
                }
                let tail = trim_ws(&slice_chars(&cur, p + 3, cur.len()));
                assert(cur@.subrange(p as int + 3, cur@.len() as int) =~= cur@.skip(p as int + 3));
                if is_edition_marker(&tail) {
                    let next = slice_chars(&cur, 0, p);
                    assert(next@ =~= cur@.take(p as int));
                    cur = next;
                } else {
                    return cur;
                }
            },
            None => {
                return cur;
            },
        }
    }
}

/// Canonical title form for **version keying**: the string that, paired with
/// an artist id, groups every recording of the same underlying song
/// regardless of edition (`"- Remastered 2009"`, `"(Live)"`, `"- Take 5"`,
/// `"(Mono)"` all fold away).
pub fn normalized_title(title: &str) -> (r: String)
    ensures
        r@ == normalized_title_of(title@),
{
    let lowered = fold_apostrophes_exec(&chars_of(to_lowercase(title).as_str()));
    let collapsed = collapse_whitespace(&strip_bracket_groups(&lowered));
    let stripped = strip_trailing_markers(&collapsed);
    let out = trim_set(&collapse_whitespace(&stripped), TrimSet::SeparatorPunct);
    string_of(&out)
}


// ─────────────────────────── musical keys (static) ───────────────────────────

/// One static musical key: `name` is the human key string (`"A minor"`),
/// `camelot` its Camelot-wheel code (`"8A"`), `mode` `"minor"` or `"major"`.
#[derive(Debug, Clone)]
pub struct KeySeed {
    /// Human key string, e.g. `"A minor"` — the `Key` node id and title.
    pub name: String,
    /// Camelot-wheel code, e.g. `"8A"`.
    pub camelot: String,
    /// `"minor"` or `"major"`.
    pub mode: String,
}

/// Key names in table order: pitch class (C, C#, …, B, sharp spellings), minor
/// before major.
pub open spec fn key_name(i: int) -> Seq<char> {
    if i == 0 {
        seq!['C', ' ', 'm', 'i', 'n', 'o', 'r']
    } else     if i == 1 {
        seq!['C', ' ', 'm', 'a', 'j', 'o', 'r']
    } else     if i == 2 {
        seq!['C', '#', ' ', 'm', 'i', 'n', 'o', 'r']
    } else     if i == 3 {
        seq!['C', '#', ' ', 'm', 'a', 'j', 'o', 'r']
    } else     if i == 4 {
        seq!['D', ' ', 'm', 'i', 'n', 'o', 'r']
    } else     if i == 5 {
        seq!['D', ' ', 'm', 'a', 'j', 'o', 'r']
    } else     if i == 6 {
        seq!['D', '#', ' ', 'm', 'i', 'n', 'o', 'r']
    } else     if i == 7 {
        seq!['D', '#', ' ', 'm', 'a', 'j', 'o', 'r']
    } else     if i == 8 {
        seq!['E', ' ', 'm', 'i', 'n', 'o', 'r']
    } else     if i == 9 {
        seq!['E', ' ', 'm', 'a', 'j', 'o', 'r']
    } else     if i == 10 {
        seq!['F', ' ', 'm', 'i', 'n', 'o', 'r']
    } else     if i == 11 {
        seq!['F', ' ', 'm', 'a', 'j', 'o', 'r']
    } else     if i == 12 {
        seq!['F', '#', ' ', 'm', 'i', 'n', 'o', 'r']
    } else     if i == 13 {
        seq!['F', '#', ' ', 'm', 'a', 'j', 'o', 'r']
    } else     if i == 14 {
        seq!['G', ' ', 'm', 'i', 'n', 'o', 'r']
    } else     if i == 15 {
        seq!['G', ' ', 'm', 'a', 'j', 'o', 'r']
    } else     if i == 16 {
        seq!['G', '#', ' ', 'm', 'i', 'n', 'o', 'r']
    } else     if i == 17 {
        seq!['G', '#', ' ', 'm', 'a', 'j', 'o', 'r']
    } else     if i == 18 {
        seq!['A', ' ', 'm', 'i', 'n', 'o', 'r']
    } else     if i == 19 {
        seq!['A', ' ', 'm', 'a', 'j', 'o', 'r']
    } else     if i == 20 {
        seq!['A', '#', ' ', 'm', 'i', 'n', 'o', 'r']
    } else     if i == 21 {
        seq!['A', '#', ' ', 'm', 'a', 'j', 'o', 'r']
    } else     if i == 22 {
        seq!['B', ' ', 'm', 'i', 'n', 'o', 'r']
    } else     if i == 23 {
        seq!['B', ' ', 'm', 'a', 'j', 'o', 'r']
    } else {
        Seq::empty()
    }
}

/// Camelot codes in table order.
pub open spec fn key_camelot(i: int) -> Seq<char> {
    if i == 0 {
        seq!['5', 'A']
    } else     if i == 1 {
        seq!['8', 'B']
    } else     if i == 2 {
        seq!['1', '2', 'A']
    } else     if i == 3 {
        seq!['3', 'B']
    } else     if i == 4 {
        seq!['7', 'A']
    } else     if i == 5 {
        seq!['1', '0', 'B']
    } else     if i == 6 {
        seq!['2', 'A']
    } else     if i == 7 {
        seq!['5', 'B']
    } else     if i == 8 {
        seq!['9', 'A']
    } else     if i == 9 {
        seq!['1', '2', 'B']
    } else     if i == 10 {
        seq!['4', 'A']
    } else     if i == 11 {
        seq!['7', 'B']
    } else     if i == 12 {
        seq!['1', '1', 'A']
    } else     if i == 13 {
        seq!['2', 'B']
    } else     if i == 14 {
        seq!['6', 'A']
    } else     if i == 15 {
        seq!['9', 'B']
    } else     if i == 16 {
        seq!['1', 'A']
    } else     if i == 17 {
        seq!['4', 'B']
    } else     if i == 18 {
        seq!['8', 'A']
    } else     if i == 19 {
        seq!['1', '1', 'B']
    } else     if i == 20 {
        seq!['3', 'A']
    } else     if i == 21 {
        seq!['6', 'B']
    } else     if i == 22 {
        seq!['1', '0', 'A']
    } else     if i == 23 {
        seq!['1', 'B']
    } else {
        Seq::empty()
    }
}

/// Modes in table order.
pub open spec fn key_mode(i: int) -> Seq<char> {
    if i == 0 {
        seq!['m', 'i', 'n', 'o', 'r']
    } else     if i == 1 {
        seq!['m', 'a', 'j', 'o', 'r']
    } else     if i == 2 {
        seq!['m', 'i', 'n', 'o', 'r']
    } else     if i == 3 {
        seq!['m', 'a', 'j', 'o', 'r']
    } else     if i == 4 {
        seq!['m', 'i', 'n', 'o', 'r']
    } else     if i == 5 {
        seq!['m', 'a', 'j', 'o', 'r']
    } else     if i == 6 {
        seq!['m', 'i', 'n', 'o', 'r']
    } else     if i == 7 {
        seq!['m', 'a', 'j', 'o', 'r']
    } else     if i == 8 {
        seq!['m', 'i', 'n', 'o', 'r']
    } else     if i == 9 {
        seq!['m', 'a', 'j', 'o', 'r']
    } else     if i == 10 {
        seq!['m', 'i', 'n', 'o', 'r']
    } else     if i == 11 {
        seq!['m', 'a', 'j', 'o', 'r']
    } else     if i == 12 {
        seq!['m', 'i', 'n', 'o', 'r']
    } else     if i == 13 {
        seq!['m', 'a', 'j', 'o', 'r']
    } else     if i == 14 {
        seq!['m', 'i', 'n', 'o', 'r']
    } else     if i == 15 {
        seq!['m', 'a', 'j', 'o', 'r']
    } else     if i == 16 {
        seq!['m', 'i', 'n', 'o', 'r']
    } else     if i == 17 {
        seq!['m', 'a', 'j', 'o', 'r']
    } else     if i == 18 {
        seq!['m', 'i', 'n', 'o', 'r']
    } else     if i == 19 {
        seq!['m', 'a', 'j', 'o', 'r']
    } else     if i == 20 {
        seq!['m', 'i', 'n', 'o', 'r']
    } else     if i == 21 {
        seq!['m', 'a', 'j', 'o', 'r']
    } else     if i == 22 {
        seq!['m', 'i', 'n', 'o', 'r']
    } else     if i == 23 {
        seq!['m', 'a', 'j', 'o', 'r']
    } else {
        Seq::empty()
    }
}

/// The `i`-th key of the table.
pub fn key_seed(i: usize) -> (k: KeySeed)
    requires
        i < 24,
    ensures
        k.name@ == key_name(i as int),
        k.camelot@ == key_camelot(i as int),
        k.mode@ == key_mode(i as int),
{
    let (n, c, m) = match i {
        0 => (vec!['C', ' ', 'm', 'i', 'n', 'o', 'r'], vec!['5', 'A'], vec!['m', 'i', 'n', 'o', 'r']),
        1 => (vec!['C', ' ', 'm', 'a', 'j', 'o', 'r'], vec!['8', 'B'], vec!['m', 'a', 'j', 'o', 'r']),
        2 => (vec!['C', '#', ' ', 'm', 'i', 'n', 'o', 'r'], vec!['1', '2', 'A'], vec!['m', 'i', 'n', 'o', 'r']),
        3 => (vec!['C', '#', ' ', 'm', 'a', 'j', 'o', 'r'], vec!['3', 'B'], vec!['m', 'a', 'j', 'o', 'r']),
        4 => (vec!['D', ' ', 'm', 'i', 'n', 'o', 'r'], vec!['7', 'A'], vec!['m', 'i', 'n', 'o', 'r']),
        5 => (vec!['D', ' ', 'm', 'a', 'j', 'o', 'r'], vec!['1', '0', 'B'], vec!['m', 'a', 'j', 'o', 'r']),
        6 => (vec!['D', '#', ' ', 'm', 'i', 'n', 'o', 'r'], vec!['2', 'A'], vec!['m', 'i', 'n', 'o', 'r']),
        7 => (vec!['D', '#', ' ', 'm', 'a', 'j', 'o', 'r'], vec!['5', 'B'], vec!['m', 'a', 'j', 'o', 'r']),
        8 => (vec!['E', ' ', 'm', 'i', 'n', 'o', 'r'], vec!['9', 'A'], vec!['m', 'i', 'n', 'o', 'r']),
        9 => (vec!['E', ' ', 'm', 'a', 'j', 'o', 'r'], vec!['1', '2', 'B'], vec!['m', 'a', 'j', 'o', 'r']),
        10 => (vec!['F', ' ', 'm', 'i', 'n', 'o', 'r'], vec!['4', 'A'], vec!['m', 'i', 'n', 'o', 'r']),
        11 => (vec!['F', ' ', 'm', 'a', 'j', 'o', 'r'], vec!['7', 'B'], vec!['m', 'a', 'j', 'o', 'r']),
        12 => (vec!['F', '#', ' ', 'm', 'i', 'n', 'o', 'r'], vec!['1', '1', 'A'], vec!['m', 'i', 'n', 'o', 'r']),
        13 => (vec!['F', '#', ' ', 'm', 'a', 'j', 'o', 'r'], vec!['2', 'B'], vec!['m', 'a', 'j', 'o', 'r']),
        14 => (vec!['G', ' ', 'm', 'i', 'n', 'o', 'r'], vec!['6', 'A'], vec!['m', 'i', 'n', 'o', 'r']),
        15 => (vec!['G', ' ', 'm', 'a', 'j', 'o', 'r'], vec!['9', 'B'], vec!['m', 'a', 'j', 'o', 'r']),
        16 => (vec!['G', '#', ' ', 'm', 'i', 'n', 'o', 'r'], vec!['1', 'A'], vec!['m', 'i', 'n', 'o', 'r']),
        17 => (vec!['G', '#', ' ', 'm', 'a', 'j', 'o', 'r'], vec!['4', 'B'], vec!['m', 'a', 'j', 'o', 'r']),
        18 => (vec!['A', ' ', 'm', 'i', 'n', 'o', 'r'], vec!['8', 'A'], vec!['m', 'i', 'n', 'o', 'r']),
        19 => (vec!['A', ' ', 'm', 'a', 'j', 'o', 'r'], vec!['1', '1', 'B'], vec!['m', 'a', 'j', 'o', 'r']),
        20 => (vec!['A', '#', ' ', 'm', 'i', 'n', 'o', 'r'], vec!['3', 'A'], vec!['m', 'i', 'n', 'o', 'r']),
        21 => (vec!['A', '#', ' ', 'm', 'a', 'j', 'o', 'r'], vec!['6', 'B'], vec!['m', 'a', 'j', 'o', 'r']),
        22 => (vec!['B', ' ', 'm', 'i', 'n', 'o', 'r'], vec!['1', '0', 'A'], vec!['m', 'i', 'n', 'o', 'r']),
        _ => (vec!['B', ' ', 'm', 'a', 'j', 'o', 'r'], vec!['1', 'B'], vec!['m', 'a', 'j', 'o', 'r']),
    };
    assert(n@ =~= key_name(i as int));
    assert(c@ =~= key_camelot(i as int));
    assert(m@ =~= key_mode(i as int));
    KeySeed { name: string_of(&n), camelot: string_of(&c), mode: string_of(&m) }
}

/// The 24 musical keys (12 pitch classes × {minor, major}), in table order —
/// the `Key` nodes the graph always materializes.
pub fn keys() -> (r: Vec<KeySeed>)
    ensures
        r.len() == 24,
        forall|i: int|
            0 <= i < 24 ==> (#[trigger] r[i]).name@ == key_name(i) && r[i].camelot@ == key_camelot(
                i,
            ) && r[i].mode@ == key_mode(i),
{
    let mut r: Vec<KeySeed> = Vec::new();
    let mut i: usize = 0;
    while i < 24
        invariant
            i <= 24,
            r.len() == i,
            forall|j: int|
                0 <= j < i ==> (#[trigger] r[j]).name@ == key_name(j) && r[j].camelot@
                    == key_camelot(j) && r[j].mode@ == key_mode(j),
        decreases 24 - i,
    {
        r.push(key_seed(i));
        i += 1;
    }
    r
}

} // verus!
