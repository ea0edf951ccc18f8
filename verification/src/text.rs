//! Character-level text primitives shared by every module: Unicode
//! whitespace, trimming, whitespace collapsing, word splitting and joining.
//!
//! Strings are handled as `Vec<char>` inside the library; `chars_of` and
//! `string_of` convert at the edges.

use vstd::prelude::*;

verus! {

// ───────────────────────────── conversions ─────────────────────────────

/// The characters of `s`, in order.
pub fn chars_of(s: &str) -> (v: Vec<char>)
    ensures
        v@ == s@,
{
    broadcast use vstd::string::group_string_axioms;

    let mut v: Vec<char> = Vec::new();
    for c in it: s.chars()
        invariant
            v@ == it.seq().take(it.index() as int),
    {
        v.push(c);
    }
    assert(v@ =~= s@);
    v
}

/// The string made of `v`'s characters, in order
/// (`String::from_iter` over the characters).
#[verifier::external_body]
pub(crate) fn string_of(v: &[char]) -> (s: String)
    ensures
        s@ == v@,
{
    v.iter().collect()
}

/// A name for what `str::to_lowercase` returns: the full Unicode lowercase
/// mapping of a string (context-sensitive for the Greek final sigma).
pub uninterp spec fn unicode_lowercase(s: Seq<char>) -> Seq<char>;

/// `str::to_lowercase`: the result is exactly the Unicode lowercase mapping of
/// the argument, which depends on the argument alone.
#[verifier::external_body]
pub(crate) fn to_lowercase(s: &str) -> (r: String)
    ensures
        r@ == unicode_lowercase(s@),
{
    s.to_lowercase()
}

/// Lowercase mapping of a character sequence (see [`to_lowercase`]).
pub fn lowercase_chars(v: &[char]) -> (r: Vec<char>)
    ensures
        r@ == unicode_lowercase(v@),
{
    let s = string_of(v);
    let l = to_lowercase(s.as_str());
    chars_of(l.as_str())
}

// ───────────────────────────── character classes ─────────────────────────────

/// Unicode `White_Space` (what `char::is_whitespace` tests).
pub open spec fn is_ws(c: char) -> bool {
    let u = c as u32;
    (0x09 <= u && u <= 0x0D) || u == 0x20 || u == 0x85 || u == 0xA0 || u == 0x1680 || (0x2000
        <= u && u <= 0x200A) || u == 0x2028 || u == 0x2029 || u == 0x202F || u == 0x205F || u
        == 0x3000
}

/// Whether `c` is Unicode whitespace.
pub fn is_whitespace(c: char) -> (b: bool)
    ensures
        b == is_ws(c),
{
    let u = c as u32;
    (0x09 <= u && u <= 0x0D) || u == 0x20 || u == 0x85 || u == 0xA0 || u == 0x1680 || (0x2000
        <= u && u <= 0x200A) || u == 0x2028 || u == 0x2029 || u == 0x202F || u == 0x205F || u
        == 0x3000
}

/// ASCII decimal digit.
pub open spec fn is_digit(c: char) -> bool {
    '0' <= c && c <= '9'
}

/// The ASCII-lowercase form of a character (non-ASCII letters unchanged).
pub open spec fn ascii_lower(c: char) -> char {
    if 'A' <= c && c <= 'Z' {
        ((c as u32) + 32) as char
    } else {
        c
    }
}

/// ASCII-lowercase one character.
pub fn ascii_lower_char(c: char) -> (r: char)
    ensures
        r == ascii_lower(c),
{
    if 'A' <= c && c <= 'Z' {
        let u = (c as u32) + 32;
        assert(0x61 <= u && u <= 0x7A);
        char_from_ascii(u)
    } else {
        c
    }
}

/// The character of an ASCII code point.
fn char_from_ascii(u: u32) -> (c: char)
    requires
        u < 0x80,
    ensures
        c as u32 == u,
{
    let b = u as u8;
    assert(b == u) by (bit_vector)
        requires
            b == u as u8,
            u < 0x80;
    b as char
}

/// ASCII-lowercase a sequence, character by character.
pub open spec fn ascii_lower_seq(s: Seq<char>) -> Seq<char> {
    Seq::new(s.len(), |i: int| ascii_lower(s[i]))
}

/// ASCII-lowercase a character sequence.
pub fn ascii_lowercase(v: &[char]) -> (r: Vec<char>)
    ensures
        r@ == ascii_lower_seq(v@),
{
    let mut r: Vec<char> = Vec::new();
    let mut i: usize = 0;
    while i < v.len()
        invariant
            i <= v.len(),
            r@ == ascii_lower_seq(v@.take(i as int)),
        decreases v.len() - i,
    {
        r.push(ascii_lower_char(v[i]));
        i += 1;
        assert(r@ =~= ascii_lower_seq(v@.take(i as int)));
    }
    assert(v@.take(v.len() as int) =~= v@);
    r
}

// ───────────────────────────── trimming ─────────────────────────────

/// The character sets that the library trims off the ends of strings.
#[derive(Clone, Copy, PartialEq, Eq)]
pub enum TrimSet {
    /// Unicode whitespace (`str::trim`).
    Whitespace,
    /// `-`, `_`, `.` and whitespace (title separator punctuation).
    SeparatorPunct,
    /// `.` and `' '` (filename-unsafe ends).
    DotSpace,
}

/// Membership of `c` in a trim set.
pub open spec fn in_set(set: TrimSet, c: char) -> bool {
    match set {
        TrimSet::Whitespace => is_ws(c),
        TrimSet::SeparatorPunct => c == '-' || c == '_' || c == '.' || is_ws(c),
        TrimSet::DotSpace => c == '.' || c == ' ',
    }
}

fn in_set_exec(set: TrimSet, c: char) -> (b: bool)
    ensures
        b == in_set(set, c),
{
    match set {
        TrimSet::Whitespace => is_whitespace(c),
        TrimSet::SeparatorPunct => c == '-' || c == '_' || c == '.' || is_whitespace(c),
        TrimSet::DotSpace => c == '.' || c == ' ',
    }
}

/// `s` without its leading characters from `set`.
pub open spec fn strip_start(s: Seq<char>, set: TrimSet) -> Seq<char>
    decreases s.len(),
{
    if s.len() > 0 && in_set(set, s[0]) {
        strip_start(s.drop_first(), set)
    } else {
        s
    }
}

/// `s` without its trailing characters from `set`.
pub open spec fn strip_end(s: Seq<char>, set: TrimSet) -> Seq<char>
    decreases s.len(),
{
    if s.len() > 0 && in_set(set, s.last()) {
        strip_end(s.drop_last(), set)
    } else {
        s
    }
}

/// `s` trimmed at both ends.
pub open spec fn trim_by(s: Seq<char>, set: TrimSet) -> Seq<char> {
    strip_end(strip_start(s, set), set)
}

/// `s` trimmed of Unicode whitespace at both ends (`str::trim`).
pub open spec fn trim(s: Seq<char>) -> Seq<char> {
    trim_by(s, TrimSet::Whitespace)
}

/// Trim the characters of `set` off both ends of `v`.
pub fn trim_set(v: &[char], set: TrimSet) -> (r: Vec<char>)
    ensures
        r@ == trim_by(v@, set),
{
    let n = v.len();
    let mut start: usize = 0;
    assert(v@.subrange(0, n as int) =~= v@);
    while start < n && in_set_exec(set, v[start])
        invariant
            start <= n,
            n == v@.len(),
            strip_start(v@, set) == strip_start(v@.subrange(start as int, n as int), set),
        decreases n - start,
    {
        assert(v@.subrange(start as int, n as int).drop_first() =~= v@.subrange(
            start as int + 1,
            n as int,
        ));
        start += 1;
    }
    let ghost t = v@.subrange(start as int, n as int);
    assert(strip_start(v@, set) == t);
    let mut end: usize = n;
    while end > start && in_set_exec(set, v[end - 1])
        invariant
            start <= end <= n,
            n == v@.len(),
            t == v@.subrange(start as int, n as int),
            strip_end(t, set) == strip_end(v@.subrange(start as int, end as int), set),
        decreases end - start,
    {
        assert(v@.subrange(start as int, end as int).drop_last() =~= v@.subrange(
            start as int,
            end as int - 1,
        ));
        end -= 1;
    }
    let mut r: Vec<char> = Vec::new();
    let mut i: usize = start;
    while i < end
        invariant
            start <= i <= end,
            end <= n,
            n == v@.len(),
            r@ == v@.subrange(start as int, i as int),
        decreases end - i,
    {
        r.push(v[i]);
        i += 1;
        assert(r@ =~= v@.subrange(start as int, i as int));
    }
    r
}

/// Trim Unicode whitespace off both ends of `v`.
pub fn trim_ws(v: &[char]) -> (r: Vec<char>)
    ensures
        r@ == trim(v@),
{
    trim_set(v, TrimSet::Whitespace)
}

// ───────────────────────────── collapsing whitespace ─────────────────────────────

/// Whitespace collapsing, read left to right: every maximal run of whitespace
/// between two non-whitespace characters becomes one `' '`; runs at either
/// end disappear. `started` records that a non-whitespace character has been
/// emitted, `gap` that whitespace was seen since the last one.
pub open spec fn collapse_from(s: Seq<char>, started: bool, gap: bool) -> Seq<char>
    decreases s.len(),
{
    if s.len() == 0 {
        Seq::empty()
    } else if is_ws(s[0]) {
        collapse_from(s.drop_first(), started, true)
    } else if started && gap {
        seq![' ', s[0]] + collapse_from(s.drop_first(), true, false)
    } else {
        seq![s[0]] + collapse_from(s.drop_first(), true, false)
    }
}

/// `s.split_whitespace().join(" ")`: words separated by single spaces.
pub open spec fn collapse_ws(s: Seq<char>) -> Seq<char> {
    collapse_from(s, false, false)
}

/// Collapse every run of whitespace to one space and drop it at both ends.
pub fn collapse_whitespace(v: &[char]) -> (r: Vec<char>)
    ensures
        r@ == collapse_ws(v@),
{
    let n = v.len();
    let mut r: Vec<char> = Vec::new();
    let mut started = false;
    let mut gap = false;
    let mut i: usize = 0;
    assert(v@.subrange(0, n as int) =~= v@);
    while i < n
        invariant
            i <= n,
            n == v@.len(),
            started == (r@.len() > 0),
            r@ + collapse_from(v@.subrange(i as int, n as int), started, gap) == collapse_ws(v@),
        decreases n - i,
    {
        let ghost rest = v@.subrange(i as int, n as int);
        assert(rest.drop_first() =~= v@.subrange(i as int + 1, n as int));
        let c = v[i];
        let ghost r0 = r@;
        if is_whitespace(c) {
            gap = true;
        } else {
            if started && gap {
                r.push(' ');
                r.push(c);
                assert(r@ =~= r0 + seq![' ', c]);
            } else {
                r.push(c);
                assert(r@ =~= r0 + seq![c]);
            }
            started = true;
            gap = false;
        }
        i += 1;
    }
    assert(v@.subrange(n as int, n as int) =~= Seq::<char>::empty());
    assert(r@ + Seq::<char>::empty() =~= r@);
    r
}


// ───────────────────────────── decimal numbers ─────────────────────────────

/// The ASCII digit for `d < 10`.
pub open spec fn digit_char(d: nat) -> char {
    ((d + 48) as u32) as char
}

/// The decimal representation of `n`, without leading zeros (`"0"` for zero).
pub open spec fn decimal(n: nat) -> Seq<char>
    decreases n,
{
    if n < 10 {
        seq![digit_char(n)]
    } else {
        decimal(n / 10).push(digit_char(n % 10))
    }
}

/// `n` rendered in decimal (`format!("{n}")`).
pub fn decimal_chars(n: u64) -> (r: Vec<char>)
    ensures
        r@ == decimal(n as nat),
    decreases n,
{
    let d = (n % 10) as u32;
    let c = char_from_ascii(d + 48);
    if n < 10 {
        let mut r: Vec<char> = Vec::new();
        r.push(c);
        assert(r@ =~= seq![c]);
        r
    } else {
        let mut r = decimal_chars(n / 10);
        r.push(c);
        r
    }
}

/// `a` followed by `b`.
pub fn concat(a: &[char], b: &[char]) -> (r: Vec<char>)
    ensures
        r@ == a@ + b@,
{
    let mut r: Vec<char> = Vec::new();
    let mut i: usize = 0;
    while i < a.len()
        invariant
            i <= a.len(),
            r@ == a@.take(i as int),
        decreases a.len() - i,
    {
        r.push(a[i]);
        i += 1;
        assert(r@ =~= a@.take(i as int));
    }
    let mut j: usize = 0;
    while j < b.len()
        invariant
            j <= b.len(),
            i == a.len(),
            r@ == a@ + b@.take(j as int),
        decreases b.len() - j,
    {
        r.push(b[j]);
        j += 1;
        assert(r@ =~= a@ + b@.take(j as int));
    }
    assert(a@.take(a.len() as int) =~= a@);
    assert(b@.take(b.len() as int) =~= b@);
    r
}

/// Whether two character sequences are equal.
pub fn chars_eq(a: &[char], b: &[char]) -> (r: bool)
    ensures
        r == (a@ == b@),
{
    if a.len() != b.len() {
        return false;
    }
    let mut i: usize = 0;
    while i < a.len()
        invariant
            i <= a.len(),
            a.len() == b.len(),
            a@.take(i as int) == b@.take(i as int),
        decreases a.len() - i,
    {
        if a[i] != b[i] {
            assert(a@[i as int] != b@[i as int]);
            return false;
        }
        assert(a@.take(i as int + 1) =~= a@.take(i as int).push(a@[i as int]));
        assert(b@.take(i as int + 1) =~= b@.take(i as int).push(b@[i as int]));
        i += 1;
    }
    assert(a@.take(a.len() as int) =~= a@);
    assert(b@.take(b.len() as int) =~= b@);
    true
}

/// Whether `p` is a prefix of `s`.
pub fn starts_with(s: &[char], p: &[char]) -> (r: bool)
    ensures
        r == p@.is_prefix_of(s@),
{
    if p.len() > s.len() {
        return false;
    }
    let mut i: usize = 0;
    while i < p.len()
        invariant
            i <= p.len() <= s.len(),
            forall|k: int| 0 <= k < i ==> p@[k] == s@[k],
        decreases p.len() - i,
    {
        if p[i] != s[i] {
            return false;
        }
        i += 1;
    }
    true
}

/// `s[lo..hi]` as a new vector.
pub fn slice_chars(s: &[char], lo: usize, hi: usize) -> (r: Vec<char>)
    requires
        lo <= hi <= s.len(),
    ensures
        r@ == s@.subrange(lo as int, hi as int),
{
    let mut r: Vec<char> = Vec::new();
    let mut i: usize = lo;
    while i < hi
        invariant
            lo <= i <= hi <= s.len(),
            r@ == s@.subrange(lo as int, i as int),
        decreases hi - i,
    {
        r.push(s[i]);
        i += 1;
        assert(r@ =~= s@.subrange(lo as int, i as int));
    }
    r
}

/// The view of a literal string as characters (`reveal_strlit` gives its value).
pub fn lit(s: &str) -> (r: Vec<char>)
    ensures
        r@ == s@,
{
    chars_of(s)
}


// ───────────────────────────── words ─────────────────────────────

/// Length of the leading run of non-whitespace characters.
pub open spec fn word_len(s: Seq<char>) -> nat
    decreases s.len(),
{
    if s.len() > 0 && !is_ws(s[0]) {
        1 + word_len(s.drop_first())
    } else {
        0
    }
}

/// A word is never longer than the text it starts.
pub proof fn lemma_word_len_bound(s: Seq<char>)
    ensures
        word_len(s) <= s.len(),
        s.len() > 0 && !is_ws(s[0]) ==> word_len(s) >= 1,
    decreases s.len(),
{
    if s.len() > 0 && !is_ws(s[0]) {
        lemma_word_len_bound(s.drop_first());
    }
}

/// `str::split_whitespace`: the maximal non-whitespace runs, in order.
pub open spec fn words(s: Seq<char>) -> Seq<Seq<char>>
    decreases s.len(),
{
    if s.len() == 0 {
        Seq::empty()
    } else if is_ws(s[0]) {
        words(s.drop_first())
    } else {
        let k = word_len(s);
        proof {
            lemma_word_len_bound(s);
        }
        seq![s.take(k as int)] + words(s.skip(k as int))
    }
}

/// The words joined by single spaces (`[..].join(" ")`).
pub open spec fn join_words(ws: Seq<Seq<char>>) -> Seq<char>
    decreases ws.len(),
{
    if ws.len() == 0 {
        Seq::empty()
    } else if ws.len() == 1 {
        ws[0]
    } else {
        join_words(ws.drop_last()) + seq![' '] + ws.last()
    }
}

proof fn lemma_word_len_step(s: Seq<char>, i: int, j: int)
    requires
        0 <= i <= j < s.len(),
        !is_ws(s[j]),
        word_len(s.subrange(i, s.len() as int)) == (j - i) + word_len(
            s.subrange(j, s.len() as int),
        ),
    ensures
        word_len(s.subrange(i, s.len() as int)) == (j + 1 - i) + word_len(
            s.subrange(j + 1, s.len() as int),
        ),
{
    assert(s.subrange(j, s.len() as int).drop_first() =~= s.subrange(j + 1, s.len() as int));
}

/// Split `v` into its whitespace-separated words.
pub fn split_words(v: &[char]) -> (r: Vec<Vec<char>>)
    ensures
        r.deep_view() == words(v@),
{
    let n = v.len();
    let mut r: Vec<Vec<char>> = Vec::new();
    let mut i: usize = 0;
    assert(v@.subrange(0, n as int) =~= v@);
    while i < n
        invariant
            i <= n,
            n == v@.len(),
            r.deep_view() + words(v@.subrange(i as int, n as int)) == words(v@),
        decreases n - i,
    {
        let ghost rest = v@.subrange(i as int, n as int);
        if is_whitespace(v[i]) {
            assert(rest.drop_first() =~= v@.subrange(i as int + 1, n as int));
            i += 1;
        } else {
            let mut j: usize = i;
            while j < n && !is_whitespace(v[j])
                invariant
                    i <= j <= n,
                    n == v@.len(),
                    forall|k: int| i <= k < j ==> !is_ws(#[trigger] v@[k]),
                    word_len(v@.subrange(i as int, n as int)) == (j - i) + word_len(
                        v@.subrange(j as int, n as int),
                    ),
                decreases n - j,
            {
                proof {
                    lemma_word_len_step(v@, i as int, j as int);
                }
                j += 1;
            }
            assert(word_len(v@.subrange(j as int, n as int)) == 0);
            let w = slice_chars(v, i, j);
            let ghost k = word_len(rest);
            assert(k == j - i);
            assert(rest.take(k as int) =~= v@.subrange(i as int, j as int));
            assert(rest.skip(k as int) =~= v@.subrange(j as int, n as int));
            let ghost r0 = r.deep_view();
            assert(w.deep_view() =~= w@);
            r.push(w);
            assert(r.deep_view().len() == r0.len() + 1);
            assert(forall|k: int| 0 <= k < r0.len() ==> r.deep_view()[k] == r0[k]);
            assert(r.deep_view()[r0.len() as int] == w@);
            assert(r.deep_view() =~= r0.push(w@));
            assert(words(rest) == seq![rest.take(k as int)] + words(rest.skip(k as int)));
            assert(r.deep_view() + words(v@.subrange(j as int, n as int)) =~= r0 + words(rest));
            i = j;
        }
    }
    assert(v@.subrange(n as int, n as int) =~= Seq::<char>::empty());
    assert(r.deep_view() + Seq::<Seq<char>>::empty() =~= r.deep_view());
    r
}

/// Join words with single spaces.
pub fn join_with_spaces(ws: &Vec<Vec<char>>) -> (r: Vec<char>)
    ensures
        r@ == join_words(ws.deep_view()),
{
    let mut r: Vec<char> = Vec::new();
    let mut i: usize = 0;
    while i < ws.len()
        invariant
            i <= ws.len(),
            r@ == join_words(ws.deep_view().take(i as int)),
        decreases ws.len() - i,
    {
        let ghost pre = ws.deep_view().take(i as int + 1);
        assert(pre.drop_last() =~= ws.deep_view().take(i as int));
        if i == 0 {
            r = concat(&r, ws[i].as_slice());
            assert(r@ =~= ws.deep_view()[0]);
        } else {
            r.push(' ');
            r = concat(&r, ws[i].as_slice());
        }
        i += 1;
    }
    assert(ws.deep_view().take(ws.len() as int) =~= ws.deep_view());
    r
}

} // verus!
