//! Playlist materialization rules: the extended-M3U text we write and the
//! names of the files a portable playlist folder holds.
//!
//! The `.m3u8` body is a `#EXTM3U` header, then per entry a
//! `#EXTINF:<seconds>,<label>` line and its path line. `<seconds>` is `-1`
//! when unknown; `<label>` degrades `Artist - Title` → `Title` → file name.
//! Copied files are named `NN - Artist - Title.<ext>`, sanitized for every
//! common filesystem, byte-capped on a UTF-8 boundary and deduplicated
//! case-insensitively.

use vstd::prelude::*;

use crate::cypher::{comma_joined, joined};
use crate::error::SonagramError;
use crate::text::{
    chars_eq, chars_of, concat, decimal, decimal_chars, lowercase_chars, slice_chars, string_of,
    trim, trim_by, trim_set, trim_ws, unicode_lowercase, TrimSet,
};

verus! {

/// Characters forbidden in a filesystem component on the common platforms.
pub open spec fn is_forbidden(c: char) -> bool {
    c == '/' || c == '\\' || c == ':' || c == '*' || c == '?' || c == '"' || c == '<' || c
        == '>' || c == '|'
}

/// Unicode control characters (general category `Cc`), what `char::is_control` tests.
pub open spec fn is_control(c: char) -> bool {
    let u = c as u32;
    u <= 0x1F || (0x7F <= u && u <= 0x9F)
}

/// Forbidden and control characters replaced by `_`.
pub open spec fn replace_unsafe(s: Seq<char>) -> Seq<char> {
    Seq::new(
        s.len(),
        |i: int|
            if is_forbidden(s[i]) || is_control(s[i]) {
                '_'
            } else {
                s[i]
            },
    )
}

/// One sanitized filename component: unsafe characters become `_`, then
/// dots and spaces are trimmed off both ends.
pub open spec fn sanitized(s: Seq<char>) -> Seq<char> {
    trim_by(replace_unsafe(s), TrimSet::DotSpace)
}

fn sanitize_chars(v: &[char]) -> (r: Vec<char>)
    ensures
        r@ == sanitized(v@),
{
    let mut out: Vec<char> = Vec::new();
    let mut i: usize = 0;
    while i < v.len()
        invariant
            i <= v.len(),
            out@ == replace_unsafe(v@.take(i as int)),
        decreases v.len() - i,
    {
        let c = v[i];
        let u = c as u32;
        let bad = c == '/' || c == '\\' || c == ':' || c == '*' || c == '?' || c == '"' || c
            == '<' || c == '>' || c == '|' || u <= 0x1F || (0x7F <= u && u <= 0x9F);
        if bad {
            out.push('_');
        } else {
            out.push(c);
        }
        i += 1;
        assert(out@ =~= replace_unsafe(v@.take(i as int)));
    }
    assert(v@.take(v.len() as int) =~= v@);
    trim_set(&out, TrimSet::DotSpace)
}

/// Sanitize one filename component: replace filesystem-forbidden characters
/// and control characters with `_`, then trim leading/trailing dots and
/// spaces. Interior Unicode — including CJK — passes through unchanged.
pub fn sanitize_component(s: &str) -> (r: String)
    ensures
        r@ == sanitized(s@),
{
    string_of(&sanitize_chars(&chars_of(s)))
}

// ─────────────────────────── UTF-8 byte lengths ───────────────────────────

/// Bytes of `c` in UTF-8.
pub open spec fn utf8_len(c: char) -> nat {
    let u = c as u32;
    if u < 0x80 {
        1
    } else if u < 0x800 {
        2
    } else if u < 0x10000 {
        3
    } else {
        4
    }
}

/// Bytes of `s` in UTF-8.
pub open spec fn byte_len(s: Seq<char>) -> nat
    decreases s.len(),
{
    if s.len() == 0 {
        0
    } else {
        utf8_len(s[0]) + byte_len(s.drop_first())
    }
}

/// The longest prefix of `s` that fits in `max` bytes: what slicing at
/// `max` bytes, backed off to the nearest character boundary, keeps.
pub open spec fn fit_prefix(s: Seq<char>, max: nat) -> Seq<char>
    decreases s.len(),
{
    if s.len() == 0 || utf8_len(s[0]) > max {
        Seq::empty()
    } else {
        seq![s[0]] + fit_prefix(s.drop_first(), (max - utf8_len(s[0])) as nat)
    }
}

fn utf8_len_exec(c: char) -> (n: usize)
    ensures
        n == utf8_len(c),
{
    let u = c as u32;
    if u < 0x80 {
        1
    } else if u < 0x800 {
        2
    } else if u < 0x10000 {
        3
    } else {
        4
    }
}

/// Truncate to at most `max` UTF-8 bytes, never splitting a character.
pub fn truncate_chars(v: &[char], max: usize) -> (r: Vec<char>)
    ensures
        r@ == fit_prefix(v@, max as nat),
{
    let n = v.len();
    let mut r: Vec<char> = Vec::new();
    let mut budget: usize = max;
    let mut i: usize = 0;
    assert(v@.subrange(0, n as int) =~= v@);
    while i < n && utf8_len_exec(v[i]) <= budget
        invariant
            i <= n == v@.len(),
            r@ + fit_prefix(v@.subrange(i as int, n as int), budget as nat) == fit_prefix(
                v@,
                max as nat,
            ),
        decreases n - i,
    {
        let ghost rest = v@.subrange(i as int, n as int);
        assert(rest.drop_first() =~= v@.subrange(i as int + 1, n as int));
        let c = v[i];
        let ghost r0 = r@;
        r.push(c);
        assert(r@ =~= r0 + seq![c]);
        budget = budget - utf8_len_exec(c);
        i += 1;
    }
    assert(fit_prefix(v@.subrange(i as int, n as int), budget as nat) =~= Seq::<char>::empty());
    assert(r@ + Seq::<char>::empty() =~= r@);
    r
}

/// Truncate `s` to at most `max` bytes, never splitting a UTF-8 code point.
pub fn truncate_on_char_boundary(s: &str, max: usize) -> (r: String)
    ensures
        r@ == fit_prefix(s@, max as nat),
{
    string_of(&truncate_chars(&chars_of(s), max))
}

/// Every prefix that fits is no longer than `s`, and fits.
pub proof fn lemma_fit_prefix(s: Seq<char>, max: nat)
    ensures
        fit_prefix(s, max).is_prefix_of(s),
        byte_len(fit_prefix(s, max)) <= max,
        byte_len(s) <= max ==> fit_prefix(s, max) == s,
    decreases s.len(),
{
    if s.len() == 0 || utf8_len(s[0]) > max {
        if s.len() > 0 {
            lemma_byte_len_ge_first(s);
        }
    } else {
        lemma_fit_prefix(s.drop_first(), (max - utf8_len(s[0])) as nat);
        let t = fit_prefix(s.drop_first(), (max - utf8_len(s[0])) as nat);
        assert((seq![s[0]] + t).drop_first() =~= t);
        assert(t.is_prefix_of(s.drop_first()));
        assert forall|k: int| 0 <= k < (seq![s[0]] + t).len() implies (seq![s[0]] + t)[k]
            == s[k] by {
            if k > 0 {
                assert(t[k - 1] == s.drop_first()[k - 1]);
            }
        }
        if byte_len(s) <= max {
            assert(seq![s[0]] + s.drop_first() =~= s);
        }
    }
}

proof fn lemma_byte_len_ge_first(s: Seq<char>)
    requires
        s.len() > 0,
    ensures
        byte_len(s) >= utf8_len(s[0]),
{
}

// ─────────────────────────── dedupe names ───────────────────────────

/// The last position of `.` in `s` below `k`, or -1.
pub open spec fn last_dot_below(s: Seq<char>, k: nat) -> int
    decreases k,
{
    if k == 0 {
        -1
    } else if k <= s.len() && s[k - 1] == '.' {
        k - 1
    } else {
        last_dot_below(s, (k - 1) as nat)
    }
}

/// `" (n)"`.
pub open spec fn number_suffix(n: nat) -> Seq<char> {
    seq![' ', '('] + decimal(n) + seq![')']
}

/// `filename` with `" (n)"` inserted before its extension — the text after
/// the last `.`, when that dot is neither first nor last — or appended when
/// there is no such extension.
pub open spec fn with_suffix(filename: Seq<char>, n: nat) -> Seq<char> {
    let dot = last_dot_below(filename, filename.len());
    if dot > 0 && dot < filename.len() - 1 {
        filename.take(dot) + number_suffix(n) + filename.skip(dot)
    } else {
        filename + number_suffix(n)
    }
}

fn last_dot(v: &[char]) -> (r: Option<usize>)
    ensures
        match r {
            Some(p) => last_dot_below(v@, v@.len()) == p as int && p < v@.len(),
            None => last_dot_below(v@, v@.len()) == -1,
        },
{
    let mut k: usize = v.len();
    while k > 0
        invariant
            k <= v.len(),
            last_dot_below(v@, v@.len()) == last_dot_below(v@, k as nat),
        decreases k,
    {
        if v[k - 1] == '.' {
            return Some(k - 1);
        }
        k -= 1;
    }
    None
}

fn number_suffix_chars(n: u64) -> (r: Vec<char>)
    ensures
        r@ == number_suffix(n as nat),
{
    let mut head = vec![' ', '('];
    let d = decimal_chars(n);
    let mut r = concat(&head, &d);
    r.push(')');
    assert(r@ =~= number_suffix(n as nat));
    r
}

/// [`with_dedupe_suffix`] on characters.
pub fn with_suffix_chars(v: &[char], n: u64) -> (r: Vec<char>)
    ensures
        r@ == with_suffix(v@, n as nat),
{
    let suffix = number_suffix_chars(n);
    match last_dot(v) {
        Some(dot) => {
            if dot > 0 && dot < v.len() - 1 {
                let stem = slice_chars(v, 0, dot);
                let ext = slice_chars(v, dot, v.len());
                assert(stem@ =~= v@.take(dot as int));
                assert(ext@ =~= v@.skip(dot as int));
                concat(&concat(&stem, &suffix), &ext)
            } else {
                concat(v, &suffix)
            }
        },
        None => concat(v, &suffix),
    }
}

/// Insert ` (n)` before the extension of `filename` (or at the end when there
/// is no extension). A leading dot (hidden file) is not an extension.
pub fn with_dedupe_suffix(filename: &str, n: u64) -> (r: String)
    ensures
        r@ == with_suffix(filename@, n as nat),
{
    string_of(&with_suffix_chars(&chars_of(filename), n))
}

/// The `k`-th candidate name: the base itself for `k <= 1`, else the base
/// with `" (k)"`.
pub open spec fn candidate(base: Seq<char>, k: nat) -> Seq<char> {
    if k <= 1 {
        base
    } else {
        with_suffix(base, k)
    }
}

/// A name is taken when its lowercase form is already recorded.
pub open spec fn taken(used: Seq<Seq<char>>, name: Seq<char>) -> bool {
    used.contains(unicode_lowercase(name))
}

/// Whether `used` holds `c`.
pub fn contains_chars(used: &Vec<String>, c: &[char]) -> (b: bool)
    ensures
        b == used.deep_view().contains(c@),
{
    let mut i: usize = 0;
    while i < used.len()
        invariant
            i <= used.len(),
            forall|k: int| 0 <= k < i ==> used.deep_view()[k] != c@,
        decreases used.len() - i,
    {
        let u = chars_of(used[i].as_str());
        if chars_eq(&u, c) {
            assert(used.deep_view()[i as int] == c@);
            return true;
        }
        i += 1;
    }
    false
}

/// Return a filename not already present in `used` (compared by Unicode
/// lowercase, since macOS/Windows filesystems are case-insensitive),
/// appending ` (2)`, ` (3)`, … before the extension until unique, and record
/// the chosen name's lowercase form. The search tries at most
/// `used.len() + 2` candidates; the name returned is free whenever
/// lowercasing keeps the candidates tried apart, for among that many one is
/// always free.
pub fn dedupe_name(base: &str, used: &mut Vec<String>) -> (r: String)
    requires
        old(used).len() + 2 < u64::MAX,
    ensures
        exists|k: nat|
            1 <= k <= old(used).len() + 2 && r@ == candidate(base@, k) && (!taken(
                old(used).deep_view(),
                r@,
            ) || k == old(used).len() + 2) && forall|j: nat|
                1 <= j < k ==> #[trigger] taken(old(used).deep_view(), candidate(base@, j)),
        (forall|i: nat, j: nat|
            1 <= i < j <= old(used).len() + 1 ==> #[trigger] unicode_lowercase(candidate(base@, i))
                != #[trigger] unicode_lowercase(candidate(base@, j))) ==> !taken(old(used).deep_view(), r@),
        final(used).deep_view() == old(used).deep_view().push(unicode_lowercase(r@)),
{
    let b = chars_of(base);
    let ghost used0 = used.deep_view();
    let bound: u64 = used.len() as u64 + 2;
    let mut candidate_name = b.clone();
    let mut n: u64 = 2;
    assert(candidate_name@ == candidate(base@, 1));
    loop
        invariant
            2 <= n <= bound + 1,
            bound < u64::MAX,
            bound == used0.len() + 2,
            used.deep_view() == used0,
            b@ == base@,
            candidate_name@ == candidate(base@, (n - 1) as nat),
            forall|j: nat| 1 <= j < n - 1 ==> #[trigger] taken(used0, candidate(base@, j)),
        ensures
            !taken(used0, candidate_name@) || n > bound,
        decreases bound + 1 - n,
    {
        let lower = lowercase_chars(&candidate_name);
        if n > bound || !contains_chars(used, &lower) {
            break;
        }
        assert(taken(used0, candidate(base@, (n - 1) as nat)));
        candidate_name = with_suffix_chars(&b, n);
        n += 1;
    }
    let ghost k = (n - 1) as nat;
    let lower = lowercase_chars(&candidate_name);
    assert(1 <= k <= used0.len() + 2);
    assert(candidate_name@ == candidate(base@, k));
    assert(!taken(used0, candidate_name@) || k == used0.len() + 2);
    assert(forall|j: nat| 1 <= j < k ==> #[trigger] taken(used0, candidate(base@, j)));
    proof {
        if (forall|i: nat, j: nat|
            1 <= i < j <= used0.len() + 1 ==> #[trigger] unicode_lowercase(candidate(base@, i))
                != #[trigger] unicode_lowercase(candidate(base@, j))) && taken(used0, candidate_name@) {
            let f = |x: int| unicode_lowercase(candidate(base@, x as nat));
            assert forall|x: int, y: int|
                1 <= x <= 1 + used0.len() && 1 <= y <= 1 + used0.len() && x != y implies #[trigger] f(x)
                != #[trigger] f(y) by {
                if x < y {
                    assert(unicode_lowercase(candidate(base@, x as nat)) != unicode_lowercase(
                        candidate(base@, y as nat),
                    ));
                } else {
                    assert(unicode_lowercase(candidate(base@, y as nat)) != unicode_lowercase(
                        candidate(base@, x as nat),
                    ));
                }
            }
            crate::order::lemma_pigeonhole(used0, f, 1);
            let w = choose|w: int| 1 <= w <= 1 + used0.len() && !used0.contains(#[trigger] f(w));
            assert(taken(used0, candidate(base@, w as nat)));
        }
    }
    let ls = string_of(&lower);
    used.push(ls);
    assert(used.deep_view() =~= used0.push(lower@));
    string_of(&candidate_name)
}

// ─────────────────────────── labels and lines ───────────────────────────

/// The trimmed text when present and not blank.
pub open spec fn non_blank(v: Option<Seq<char>>) -> Option<Seq<char>> {
    match v {
        Some(t) => if trim(t).len() > 0 {
            Some(trim(t))
        } else {
            None
        },
        None => None,
    }
}

/// The view of an optional string argument.
pub open spec fn opt_view(v: Option<&str>) -> Option<Seq<char>> {
    match v {
        Some(t) => Some(t@),
        None => None,
    }
}

/// `"unknown"`.
pub open spec fn unknown() -> Seq<char> {
    seq!['u', 'n', 'k', 'n', 'o', 'w', 'n']
}

/// The human-readable label for an entry: `Artist - Title`, else `Title`,
/// else the file name (`"unknown"` without one). Blank artist/title count as
/// absent.
pub open spec fn label_of(
    artist: Option<Seq<char>>,
    title: Option<Seq<char>>,
    file_name: Option<Seq<char>>,
) -> Seq<char> {
    match (non_blank(artist), non_blank(title)) {
        (Some(a), Some(t)) => a + seq![' ', '-', ' '] + t,
        (None, Some(t)) => t,
        _ => match file_name {
            Some(f) => f,
            None => unknown(),
        },
    }
}

fn non_blank_exec(v: Option<&str>) -> (r: Option<Vec<char>>)
    ensures
        match r {
            Some(x) => non_blank(opt_view(v)) == Some(x@),
            None => non_blank(opt_view(v)) is None,
        },
{
    match v {
        Some(t) => {
            let x = trim_ws(&chars_of(t));
            if x.len() > 0 {
                Some(x)
            } else {
                None
            }
        },
        None => None,
    }
}

/// The human-readable label for an entry (see [`label_of`]).
pub fn label(artist: Option<&str>, title: Option<&str>, file_name: Option<&str>) -> (r: String)
    ensures
        r@ == label_of(opt_view(artist), opt_view(title), opt_view(file_name)),
{
    match (non_blank_exec(artist), non_blank_exec(title)) {
        (Some(a), Some(t)) => {
            let sep = vec![' ', '-', ' '];
            string_of(&concat(&concat(&a, &sep), &t))
        },
        (None, Some(t)) => string_of(&t),
        _ => match file_name {
            Some(f) => string_of(&chars_of(f)),
            None => {
                let u = vec!['u', 'n', 'k', 'n', 'o', 'w', 'n'];
                assert(u@ =~= unknown());
                string_of(&u)
            },
        },
    }
}

/// `#EXTINF:`.
pub open spec fn extinf_prefix() -> Seq<char> {
    seq!['#', 'E', 'X', 'T', 'I', 'N', 'F', ':']
}

/// The seconds field: the rounded duration, or `-1` when unknown.
pub open spec fn seconds_field(secs: Option<u64>) -> Seq<char> {
    match secs {
        Some(s) => decimal(s as nat),
        None => seq!['-', '1'],
    }
}

/// `#EXTINF:<seconds>,<label>`.
pub open spec fn extinf_of(secs: Option<u64>, label: Seq<char>) -> Seq<char> {
    extinf_prefix() + seconds_field(secs) + seq![','] + label
}

/// The `#EXTINF:<seconds>,<label>` line for one entry (no trailing newline).
/// `secs` is the duration rounded to the nearest second, `None` when unknown.
pub fn extinf_line(secs: Option<u64>, label: &str) -> (r: String)
    ensures
        r@ == extinf_of(secs, label@),
{
    string_of(&extinf_chars(secs, &chars_of(label)))
}

fn extinf_chars(secs: Option<u64>, label: &[char]) -> (r: Vec<char>)
    ensures
        r@ == extinf_of(secs, label@),
{
    let p = vec!['#', 'E', 'X', 'T', 'I', 'N', 'F', ':'];
    assert(p@ =~= extinf_prefix());
    let field = match secs {
        Some(s) => decimal_chars(s),
        None => {
            let m = vec!['-', '1'];
            assert(m@ =~= seq!['-', '1']);
            m
        },
    };
    let mut head = concat(&p, &field);
    head.push(',');
    concat(&head, label)
}

/// One playlist entry as the `.m3u8` writes it.
pub struct M3uEntry {
    /// Duration rounded to whole seconds; `None` when unknown.
    pub secs: Option<u64>,
    /// The `#EXTINF` label (see [`label`]).
    pub label: String,
    /// The exact text of the path line.
    pub path_line: String,
}

/// The lines of an entry: its `#EXTINF` line, then its path line.
pub open spec fn entry_text(e: (Option<u64>, Seq<char>, Seq<char>)) -> Seq<char> {
    extinf_of(e.0, e.1) + seq!['\n'] + e.2 + seq!['\n']
}

/// `#EXTM3U\n` then every entry's two lines, in order.
pub open spec fn m3u8_of(es: Seq<(Option<u64>, Seq<char>, Seq<char>)>) -> Seq<char>
    decreases es.len(),
{
    if es.len() == 0 {
        seq!['#', 'E', 'X', 'T', 'M', '3', 'U', '\n']
    } else {
        m3u8_of(es.drop_last()) + entry_text(es.last())
    }
}

/// The abstract view of an entry list.
pub open spec fn entries_view(es: Seq<M3uEntry>) -> Seq<(Option<u64>, Seq<char>, Seq<char>)> {
    Seq::new(es.len(), |i: int| (es[i].secs, es[i].label@, es[i].path_line@))
}

/// Build the extended-M3U body: a `#EXTM3U` header, then per entry an
/// `#EXTINF:<seconds>,<label>` line followed by its path line. No byte-order
/// mark is ever written.
pub fn m3u8_body(entries: &[M3uEntry]) -> (r: String)
    ensures
        r@ == m3u8_of(entries_view(entries@)),
{
    let mut body = vec!['#', 'E', 'X', 'T', 'M', '3', 'U', '\n'];
    let mut i: usize = 0;
    assert(entries_view(entries@).take(0) =~= Seq::<(Option<u64>, Seq<char>, Seq<char>)>::empty());
    while i < entries.len()
        invariant
            i <= entries.len(),
            body@ == m3u8_of(entries_view(entries@).take(i as int)),
        decreases entries.len() - i,
    {
        let e = &entries[i];
        let line = extinf_chars(e.secs, &chars_of(e.label.as_str()));
        let mut add = line;
        add.push('\n');
        let mut add2 = concat(&add, &chars_of(e.path_line.as_str()));
        add2.push('\n');
        let ghost pre = entries_view(entries@).take(i as int + 1);
        assert(pre.drop_last() =~= entries_view(entries@).take(i as int));
        assert(add2@ =~= entry_text(pre.last()));
        body = concat(&body, &add2);
        i += 1;
    }
    assert(entries_view(entries@).take(entries.len() as int) =~= entries_view(entries@));
    string_of(&body)
}

// ─────────────────────────── copied file names ───────────────────────────

/// Maximum bytes for a copied filename (stem + extension).
pub const MAX_FILENAME_BYTES: usize = 200;

/// `NN - `: the 1-based position, at least two digits, then `" - "`.
pub open spec fn position_prefix(position: nat) -> Seq<char> {
    (if position < 10 {
        seq!['0'] + decimal(position)
    } else {
        decimal(position)
    }) + seq![' ', '-', ' ']
}

/// `.<sanitized ext>` when that is longer than the dot alone, else nothing.
pub open spec fn ext_suffix_of(ext: Option<Seq<char>>) -> Seq<char> {
    match ext {
        Some(e) => if sanitized(e).len() > 0 {
            seq!['.'] + sanitized(e)
        } else {
            Seq::empty()
        },
        None => Seq::empty(),
    }
}

/// `"track"`.
pub open spec fn track_word() -> Seq<char> {
    seq!['t', 'r', 'a', 'c', 'k']
}

/// The stem before capping: sanitized `Artist - Title`, else sanitized title,
/// else the sanitized source stem, else `"track"`.
pub open spec fn raw_stem(
    artist: Option<Seq<char>>,
    title: Option<Seq<char>>,
    source_stem: Option<Seq<char>>,
) -> Seq<char> {
    let s = match (non_blank(artist), non_blank(title)) {
        (Some(a), Some(t)) => sanitized(a) + seq![' ', '-', ' '] + sanitized(t),
        (None, Some(t)) => sanitized(t),
        _ => match source_stem {
            Some(st) => sanitized(st),
            None => Seq::empty(),
        },
    };
    if s.len() == 0 {
        track_word()
    } else {
        s
    }
}

/// The copied filename for an entry at 1-based `position`:
/// `NN - <stem><ext>`, with the stem cut to the byte budget left by the prefix
/// and extension, re-trimmed of dots/spaces, and `"track"` if that leaves
/// nothing.
pub open spec fn copy_filename_of(
    position: nat,
    artist: Option<Seq<char>>,
    title: Option<Seq<char>>,
    source_stem: Option<Seq<char>>,
    source_ext: Option<Seq<char>>,
) -> Seq<char> {
    let prefix = position_prefix(position);
    let ext = ext_suffix_of(source_ext);
    let used = byte_len(prefix) + byte_len(ext);
    let budget: nat = if used >= MAX_FILENAME_BYTES {
        0
    } else {
        (MAX_FILENAME_BYTES - used) as nat
    };
    let stem = trim_by(
        fit_prefix(raw_stem(artist, title, source_stem), budget),
        TrimSet::DotSpace,
    );
    prefix + (if stem.len() == 0 {
        track_word()
    } else {
        stem
    }) + ext
}

/// `min(byte_len(v), cap)`, computed without overflow.
fn byte_len_capped(v: &[char], cap: usize) -> (n: usize)
    requires
        cap <= 1000,
    ensures
        n as int == if byte_len(v@) < cap {
            byte_len(v@) as int
        } else {
            cap as int
        },
{
    let mut total: usize = 0;
    let mut i: usize = v.len();
    assert(v@.subrange(v.len() as int, v.len() as int) =~= Seq::<char>::empty());
    while i > 0
        invariant
            i <= v.len(),
            cap <= 1000,
            total as int == if byte_len(v@.subrange(i as int, v.len() as int)) < cap {
                byte_len(v@.subrange(i as int, v.len() as int)) as int
            } else {
                cap as int
            },
        decreases i,
    {
        let ghost rest = v@.subrange(i as int - 1, v.len() as int);
        assert(rest.drop_first() =~= v@.subrange(i as int, v.len() as int));
        let t = total + utf8_len_exec(v[i - 1]);
        total = if t < cap {
            t
        } else {
            cap
        };
        i -= 1;
    }
    assert(v@.subrange(0, v.len() as int) =~= v@);
    total
}

fn position_prefix_chars(position: u64) -> (r: Vec<char>)
    ensures
        r@ == position_prefix(position as nat),
{
    let d = decimal_chars(position);
    let head = if position < 10 {
        concat(&vec!['0'], &d)
    } else {
        d
    };
    let r = concat(&head, &vec![' ', '-', ' ']);
    proof {
        if position < 10 {
            assert(head@ =~= seq!['0'] + decimal(position as nat));
        }
    }
    r
}

/// Build the copied filename for an entry at 1-based `position`:
/// `NN - Artist - Title.<ext>`, sanitized and byte-capped. Falls back to the
/// source file's stem when the title is absent, and preserves the source
/// extension. CJK and other printable Unicode survive verbatim.
pub fn copy_filename(
    position: u64,
    artist: Option<&str>,
    title: Option<&str>,
    source_stem: Option<&str>,
    source_ext: Option<&str>,
) -> (r: String)
    ensures
        r@ == copy_filename_of(
            position as nat,
            opt_view(artist),
            opt_view(title),
            opt_view(source_stem),
            opt_view(source_ext),
        ),
{
    let prefix = position_prefix_chars(position);
    let ext: Vec<char> = match source_ext {
        Some(e) => {
            let se = sanitize_chars(&chars_of(e));
            if se.len() > 0 {
                concat(&vec!['.'], &se)
            } else {
                Vec::new()
            }
        },
        None => Vec::new(),
    };
    assert(ext@ =~= ext_suffix_of(opt_view(source_ext)));
    let stem0: Vec<char> = match (non_blank_exec(artist), non_blank_exec(title)) {
        (Some(a), Some(t)) => concat(
            &concat(&sanitize_chars(&a), &vec![' ', '-', ' ']),
            &sanitize_chars(&t),
        ),
        (None, Some(t)) => sanitize_chars(&t),
        _ => match source_stem {
            Some(st) => sanitize_chars(&chars_of(st)),
            None => Vec::new(),
        },
    };
    let stem1 = if stem0.len() == 0 {
        let t = vec!['t', 'r', 'a', 'c', 'k'];
        assert(t@ =~= track_word());
        t
    } else {
        stem0
    };
    assert(stem1@ == raw_stem(opt_view(artist), opt_view(title), opt_view(source_stem)));
    let used = byte_len_capped(&prefix, 201) + byte_len_capped(&ext, 201);
    let budget: usize = if used >= MAX_FILENAME_BYTES {
        0
    } else {
        MAX_FILENAME_BYTES - used
    };
    let stem2 = trim_set(&truncate_chars(&stem1, budget), TrimSet::DotSpace);
    let stem3 = if stem2.len() == 0 {
        let t = vec!['t', 'r', 'a', 'c', 'k'];
        assert(t@ =~= track_word());
        t
    } else {
        stem2
    };
    string_of(&concat(&concat(&prefix, &stem3), &ext))
}


/// `"playlist"`.
pub open spec fn playlist_word() -> Seq<char> {
    seq!['p', 'l', 'a', 'y', 'l', 'i', 's', 't']
}

/// The file name of a folder's playlist: the sanitized playlist name (or
/// `"playlist"` when that is empty) with `.m3u8`.
pub open spec fn playlist_file_name_of(name: Seq<char>) -> Seq<char> {
    (if sanitized(name).len() == 0 {
        playlist_word()
    } else {
        sanitized(name)
    }) + seq!['.', 'm', '3', 'u', '8']
}

/// The file name of the `.m3u8` written inside an exported folder.
pub fn playlist_file_name(name: &str) -> (r: String)
    ensures
        r@ == playlist_file_name_of(name@),
{
    let s = sanitize_chars(&chars_of(name));
    let base = if s.len() == 0 {
        let p = vec!['p', 'l', 'a', 'y', 'l', 'i', 's', 't'];
        assert(p@ =~= playlist_word());
        p
    } else {
        s
    };
    let ext = vec!['.', 'm', '3', 'u', '8'];
    string_of(&concat(&base, &ext))
}

/// An empty `.m3u8` is never written: it usually means a query matched
/// nothing.
pub fn refuse_empty_playlist(n_entries: usize) -> (r: Result<(), SonagramError>)
    ensures
        r is Ok <==> n_entries > 0,
        r matches Err(e) ==> e is Playlist && e.detail()
            == "refusing to write an empty playlist (no tracks to export — did the query match anything?)"@,
{
    if n_entries == 0 {
        let m = "refusing to write an empty playlist (no tracks to export — did the query match anything?)";
        Err(SonagramError::Playlist(string_of(&chars_of(m))))
    } else {
        Ok(())
    }
}

/// An empty playlist folder is never exported.
pub fn refuse_empty_folder(n_entries: usize) -> (r: Result<(), SonagramError>)
    ensures
        r is Ok <==> n_entries > 0,
        r matches Err(e) ==> e is Playlist && e.detail()
            == "refusing to export an empty playlist folder (no tracks to copy — did the query match anything?)"@,
{
    if n_entries == 0 {
        let m = "refusing to export an empty playlist folder (no tracks to copy — did the query match anything?)";
        Err(SonagramError::Playlist(string_of(&chars_of(m))))
    } else {
        Ok(())
    }
}

/// What a folder export did.
pub struct FolderExportReport {
    /// Number of audio files copied into the destination folder.
    pub copied: usize,
    /// Total bytes copied.
    pub bytes: u64,
    /// The `.m3u8` written inside the folder.
    pub playlist_path: String,
}

/// The bytes copied over all copies that succeeded; each copy reports its
/// byte count, or its failure as `"<source>: <reason>"`.
pub open spec fn copied_bytes(rs: Seq<Result<u64, String>>) -> nat
    decreases rs.len(),
{
    if rs.len() == 0 {
        0
    } else {
        copied_bytes(rs.drop_last()) + match rs.last() {
            Ok(n) => n as nat,
            Err(_) => 0nat,
        }
    }
}

/// The failures among the copies, in order.
pub open spec fn copy_failures(rs: Seq<Result<u64, String>>) -> Seq<Seq<char>>
    decreases rs.len(),
{
    if rs.len() == 0 {
        Seq::empty()
    } else {
        let p = copy_failures(rs.drop_last());
        match rs.last() {
            Ok(_) => p,
            Err(e) => p.push(e@),
        }
    }
}

/// The refusal of a folder export in which some copies failed.
pub open spec fn failed_copies_detail(dest: Seq<char>, failures: Seq<Seq<char>>) -> Seq<char> {
    decimal(failures.len()) + " file(s) failed to copy into "@ + dest + " (partial copies left in place): ["@
        + joined(failures) + "]"@
}

proof fn lemma_copied_bytes_grow(rs: Seq<Result<u64, String>>, i: int)
    requires
        0 <= i <= rs.len(),
    ensures
        copied_bytes(rs.take(i)) <= copied_bytes(rs),
    decreases rs.len() - i,
{
    if i < rs.len() {
        lemma_copied_bytes_grow(rs, i + 1);
        assert(rs.take(i + 1).drop_last() =~= rs.take(i));
    } else {
        assert(rs.take(i) =~= rs);
    }
}

/// The report of a folder export from the outcome of each copy: every copy
/// succeeded, and the counts and the playlist path are reported; or the
/// export is refused with every failure listed.
pub fn folder_report(dest_dir: &str, playlist_path: String, results: &Vec<Result<u64, String>>) -> (r: Result<
    FolderExportReport,
    SonagramError,
>)
    requires
        copied_bytes(results@) <= u64::MAX,
    ensures
        copy_failures(results@).len() == 0 ==> r is Ok && r->Ok_0.copied == results.len() && r->Ok_0.bytes
            == copied_bytes(results@) && r->Ok_0.playlist_path@ == playlist_path@,
        copy_failures(results@).len() > 0 ==> r is Err && r->Err_0 is Playlist && r->Err_0.detail()
            == failed_copies_detail(dest_dir@, copy_failures(results@)),
{
    let ghost rs = results@;
    let mut copied: usize = 0;
    let mut bytes: u64 = 0;
    let mut failures: Vec<String> = Vec::new();
    let mut i: usize = 0;
    while i < results.len()
        invariant
            i <= results.len(),
            rs == results@,
            copied_bytes(rs) <= u64::MAX,
            bytes == copied_bytes(rs.take(i as int)),
            failures.deep_view() == copy_failures(rs.take(i as int)),
            copied + failures.len() == i,
        decreases results.len() - i,
    {
        assert(rs.take(i as int + 1).drop_last() =~= rs.take(i as int));
        proof {
            lemma_copied_bytes_grow(rs, i as int + 1);
        }
        match &results[i] {
            Ok(n) => {
                bytes = bytes + *n;
                copied = copied + 1;
            },
            Err(e) => {
                failures.push(e.clone());
                assert(failures.deep_view() =~= copy_failures(rs.take(i as int)).push(e@));
            },
        }
        i += 1;
    }
    assert(rs.take(results.len() as int) =~= rs);
    if failures.len() == 0 {
        Ok(FolderExportReport { copied, bytes, playlist_path })
    } else {
        let msg = concat(
            &concat(
                &concat(
                    &concat(&decimal_chars(failures.len() as u64), &chars_of(" file(s) failed to copy into ")),
                    &chars_of(dest_dir),
                ),
                &concat(&chars_of(" (partial copies left in place): ["), &comma_joined(&failures)),
            ),
            &chars_of("]"),
        );
        Err(SonagramError::Playlist(string_of(&msg)))
    }
}

} // verus!
