//! Last.fm enrichment rules: `.env` parsing for the API key, the folksonomy
//! tag rules, wiki-summary cleaning, the join key for similar tracks, and the
//! counters an enrichment run reports.
//!
//! The HTTP transport and the JSON cache files live outside the library; it
//! owns what is decided about their contents.

use vstd::prelude::*;

use crate::error::SonagramError;
use crate::normalize::{album_id, album_id_of, album_name, artist_id, artist_id_of, present_tag, present_tag_exec};
use crate::order::{is_keyed_first, keyed_first, triple_view, triples_view};
use crate::record::{tag_album, tag_artist, tag_title, RecordMeta};

use crate::text::{
    chars_eq, chars_of, concat, lowercase_chars, slice_chars, string_of, trim, trim_ws,
    unicode_lowercase,
};

verus! {

// ───────────────────────────── `.env` parsing ─────────────────────────────

/// Length of the text before the first `'\n'`.
pub open spec fn line_len(s: Seq<char>) -> nat
    decreases s.len(),
{
    if s.len() == 0 || s[0] == '\n' {
        0
    } else {
        1 + line_len(s.drop_first())
    }
}

pub proof fn lemma_line_len(s: Seq<char>)
    ensures
        line_len(s) <= s.len(),
        line_len(s) < s.len() ==> s[line_len(s) as int] == '\n',
        forall|i: int| 0 <= i < line_len(s) ==> s[i] != '\n',
    decreases s.len(),
{
    if s.len() > 0 && s[0] != '\n' {
        lemma_line_len(s.drop_first());
        assert forall|i: int| 0 <= i < line_len(s) implies s[i] != '\n' by {
            if i > 0 {
                assert(s[i] == s.drop_first()[i - 1]);
            }
        }
    }
}

/// A line that ended with `'\n'` loses one trailing `'\r'`.
pub open spec fn strip_cr(l: Seq<char>) -> Seq<char> {
    if l.len() > 0 && l.last() == '\r' {
        l.drop_last()
    } else {
        l
    }
}

/// `str::lines`: split at `'\n'` (a `"\r\n"` ending loses its `'\r'`), with no
/// empty line after a final newline.
pub open spec fn lines(s: Seq<char>) -> Seq<Seq<char>>
    decreases s.len(),
{
    if s.len() == 0 {
        Seq::empty()
    } else {
        let k = line_len(s);
        proof {
            lemma_line_len(s);
        }
        if k == s.len() {
            seq![s]
        } else {
            seq![strip_cr(s.take(k as int))] + lines(s.skip(k as int + 1))
        }
    }
}

/// Strip one layer of matched surrounding quotes (`"x"` or `'x'`).
pub open spec fn strip_quotes_of(s: Seq<char>) -> Seq<char> {
    if s.len() >= 2 && (s[0] == '"' || s[0] == '\'') && s.last() == s[0] {
        s.subrange(1, s.len() - 1)
    } else {
        s
    }
}

/// `"export "`.
pub open spec fn export_prefix() -> Seq<char> {
    seq!['e', 'x', 'p', 'o', 'r', 't', ' ']
}

/// Position of the first `=` below `k`... searched from the left: the index
/// of the first `'='` in `s`, or `s.len()` when there is none.
pub open spec fn first_eq(s: Seq<char>) -> nat
    decreases s.len(),
{
    if s.len() == 0 || s[0] == '=' {
        0
    } else {
        1 + first_eq(s.drop_first())
    }
}

proof fn lemma_first_eq(s: Seq<char>)
    ensures
        first_eq(s) <= s.len(),
        first_eq(s) < s.len() ==> s[first_eq(s) as int] == '=',
        forall|i: int| 0 <= i < first_eq(s) ==> s[i] != '=',
    decreases s.len(),
{
    if s.len() > 0 && s[0] != '=' {
        lemma_first_eq(s.drop_first());
        assert forall|i: int| 0 <= i < first_eq(s) implies s[i] != '=' by {
            if i > 0 {
                assert(s[i] == s.drop_first()[i - 1]);
            }
        }
    }
}

/// The assignment one `.env` line makes, if any: blank lines and `#`
/// comments make none, a leading `export ` is dropped, the line splits at its
/// first `=`, the key is trimmed and must not be empty, and the value is
/// trimmed and loses one layer of matched quotes.
pub open spec fn env_assignment(raw: Seq<char>) -> Option<(Seq<char>, Seq<char>)> {
    let line = trim(raw);
    if line.len() == 0 || line[0] == '#' {
        None
    } else {
        let body = if export_prefix().is_prefix_of(line) {
            line.skip(7)
        } else {
            line
        };
        let e = first_eq(body);
        if e >= body.len() {
            None
        } else {
            let key = trim(body.take(e as int));
            if key.len() == 0 {
                None
            } else {
                Some((key, strip_quotes_of(trim(body.skip(e as int + 1)))))
            }
        }
    }
}

/// The assignments of a `.env` text, in order.
pub open spec fn env_assignments(ls: Seq<Seq<char>>) -> Seq<(Seq<char>, Seq<char>)>
    decreases ls.len(),
{
    if ls.len() == 0 {
        Seq::empty()
    } else {
        match env_assignment(ls.last()) {
            Some(a) => env_assignments(ls.drop_last()).push(a),
            None => env_assignments(ls.drop_last()),
        }
    }
}

/// The value a sequence of assignments gives `key`: the last one wins.
pub open spec fn lookup(es: Seq<(Seq<char>, Seq<char>)>, key: Seq<char>) -> Option<Seq<char>>
    decreases es.len(),
{
    if es.len() == 0 {
        None
    } else if es.last().0 == key {
        Some(es.last().1)
    } else {
        lookup(es.drop_last(), key)
    }
}

/// The `KEY=VALUE` assignments of a `.env` file, in file order; a later
/// assignment of a key overrides an earlier one.
pub struct EnvMap {
    /// Every assignment, in order.
    pub entries: Vec<(String, String)>,
}

impl EnvMap {
    /// The assignments as character sequences.
    pub open spec fn assignments(&self) -> Seq<(Seq<char>, Seq<char>)> {
        Seq::new(self.entries@.len(), |i: int| (self.entries@[i].0@, self.entries@[i].1@))
    }

    /// The value `key` holds: that of its last assignment.
    pub fn get(&self, key: &str) -> (r: Option<&String>)
        ensures
            match r {
                Some(v) => lookup(self.assignments(), key@) == Some(v@),
                None => lookup(self.assignments(), key@) is None,
            },
    {
        let k = chars_of(key);
        let mut i: usize = self.entries.len();
        assert(self.assignments().take(i as int) =~= self.assignments());
        while i > 0
            invariant
                i <= self.entries.len(),
                k@ == key@,
                lookup(self.assignments(), key@) == lookup(self.assignments().take(i as int), key@),
            decreases i,
        {
            let ghost pre = self.assignments().take(i as int);
            assert(pre.drop_last() =~= self.assignments().take(i as int - 1));
            let e = &self.entries[i - 1];
            if chars_eq(&chars_of(e.0.as_str()), &k) {
                return Some(&e.1);
            }
            i -= 1;
        }
        None
    }

    /// Whether `key` is assigned.
    pub fn contains_key(&self, key: &str) -> (b: bool)
        ensures
            b == lookup(self.assignments(), key@) is Some,
    {
        self.get(key).is_some()
    }
}

fn strip_quotes_chars(v: &[char]) -> (r: Vec<char>)
    ensures
        r@ == strip_quotes_of(v@),
{
    let n = v.len();
    if n >= 2 && (v[0] == '"' || v[0] == '\'') && v[n - 1] == v[0] {
        slice_chars(v, 1, n - 1)
    } else {
        slice_chars(v, 0, n)
    }
}

/// Strip one layer of matched surrounding quotes.
pub fn strip_quotes(s: &str) -> (r: String)
    ensures
        r@ == strip_quotes_of(s@),
{
    string_of(&strip_quotes_chars(&chars_of(s)))
}

fn env_assignment_exec(raw: &[char]) -> (r: Option<(Vec<char>, Vec<char>)>)
    ensures
        match r {
            Some((k, v)) => env_assignment(raw@) == Some((k@, v@)),
            None => env_assignment(raw@) is None,
        },
{
    let line = trim_ws(raw);
    if line.len() == 0 || line[0] == '#' {
        return None;
    }
    let ex = vec!['e', 'x', 'p', 'o', 'r', 't', ' '];
    assert(ex@ =~= export_prefix());
    let body = if crate::text::starts_with(&line, &ex) {
        slice_chars(&line, 7, line.len())
    } else {
        slice_chars(&line, 0, line.len())
    };
    assert(body@ =~= (if export_prefix().is_prefix_of(line@) {
        line@.skip(7)
    } else {
        line@
    }));
    let mut e: usize = 0;
    while e < body.len() && body[e] != '='
        invariant
            e <= body.len(),
            forall|i: int| 0 <= i < e ==> body@[i] != '=',
        decreases body.len() - e,
    {
        e += 1;
    }
    proof {
        lemma_first_eq(body@);
        lemma_first_eq_is(body@, e as nat);
    }
    if e >= body.len() {
        return None;
    }
    let key = trim_ws(&slice_chars(&body, 0, e));
    assert(body@.subrange(0, e as int) =~= body@.take(e as int));
    if key.len() == 0 {
        return None;
    }
    let rest = slice_chars(&body, e + 1, body.len());
    assert(rest@ =~= body@.skip(e as int + 1));
    let value = strip_quotes_chars(&trim_ws(&rest));
    Some((key, value))
}

proof fn lemma_first_eq_is(s: Seq<char>, e: nat)
    requires
        e <= s.len(),
        forall|i: int| 0 <= i < e ==> s[i] != '=',
        e < s.len() ==> s[e as int] == '=',
    ensures
        first_eq(s) == e,
    decreases s.len(),
{
    if s.len() > 0 && s[0] != '=' {
        assert forall|i: int| 0 <= i < e - 1 implies s.drop_first()[i] != '=' by {
            assert(s.drop_first()[i] == s[i + 1]);
        }
        if e > 0 {
            lemma_first_eq_is(s.drop_first(), (e - 1) as nat);
        }
    }
}

/// Minimal `.env` parser: `KEY=VALUE` per line. Blank lines and `#` comments
/// are ignored, a leading `export ` is dropped, and one layer of surrounding
/// matched single/double quotes is stripped from the value. No escapes, no
/// interpolation.
pub fn parse_env(text: &str) -> (r: EnvMap)
    ensures
        r.assignments() == env_assignments(lines(text@)),
{
    let v = chars_of(text);
    let n = v.len();
    let mut out: Vec<(String, String)> = Vec::new();
    let mut i: usize = 0;
    let ghost mut done: Seq<Seq<char>> = Seq::empty();
    assert(v@.subrange(0, n as int) =~= v@);
    assert(done + lines(v@.subrange(0, n as int)) =~= lines(v@));
    while i < n
        invariant
            i <= n == v@.len(),
            done + lines(v@.subrange(i as int, n as int)) == lines(text@),
            (EnvMap { entries: out }).assignments() == env_assignments(done),
        decreases n - i,
    {
        let ghost rest = v@.subrange(i as int, n as int);
        let mut j: usize = i;
        while j < n && v[j] != '\n'
            invariant
                i <= j <= n == v@.len(),
                forall|k: int| i <= k < j ==> v@[k] != '\n',
            decreases n - j,
        {
            j += 1;
        }
        proof {
            lemma_line_len(rest);
            lemma_line_len_is(rest, (j - i) as nat);
        }
        let raw = slice_chars(&v, i, j);
        assert(raw@ =~= rest.take((j - i) as int));
        let line = if j < n && raw.len() > 0 && raw[raw.len() - 1] == '\r' {
            slice_chars(&raw, 0, raw.len() - 1)
        } else {
            raw
        };
        let ghost this_line = if (j - i) as nat == rest.len() {
            rest
        } else {
            strip_cr(rest.take((j - i) as int))
        };
        proof {
            if j < n {
                assert(line@ =~= strip_cr(rest.take((j - i) as int)));
            } else {
                assert(rest.take((j - i) as int) =~= rest);
            }
            assert(line@ == this_line);
        }
        let ghost entries0 = (EnvMap { entries: out }).assignments();
        match env_assignment_exec(&line) {
            Some((k, val)) => {
                out.push((string_of(&k), string_of(&val)));
                assert((EnvMap { entries: out }).assignments() =~= entries0.push((k@, val@)));
            },
            None => {
                assert((EnvMap { entries: out }).assignments() =~= entries0);
            },
        }
        proof {
            let done2 = done.push(this_line);
            assert(done2.drop_last() =~= done);
            assert(done2.last() == this_line);
            if j < n {
                assert(rest.skip((j - i) as int + 1) =~= v@.subrange(j as int + 1, n as int));
                assert(lines(rest) == seq![this_line] + lines(rest.skip((j - i) as int + 1)));
                assert(done2 + lines(v@.subrange(j as int + 1, n as int)) =~= done + lines(rest));
            } else {
                assert(lines(rest) == seq![this_line]);
                assert(v@.subrange(n as int, n as int) =~= Seq::<char>::empty());
                assert(done2 + lines(v@.subrange(n as int, n as int)) =~= done + lines(rest));
            }
            done = done2;
        }
        i = if j < n {
            j + 1
        } else {
            j
        };
    }
    assert(v@.subrange(n as int, n as int) =~= Seq::<char>::empty());
    assert(done + Seq::<Seq<char>>::empty() =~= done);
    EnvMap { entries: out }
}

pub proof fn lemma_line_len_is(s: Seq<char>, e: nat)
    requires
        e <= s.len(),
        forall|i: int| 0 <= i < e ==> s[i] != '\n',
        e < s.len() ==> s[e as int] == '\n',
    ensures
        line_len(s) == e,
    decreases s.len(),
{
    if s.len() > 0 && s[0] != '\n' {
        assert forall|i: int| 0 <= i < e - 1 implies s.drop_first()[i] != '\n' by {
            assert(s.drop_first()[i] == s[i + 1]);
        }
        if e > 0 {
            lemma_line_len_is(s.drop_first(), (e - 1) as nat);
        }
    }
}


// ───────────────────────────── text rules ─────────────────────────────

/// Length of the text before the first `'<'`.
pub open spec fn before_tag_len(s: Seq<char>) -> nat
    decreases s.len(),
{
    if s.len() == 0 || s[0] == '<' {
        0
    } else {
        1 + before_tag_len(s.drop_first())
    }
}

proof fn lemma_before_tag_len(s: Seq<char>, e: nat)
    requires
        e <= s.len(),
        forall|i: int| 0 <= i < e ==> s[i] != '<',
        e < s.len() ==> s[e as int] == '<',
    ensures
        before_tag_len(s) == e,
    decreases s.len(),
{
    if s.len() > 0 && s[0] != '<' {
        assert forall|i: int| 0 <= i < e - 1 implies s.drop_first()[i] != '<' by {
            assert(s.drop_first()[i] == s[i + 1]);
        }
        if e > 0 {
            lemma_before_tag_len(s.drop_first(), (e - 1) as nat);
        }
    }
}

/// The wiki-summary cleaning rule: everything from the first `<` is dropped
/// (the read-more link), the rest trimmed and cut to `max` characters; `None`
/// when nothing is left.
pub open spec fn strip_html_truncate_of(s: Seq<char>, max: nat) -> Option<Seq<char>> {
    let head = trim(s.take(before_tag_len(s) as int));
    if head.len() == 0 {
        None
    } else if head.len() <= max {
        Some(head)
    } else {
        Some(head.take(max as int))
    }
}

/// Strip everything from the first `<` and truncate to `max` chars; `None`
/// when the result is empty.
pub fn strip_html_truncate(s: &str, max: usize) -> (r: Option<String>)
    ensures
        match r {
            Some(t) => strip_html_truncate_of(s@, max as nat) == Some(t@),
            None => strip_html_truncate_of(s@, max as nat) is None,
        },
{
    let v = chars_of(s);
    let mut e: usize = 0;
    while e < v.len() && v[e] != '<'
        invariant
            e <= v.len(),
            forall|i: int| 0 <= i < e ==> v@[i] != '<',
        decreases v.len() - e,
    {
        e += 1;
    }
    proof {
        lemma_before_tag_len(v@, e as nat);
    }
    let head = trim_ws(&slice_chars(&v, 0, e));
    assert(v@.subrange(0, e as int) =~= v@.take(e as int));
    if head.len() == 0 {
        return None;
    }
    let cut = if head.len() <= max {
        head.len()
    } else {
        max
    };
    let t = slice_chars(&head, 0, cut);
    assert(head.len() <= max ==> t@ =~= head@);
    assert(head.len() > max ==> t@ =~= head@.take(max as int));
    Some(string_of(&t))
}

/// The join key for resolving an `(artist, title)` against owned tracks:
/// `"<artist-lower>::<title-lower>"`, both trimmed first.
pub open spec fn similar_key_of(artist: Seq<char>, title: Seq<char>) -> Seq<char> {
    unicode_lowercase(trim(artist)) + seq![':', ':'] + unicode_lowercase(trim(title))
}

/// The join key for resolving a Last.fm `(artist, title)` against owned
/// tracks, case-insensitively.
pub fn similar_key(artist: &str, title: &str) -> (r: String)
    ensures
        r@ == similar_key_of(artist@, title@),
{
    let a = lowercase_chars(&trim_ws(&chars_of(artist)));
    let t = lowercase_chars(&trim_ws(&chars_of(title)));
    string_of(&concat(&concat(&a, &vec![':', ':']), &t))
}

/// First occurrences only, in first-seen order.
pub open spec fn dedup_seq(s: Seq<Seq<char>>) -> Seq<Seq<char>>
    decreases s.len(),
{
    if s.len() == 0 {
        Seq::empty()
    } else if dedup_seq(s.drop_last()).contains(s.last()) {
        dedup_seq(s.drop_last())
    } else {
        dedup_seq(s.drop_last()).push(s.last())
    }
}

/// Dedup a list of strings, keeping first-seen order.
pub fn dedup_keep_order(items: Vec<String>) -> (r: Vec<String>)
    ensures
        r.deep_view() == dedup_seq(items.deep_view()),
{
    let mut out: Vec<String> = Vec::new();
    let mut i: usize = 0;
    while i < items.len()
        invariant
            i <= items.len(),
            out.deep_view() == dedup_seq(items.deep_view().take(i as int)),
        decreases items.len() - i,
    {
        let ghost pre = items.deep_view().take(i as int + 1);
        assert(pre.drop_last() =~= items.deep_view().take(i as int));
        assert(pre.last() == items[i as int]@);
        let c = chars_of(items[i].as_str());
        if !crate::playlist::contains_chars(&out, &c) {
            let ghost o0 = out.deep_view();
            out.push(string_of(&c));
            assert(out.deep_view() =~= o0.push(c@));
        }
        i += 1;
    }
    assert(items.deep_view().take(items.len() as int) =~= items.deep_view());
    out
}

/// Deduplication keeps exactly the distinct items: no item twice, and every
/// input item present.
pub proof fn lemma_dedup_seq(s: Seq<Seq<char>>)
    ensures
        dedup_seq(s).no_duplicates(),
        forall|x: Seq<char>| s.contains(x) <==> dedup_seq(s).contains(x),
    decreases s.len(),
{
    if s.len() > 0 {
        let p = s.drop_last();
        let d = dedup_seq(p);
        let x0 = s.last();
        lemma_dedup_seq(p);
        if d.contains(x0) {
            assert forall|x: Seq<char>| s.contains(x) <==> d.contains(x) by {
                if s.contains(x) {
                    let k = choose|k: int| 0 <= k < s.len() && s[k] == x;
                    if k < s.len() - 1 {
                        assert(p[k] == x);
                        assert(p.contains(x));
                    }
                }
                if d.contains(x) {
                    assert(p.contains(x));
                    let k = choose|k: int| 0 <= k < p.len() && p[k] == x;
                    assert(s[k] == x);
                }
            }
        } else {
            let e = d.push(x0);
            assert forall|i: int, j: int| 0 <= i < e.len() && 0 <= j < e.len() && i != j implies e[i]
                != e[j] by {
                if i < d.len() && j < d.len() {
                } else if i < d.len() {
                    assert(e[j] == x0);
                    assert(d[i] == e[i]);
                } else if j < d.len() {
                    assert(e[i] == x0);
                    assert(d[j] == e[j]);
                }
            }
            assert forall|x: Seq<char>| s.contains(x) <==> e.contains(x) by {
                if s.contains(x) {
                    let k = choose|k: int| 0 <= k < s.len() && s[k] == x;
                    if k < s.len() - 1 {
                        assert(p[k] == x);
                        assert(p.contains(x));
                        let m = choose|m: int| 0 <= m < d.len() && d[m] == x;
                        assert(e[m] == x);
                    } else {
                        assert(e[d.len() as int] == x);
                    }
                }
                if e.contains(x) {
                    let m = choose|m: int| 0 <= m < e.len() && e[m] == x;
                    if m < d.len() {
                        assert(d[m] == x);
                        assert(p.contains(x));
                        let k = choose|k: int| 0 <= k < p.len() && p[k] == x;
                        assert(s[k] == x);
                    } else {
                        assert(s[s.len() - 1] == x);
                    }
                }
            }
        }
    }
}

/// The top-tag rule: a tag with a count of at least `min_count` that is not
/// already listed is appended, in order.
pub open spec fn merge_top_tags_of(
    tags: Seq<Seq<char>>,
    top: Seq<(Seq<char>, Option<i64>)>,
    min_count: i64,
) -> Seq<Seq<char>>
    decreases top.len(),
{
    if top.len() == 0 {
        tags
    } else {
        let prev = merge_top_tags_of(tags, top.drop_last(), min_count);
        let (name, count) = top.last();
        let c = match count {
            Some(c) => c,
            None => 0,
        };
        if c >= min_count && !prev.contains(name) {
            prev.push(name)
        } else {
            prev
        }
    }
}

/// The view of top-tag pairs.
pub open spec fn tag_pairs_view(top: Seq<(String, Option<i64>)>) -> Seq<(Seq<char>, Option<i64>)> {
    Seq::new(top.len(), |i: int| (top[i].0@, top[i].1))
}

/// Append the count-filtered top tags to `tags`, skipping duplicates.
pub fn merge_top_tags(tags: &mut Vec<String>, top: &[(String, Option<i64>)], min_count: i64)
    ensures
        final(tags).deep_view() == merge_top_tags_of(
            old(tags).deep_view(),
            tag_pairs_view(top@),
            min_count,
        ),
{
    let ghost t0 = tags.deep_view();
    let mut i: usize = 0;
    while i < top.len()
        invariant
            i <= top.len(),
            tags.deep_view() == merge_top_tags_of(t0, tag_pairs_view(top@).take(i as int), min_count),
        decreases top.len() - i,
    {
        let ghost pre = tag_pairs_view(top@).take(i as int + 1);
        assert(pre.drop_last() =~= tag_pairs_view(top@).take(i as int));
        let name = chars_of(top[i].0.as_str());
        let count = match top[i].1 {
            Some(c) => c,
            None => 0,
        };
        if count >= min_count && !crate::playlist::contains_chars(tags, &name) {
            let ghost g0 = tags.deep_view();
            tags.push(string_of(&name));
            assert(tags.deep_view() =~= g0.push(name@));
        }
        i += 1;
    }
    assert(tag_pairs_view(top@).take(top.len() as int) =~= tag_pairs_view(top@));
}

/// The autocorrection recorded for a queried artist: Last.fm's returned name
/// when its lowercase form differs from the trimmed, lowercased query.
pub open spec fn correction_of(query: Seq<char>, returned: Seq<char>) -> Option<Seq<char>> {
    if unicode_lowercase(returned) != unicode_lowercase(trim(query)) {
        Some(returned)
    } else {
        None
    }
}

/// The autocorrected artist name to record, if Last.fm's name differs.
pub fn correction_for(query: &str, returned: &str) -> (r: Option<String>)
    ensures
        match r {
            Some(c) => correction_of(query@, returned@) == Some(c@),
            None => correction_of(query@, returned@) is None,
        },
{
    let a = lowercase_chars(&chars_of(returned));
    let b = lowercase_chars(&trim_ws(&chars_of(query)));
    if chars_eq(&a, &b) {
        None
    } else {
        Some(string_of(&chars_of(returned)))
    }
}

// ───────────────────────────── progress and reports ─────────────────────────────

/// The entity kind an enrichment progress report refers to.
#[derive(Debug, Clone, Copy, PartialEq, Eq)]
pub enum EnrichKind {
    /// Fetching artists.
    Artist,
    /// Fetching tracks.
    Track,
    /// Fetching albums.
    Album,
}

/// The stable name of a kind in the progress file.
pub open spec fn kind_name_of(kind: EnrichKind) -> Seq<char> {
    match kind {
        EnrichKind::Artist => seq!['a', 'r', 't', 'i', 's', 't'],
        EnrichKind::Track => seq!['t', 'r', 'a', 'c', 'k'],
        EnrichKind::Album => seq!['a', 'l', 'b', 'u', 'm'],
    }
}

/// The stable string form of an [`EnrichKind`] used in the progress file.
pub fn kind_name(kind: EnrichKind) -> (r: String)
    ensures
        r@ == kind_name_of(kind),
{
    let v = match kind {
        EnrichKind::Artist => vec!['a', 'r', 't', 'i', 's', 't'],
        EnrichKind::Track => vec!['t', 'r', 'a', 'c', 'k'],
        EnrichKind::Album => vec!['a', 'l', 'b', 'u', 'm'],
    };
    assert(v@ =~= kind_name_of(kind));
    string_of(&v)
}

/// Coarse enrichment progress within one kind.
#[derive(Debug, Clone, PartialEq, Eq)]
pub struct EnrichProgress {
    /// Which entity kind is being fetched.
    pub kind: EnrichKind,
    /// Entities fetched in this kind so far (this run; excludes cache skips).
    pub done: usize,
    /// Total to fetch in this kind (this run).
    pub total: usize,
}

/// The outcome of an enrichment run — counts per entity kind + wall time.
#[derive(Debug, Clone)]
pub struct EnrichReport {
    /// Artists newly fetched this run.
    pub artists_fetched: usize,
    /// Artists already in cache (skipped).
    pub artists_skipped: usize,
    /// Artists whose fetch soft-failed this run.
    pub artists_failed: usize,
    /// Tracks newly fetched this run.
    pub tracks_fetched: usize,
    /// Tracks already in cache (skipped).
    pub tracks_skipped: usize,
    /// Tracks whose fetch soft-failed this run.
    pub tracks_failed: usize,
    /// Albums newly fetched this run.
    pub albums_fetched: usize,
    /// Albums already in cache (skipped).
    pub albums_skipped: usize,
    /// Albums whose fetch soft-failed this run.
    pub albums_failed: usize,
    /// Wall-clock time for the run, in milliseconds.
    pub elapsed_ms: u64,
}

impl Default for EnrichReport {
    fn default() -> (r: Self)
        ensures
            r.artists_fetched == 0 && r.artists_skipped == 0 && r.artists_failed == 0
                && r.tracks_fetched == 0 && r.tracks_skipped == 0 && r.tracks_failed == 0
                && r.albums_fetched == 0 && r.albums_skipped == 0 && r.albums_failed == 0
                && r.elapsed_ms == 0,
    {
        EnrichReport {
            artists_fetched: 0,
            artists_skipped: 0,
            artists_failed: 0,
            tracks_fetched: 0,
            tracks_skipped: 0,
            tracks_failed: 0,
            albums_fetched: 0,
            albums_skipped: 0,
            albums_failed: 0,
            elapsed_ms: 0,
        }
    }
}

// ───────────────────────────── cache locations ─────────────────────────────

/// `PathBuf::join` with a relative component: a `/` is inserted unless the
/// base is empty or already ends with one.
pub open spec fn join_path(base: Seq<char>, comp: Seq<char>) -> Seq<char> {
    if base.len() == 0 {
        comp
    } else if base.last() == '/' {
        base + comp
    } else {
        base + seq!['/'] + comp
    }
}

/// Join a relative component onto a path.
pub fn join_path_chars(base: &[char], comp: &[char]) -> (r: Vec<char>)
    ensures
        r@ == join_path(base@, comp@),
{
    if base.len() == 0 {
        slice_chars(comp, 0, comp.len())
    } else if base[base.len() - 1] == '/' {
        concat(base, comp)
    } else {
        let mut b = slice_chars(base, 0, base.len());
        b.push('/');
        assert(b@ =~= base@ + seq!['/']);
        concat(&b, comp)
    }
}

/// `.sonagram`.
pub open spec fn dot_sonagram() -> Seq<char> {
    seq!['.', 's', 'o', 'n', 'a', 'g', 'r', 'a', 'm']
}

/// `<lib>/.sonagram/lastfm`.
pub open spec fn lastfm_dir(library_root: Seq<char>) -> Seq<char> {
    join_path(join_path(library_root, dot_sonagram()), seq!['l', 'a', 's', 't', 'f', 'm'])
}

/// Path of a library's enrich progress file: `<lib>/.sonagram/enrich_progress.json`.
pub open spec fn enrich_progress_path_of(library_root: Seq<char>) -> Seq<char> {
    join_path(
        join_path(library_root, dot_sonagram()),
        seq![
            'e', 'n', 'r', 'i', 'c', 'h', '_', 'p', 'r', 'o', 'g', 'r', 'e', 's', 's', '.', 'j',
            's', 'o', 'n'
        ],
    )
}

fn dot_sonagram_chars() -> (r: Vec<char>)
    ensures
        r@ == dot_sonagram(),
{
    let r = vec!['.', 's', 'o', 'n', 'a', 'g', 'r', 'a', 'm'];
    assert(r@ =~= dot_sonagram());
    r
}

/// Path of a library's enrich progress file.
pub fn enrich_progress_path(library_root: &str) -> (r: String)
    ensures
        r@ == enrich_progress_path_of(library_root@),
{
    let base = join_path_chars(&chars_of(library_root), &dot_sonagram_chars());
    let f = vec![
        'e', 'n', 'r', 'i', 'c', 'h', '_', 'p', 'r', 'o', 'g', 'r', 'e', 's', 's', '.', 'j', 's',
        'o', 'n',
    ];
    let r = join_path_chars(&base, &f);
    proof {
        assert(f@ =~= seq![
            'e', 'n', 'r', 'i', 'c', 'h', '_', 'p', 'r', 'o', 'g', 'r', 'e', 's', 's', '.', 'j',
            's', 'o', 'n'
        ]);
    }
    string_of(&r)
}

/// Handle to a library's `.sonagram/lastfm/` enrichment cache directory.
pub struct EnrichStore {
    root: String,
}

/// The names of the three cache files.
pub open spec fn artists_json() -> Seq<char> {
    seq!['a', 'r', 't', 'i', 's', 't', 's', '.', 'j', 's', 'o', 'n']
}

/// `tracks.json`.
pub open spec fn tracks_json() -> Seq<char> {
    seq!['t', 'r', 'a', 'c', 'k', 's', '.', 'j', 's', 'o', 'n']
}

/// `albums.json`.
pub open spec fn albums_json() -> Seq<char> {
    seq!['a', 'l', 'b', 'u', 'm', 's', '.', 'j', 's', 'o', 'n']
}

impl EnrichStore {
    /// The cache directory.
    pub closed spec fn root_view(&self) -> Seq<char> {
        self.root@
    }

    /// The store rooted at `<library_root>/.sonagram/lastfm/`. Touches no disk.
    pub fn new(library_root: &str) -> (r: Self)
        ensures
            r.root_view() == lastfm_dir(library_root@),
    {
        let base = join_path_chars(&chars_of(library_root), &dot_sonagram_chars());
        let l = vec!['l', 'a', 's', 't', 'f', 'm'];
        assert(l@ =~= seq!['l', 'a', 's', 't', 'f', 'm']);
        EnrichStore { root: string_of(&join_path_chars(&base, &l)) }
    }

    /// `<lib>/.sonagram/lastfm/` itself.
    pub fn dir(&self) -> (r: &String)
        ensures
            r@ == self.root_view(),
    {
        &self.root
    }

    /// `<lib>/.sonagram/lastfm/artists.json`.
    pub fn artists_path(&self) -> (r: String)
        ensures
            r@ == join_path(self.root_view(), artists_json()),
    {
        let f = vec!['a', 'r', 't', 'i', 's', 't', 's', '.', 'j', 's', 'o', 'n'];
        assert(f@ =~= artists_json());
        string_of(&join_path_chars(&chars_of(self.root.as_str()), &f))
    }

    /// `<lib>/.sonagram/lastfm/tracks.json`.
    pub fn tracks_path(&self) -> (r: String)
        ensures
            r@ == join_path(self.root_view(), tracks_json()),
    {
        let f = vec!['t', 'r', 'a', 'c', 'k', 's', '.', 'j', 's', 'o', 'n'];
        assert(f@ =~= tracks_json());
        string_of(&join_path_chars(&chars_of(self.root.as_str()), &f))
    }

    /// `<lib>/.sonagram/lastfm/albums.json`.
    pub fn albums_path(&self) -> (r: String)
        ensures
            r@ == join_path(self.root_view(), albums_json()),
    {
        let f = vec!['a', 'l', 'b', 'u', 'm', 's', '.', 'j', 's', 'o', 'n'];
        assert(f@ =~= albums_json());
        string_of(&join_path_chars(&chars_of(self.root.as_str()), &f))
    }
}

// ───────────────────────────── API-key resolution ─────────────────────────────

/// `"LASTFM_API_KEY"`.
pub open spec fn key_name() -> Seq<char> {
    seq!['L', 'A', 'S', 'T', 'F', 'M', '_', 'A', 'P', 'I', '_', 'K', 'E', 'Y']
}

/// The trimmed text when it is not blank.
pub open spec fn usable(v: Option<Seq<char>>) -> Option<Seq<char>> {
    match v {
        Some(t) => if trim(t).len() > 0 {
            Some(trim(t))
        } else {
            None
        },
        None => None,
    }
}

/// The usable key a `.env` file's text assigns.
pub open spec fn key_in_env_text_of(text: Seq<char>) -> Option<Seq<char>> {
    usable(lookup(env_assignments(lines(text)), key_name()))
}

/// The non-blank, trimmed `LASTFM_API_KEY` a `.env` file assigns.
pub fn key_in_env_text(text: &str) -> (r: Option<String>)
    ensures
        match key_in_env_text_of(text@) {
            Some(k) => r is Some && r->Some_0@ == k,
            None => r is None,
        },
{
    let env = parse_env(text);
    let name = chars_of("LASTFM_API_KEY");
    proof {
        reveal_strlit("LASTFM_API_KEY");
        assert(name@ =~= key_name());
    }
    match env.get(string_of(&name).as_str()) {
        Some(v) => {
            let t = trim_ws(&chars_of(v.as_str()));
            if t.len() > 0 {
                Some(string_of(&t))
            } else {
                None
            }
        },
        None => None,
    }
}

/// The first usable key among `.env` texts (`None` for a file that could not
/// be read), in order.
pub open spec fn first_env_key(texts: Seq<Option<Seq<char>>>) -> Option<Seq<char>>
    decreases texts.len(),
{
    if texts.len() == 0 {
        None
    } else {
        match texts[0] {
            Some(t) => match key_in_env_text_of(t) {
                Some(k) => Some(k),
                None => first_env_key(texts.drop_first()),
            },
            None => first_env_key(texts.drop_first()),
        }
    }
}

/// The key resolved, in order: the explicit override, the `LASTFM_API_KEY`
/// variable, then the `.env` files (current dir, library root, sonagram
/// home) — each trimmed and used only when not blank.
pub open spec fn api_key_of(
    override_key: Option<Seq<char>>,
    env_var: Option<Seq<char>>,
    env_texts: Seq<Option<Seq<char>>>,
) -> Option<Seq<char>> {
    match usable(override_key) {
        Some(k) => Some(k),
        None => match usable(env_var) {
            Some(k) => Some(k),
            None => first_env_key(env_texts),
        },
    }
}

/// The detail of the missing-key error.
pub open spec fn missing_key_detail() -> Seq<char> {
    seq![
        'n', 'o', ' ', 'L', 'A', 'S', 'T', 'F', 'M', '_', 'A', 'P', 'I', '_', 'K', 'E', 'Y', ' ',
        '—', ' ', 's', 'e', 't', ' ', 't', 'h', 'e', ' ', 'e', 'n', 'v', ' ', 'v', 'a', 'r', ',',
        ' ', 'o', 'r', ' ', 'a', 'd', 'd', ' ', '`', 'L', 'A', 'S', 'T', 'F', 'M', '_', 'A', 'P',
        'I', '_', 'K', 'E', 'Y', '=', '.', '.', '.', '`', ' ', 't', 'o', ' ', 'a', ' ', '.', 'e',
        'n', 'v', ' ', 'f', 'i', 'l', 'e', ' ', 'i', 'n', ' ', 't', 'h', 'e', ' ', 'c', 'u', 'r',
        'r', 'e', 'n', 't', ' ', 'd', 'i', 'r', ',', ' ', 't', 'h', 'e', ' ', 'l', 'i', 'b', 'r',
        'a', 'r', 'y', ' ', 'r', 'o', 'o', 't', ',', ' ', 'o', 'r', ' ', '~', '/', '.', 's', 'o',
        'n', 'a', 'g', 'r', 'a', 'm', '/', '.', 'e', 'n', 'v'
    ]
}

fn usable_exec(v: Option<&str>) -> (r: Option<String>)
    ensures
        match usable(
            match v {
                Some(t) => Some(t@),
                None => None,
            },
        ) {
            Some(k) => r is Some && r->Some_0@ == k,
            None => r is None,
        },
{
    match v {
        Some(t) => {
            let c = trim_ws(&chars_of(t));
            if c.len() > 0 {
                Some(string_of(&c))
            } else {
                None
            }
        },
        None => None,
    }
}

/// Resolve the Last.fm API key from an explicit override, the
/// `LASTFM_API_KEY` variable and the texts of the candidate `.env` files in
/// order; a missing key is an enrichment error.
pub fn resolve_api_key(override_key: Option<&str>, env_var: Option<&str>, env_texts: &Vec<Option<String>>) -> (r: Result<String, SonagramError>)
    ensures
        match api_key_of(
            match override_key {
                Some(t) => Some(t@),
                None => None,
            },
            match env_var {
                Some(t) => Some(t@),
                None => None,
            },
            env_texts@.map_values(|t: Option<String>| match t {
                Some(s) => Some(s@),
                None => None,
            }),
        ) {
            Some(k) => r is Ok && r->Ok_0@ == k,
            None => r is Err && r->Err_0 is Enrich && r->Err_0.detail() == missing_key_detail(),
        },
{
    let ghost tv = env_texts@.map_values(|t: Option<String>| match t {
        Some(s) => Some(s@),
        None => None,
    });
    if let Some(k) = usable_exec(override_key) {
        return Ok(k);
    }
    if let Some(k) = usable_exec(env_var) {
        return Ok(k);
    }
    let mut i: usize = 0;
    assert(tv.skip(0) =~= tv);
    while i < env_texts.len()
        invariant
            i <= env_texts.len(),
            tv == env_texts@.map_values(|t: Option<String>| match t {
                Some(s) => Some(s@),
                None => None,
            }),
            usable(
                match override_key {
                    Some(t) => Some(t@),
                    None => None,
                },
            ) is None,
            usable(
                match env_var {
                    Some(t) => Some(t@),
                    None => None,
                },
            ) is None,
            first_env_key(tv) == first_env_key(tv.skip(i as int)),
        decreases env_texts.len() - i,
    {
        assert(tv.skip(i as int).drop_first() =~= tv.skip(i as int + 1));
        assert(tv.skip(i as int)[0] == tv[i as int]);
        assert(tv[i as int] == match env_texts@[i as int] {
            Some(s) => Some(s@),
            None => None::<Seq<char>>,
        });
        match &env_texts[i] {
            Some(t) => {
                if let Some(k) = key_in_env_text(t.as_str()) {
                    return Ok(k);
                }
            },
            None => {},
        }
        i += 1;
    }
    assert(tv.skip(i as int).len() == 0);
    let m = "no LASTFM_API_KEY — set the env var, or add `LASTFM_API_KEY=...` to a .env file in the current dir, the library root, or ~/.sonagram/.env";
    proof {
        reveal_strlit("no LASTFM_API_KEY — set the env var, or add `LASTFM_API_KEY=...` to a .env file in the current dir, the library root, or ~/.sonagram/.env");
        assert(m@ =~= missing_key_detail());
    }
    Err(SonagramError::Enrich(string_of(&chars_of(m))))
}

/// Where a key is configured, for display: the variable, a current-dir
/// `.env`, or the home `.env` — never the key itself.
pub open spec fn api_key_source_of(env_var: Option<Seq<char>>, cwd_env: Option<Seq<char>>, home_env: Option<Seq<char>>) -> int {
    if usable(env_var) is Some {
        1
    } else if cwd_env is Some && key_in_env_text_of(cwd_env->Some_0) is Some {
        2
    } else if home_env is Some && key_in_env_text_of(home_env->Some_0) is Some {
        3
    } else {
        0
    }
}

/// The label of where the key is configured: `"env: LASTFM_API_KEY"`,
/// `".env (current dir)"` or `"~/.sonagram/.env"`; `None` when nowhere.
pub fn api_key_source(env_var: Option<&str>, cwd_env: Option<&str>, home_env: Option<&str>) -> (r: Option<&'static str>)
    ensures
        ({
            let which = api_key_source_of(
                match env_var {
                    Some(t) => Some(t@),
                    None => None,
                },
                match cwd_env {
                    Some(t) => Some(t@),
                    None => None,
                },
                match home_env {
                    Some(t) => Some(t@),
                    None => None,
                },
            );
            &&& which == 0 <==> r is None
            &&& which == 1 ==> r->Some_0@ == seq!['e', 'n', 'v', ':', ' ', 'L', 'A', 'S', 'T', 'F', 'M', '_', 'A', 'P', 'I', '_', 'K', 'E', 'Y']
            &&& which == 2 ==> r->Some_0@ == seq!['.', 'e', 'n', 'v', ' ', '(', 'c', 'u', 'r', 'r', 'e', 'n', 't', ' ', 'd', 'i', 'r', ')']
            &&& which == 3 ==> r->Some_0@ == seq!['~', '/', '.', 's', 'o', 'n', 'a', 'g', 'r', 'a', 'm', '/', '.', 'e', 'n', 'v']
        }),
{
    if usable_exec(env_var).is_some() {
        let s = "env: LASTFM_API_KEY";
        proof {
            reveal_strlit("env: LASTFM_API_KEY");
        }
        return Some(s);
    }
    if let Some(t) = cwd_env {
        if key_in_env_text(t).is_some() {
            let s = ".env (current dir)";
            proof {
                reveal_strlit(".env (current dir)");
            }
            return Some(s);
        }
    }
    if let Some(t) = home_env {
        if key_in_env_text(t).is_some() {
            let s = "~/.sonagram/.env";
            proof {
                reveal_strlit("~/.sonagram/.env");
            }
            return Some(s);
        }
    }
    None
}

// ───────────────────────────── distinct entity sets ─────────────────────────────

/// The artist work item of a record: its artist id, queried by that id.
pub open spec fn artist_item(r: RecordMeta) -> (Seq<char>, Seq<char>, Seq<char>) {
    (artist_id_of(tag_artist(r)), artist_id_of(tag_artist(r)), Seq::empty())
}

/// The track work items of records: `(content_hash, artist, title)` for
/// every record with a non-blank title, in order.
pub open spec fn track_items(rs: Seq<RecordMeta>) -> Seq<(Seq<char>, Seq<char>, Seq<char>)>
    decreases rs.len(),
{
    if rs.len() == 0 {
        Seq::empty()
    } else {
        let prev = track_items(rs.drop_last());
        let r = rs.last();
        match present_tag(tag_title(r)) {
            Some(t) => prev.push((r.source.content_hash@, artist_id_of(tag_artist(r)), t)),
            None => prev,
        }
    }
}

/// The album work items of records: `(album_id, artist, album)` for every
/// record with a non-blank album, in order.
pub open spec fn album_items(rs: Seq<RecordMeta>) -> Seq<(Seq<char>, Seq<char>, Seq<char>)>
    decreases rs.len(),
{
    if rs.len() == 0 {
        Seq::empty()
    } else {
        let prev = album_items(rs.drop_last());
        let r = rs.last();
        let art = artist_id_of(tag_artist(r));
        match (album_id_of(art, tag_album(r)), present_tag(tag_album(r))) {
            (Some(aid), Some(name)) => prev.push((aid, art, name)),
            _ => prev,
        }
    }
}

/// The distinct artists, tracks and albums a library's records imply, each
/// keyed and sorted by id with the query of its first record.
pub struct EntitySets {
    /// `(artist_id, artist name to query, "")`.
    pub artists: Vec<(String, String, String)>,
    /// `(content_hash, artist, title)`.
    pub tracks: Vec<(String, String, String)>,
    /// `(album_id, artist, album)`.
    pub albums: Vec<(String, String, String)>,
}

/// Derive the distinct work sets from records.
pub fn distinct_entities(records: &Vec<RecordMeta>) -> (r: EntitySets)
    ensures
        is_keyed_first(triples_view(r.artists@), records@.map_values(|m: RecordMeta| artist_item(m))),
        is_keyed_first(triples_view(r.tracks@), track_items(records@)),
        is_keyed_first(triples_view(r.albums@), album_items(records@)),
{
    let ghost rs = records@;
    let mut artists: Vec<(String, String, String)> = Vec::new();
    let mut tracks: Vec<(String, String, String)> = Vec::new();
    let mut albums: Vec<(String, String, String)> = Vec::new();
    let mut i: usize = 0;
    while i < records.len()
        invariant
            i <= records.len(),
            rs == records@,
            triples_view(artists@) == rs.take(i as int).map_values(|m: RecordMeta| artist_item(m)),
            triples_view(tracks@) == track_items(rs.take(i as int)),
            triples_view(albums@) == album_items(rs.take(i as int)),
        decreases records.len() - i,
    {
        let r = &records[i];
        let ghost pre = rs.take(i as int);
        assert(rs.take(i as int + 1).drop_last() =~= pre);
        assert(rs.take(i as int + 1).last() == *r);
        let art = artist_id(r.artist());
        assert(art@ == artist_id_of(tag_artist(*r)));
        let ghost a0 = triples_view(artists@);
        let e1 = art.clone();
        let e2 = art.clone();
        let empty: Vec<char> = Vec::new();
        let e3 = string_of(&empty);
        assert(e3@ =~= Seq::<char>::empty());
        assert(triple_view((e1, e2, e3)) == artist_item(*r));
        artists.push((e1, e2, e3));
        assert(triples_view(artists@) =~= a0.push(artist_item(*r)));
        assert(triples_view(artists@) =~= rs.take(i as int + 1).map_values(|m: RecordMeta| artist_item(m)));
        let ghost t0 = triples_view(tracks@);
        match present_tag_exec(r.title()) {
            Some(t) => {
                tracks.push((r.source.content_hash.clone(), art.clone(), string_of(&t)));
                assert(triples_view(tracks@) =~= t0.push(
                    (r.source.content_hash@, art@, t@),
                ));
            },
            None => {},
        }
        let ghost b0 = triples_view(albums@);
        match (album_id(art.as_str(), r.album()), album_name(r.album())) {
            (Some(aid), Some(name)) => {
                albums.push((aid, art.clone(), name));
                assert(triples_view(albums@) =~= b0.push(
                    (albums@[albums.len() - 1].0@, art@, albums@[albums.len() - 1].2@),
                ));
            },
            _ => {},
        }
        i += 1;
    }
    assert(rs.take(records.len() as int) =~= rs);
    EntitySets { artists: keyed_first(&artists), tracks: keyed_first(&tracks), albums: keyed_first(&albums) }
}

// ───────────────────────────── the fetch driver ─────────────────────────────

/// Last.fm API base URL.
pub const API_BASE: &'static str = "https://ws.audioscrobbler.com/2.0/";

/// Minimum spacing between requests, in milliseconds.
pub const RATE_LIMIT_MS: u64 = 200;

/// Per-request timeout, in milliseconds.
pub const HTTP_TIMEOUT_MS: u64 = 10_000;

/// Minimum count for an artist top-tag to be kept.
pub const MIN_TAG_COUNT: i64 = 10;

/// Album wiki summaries are cut to this many characters.
pub const WIKI_MAX_CHARS: usize = 500;

/// The cache is saved after this many fetches.
pub const SAVE_EVERY: usize = 25;

/// Version of the enrichment cache format.
pub const ENRICH_VERSION: u32 = 1;

/// The positions of the entities still to fetch: those whose cache record is
/// absent or not marked fetched, in order.
pub open spec fn todo_of(cached_fetched: Seq<bool>) -> Seq<int>
    decreases cached_fetched.len(),
{
    if cached_fetched.len() == 0 {
        Seq::empty()
    } else {
        let prev = todo_of(cached_fetched.drop_last());
        if cached_fetched.last() {
            prev
        } else {
            prev.push(cached_fetched.len() - 1)
        }
    }
}

proof fn lemma_todo_len(c: Seq<bool>)
    ensures
        todo_of(c).len() <= c.len(),
    decreases c.len(),
{
    if c.len() > 0 {
        lemma_todo_len(c.drop_last());
    }
}

/// Which entities a pass fetches, and how many it skips as already cached:
/// `cached_fetched[i]` says whether entity `i` has a fetched cache record.
pub fn fetch_plan(cached_fetched: &Vec<bool>) -> (r: (Vec<usize>, usize))
    ensures
        r.0@.map_values(|i: usize| i as int) == todo_of(cached_fetched@),
        r.1 == cached_fetched.len() - todo_of(cached_fetched@).len(),
{
    let mut todo: Vec<usize> = Vec::new();
    let mut i: usize = 0;
    while i < cached_fetched.len()
        invariant
            i <= cached_fetched.len(),
            todo@.map_values(|k: usize| k as int) == todo_of(cached_fetched@.take(i as int)),
            todo.len() <= i,
        decreases cached_fetched.len() - i,
    {
        assert(cached_fetched@.take(i as int + 1).drop_last() =~= cached_fetched@.take(i as int));
        let ghost t0 = todo@;
        if !cached_fetched[i] {
            todo.push(i);
            assert(todo@.map_values(|k: usize| k as int) =~= t0.map_values(|k: usize| k as int).push(
                i as int,
            ));
        }
        i += 1;
    }
    assert(cached_fetched@.take(cached_fetched.len() as int) =~= cached_fetched@);
    let skipped = cached_fetched.len() - todo.len();
    (todo, skipped)
}

/// Whether the cache is due a save after `since_save` fetches.
pub fn save_due(since_save: usize) -> (r: bool)
    ensures
        r == (since_save >= SAVE_EVERY),
{
    since_save >= SAVE_EVERY
}

/// Count one fetched entity into a pass's tallies: it is always fetched,
/// and failed when its record says so.
pub fn count_fetch(fetched: &mut usize, failed: &mut usize, record_failed: bool)
    requires
        *old(fetched) < usize::MAX,
        *old(failed) < usize::MAX,
    ensures
        *final(fetched) == *old(fetched) + 1,
        *final(failed) == *old(failed) + if record_failed { 1int } else { 0int },
{
    *fetched = *fetched + 1;
    if record_failed {
        *failed = *failed + 1;
    }
}

/// Options of an enrichment run.
pub struct EnrichOptions {
    /// Explicit API key, overriding variable and `.env` resolution.
    pub api_key: Option<String>,
}

/// The on-disk enrich progress snapshot.
#[derive(Debug, Clone, PartialEq, Eq)]
pub struct EnrichProgressSnapshot {
    pub pid: u32,
    /// `"artist"`, `"track"`, `"album"` or `"done"`.
    pub kind: String,
    pub done: usize,
    pub total: usize,
    pub artists_fetched: usize,
    pub artists_failed: usize,
    pub artists_skipped: usize,
    pub tracks_fetched: usize,
    pub tracks_failed: usize,
    pub tracks_skipped: usize,
    pub albums_fetched: usize,
    pub albums_failed: usize,
    pub albums_skipped: usize,
    pub started_unix: i64,
    pub updated_unix: i64,
}

/// The snapshot of a run's progress within one kind.
pub fn progress_snapshot(
    pid: u32,
    kind: &str,
    done: usize,
    total: usize,
    report: &EnrichReport,
    started_unix: i64,
    updated_unix: i64,
) -> (r: EnrichProgressSnapshot)
    ensures
        r.pid == pid && r.kind@ == kind@ && r.done == done && r.total == total,
        r.artists_fetched == report.artists_fetched && r.artists_failed == report.artists_failed
            && r.artists_skipped == report.artists_skipped,
        r.tracks_fetched == report.tracks_fetched && r.tracks_failed == report.tracks_failed
            && r.tracks_skipped == report.tracks_skipped,
        r.albums_fetched == report.albums_fetched && r.albums_failed == report.albums_failed
            && r.albums_skipped == report.albums_skipped,
        r.started_unix == started_unix && r.updated_unix == updated_unix,
{
    EnrichProgressSnapshot {
        pid,
        kind: string_of(&chars_of(kind)),
        done,
        total,
        artists_fetched: report.artists_fetched,
        artists_failed: report.artists_failed,
        artists_skipped: report.artists_skipped,
        tracks_fetched: report.tracks_fetched,
        tracks_failed: report.tracks_failed,
        tracks_skipped: report.tracks_skipped,
        albums_fetched: report.albums_fetched,
        albums_failed: report.albums_failed,
        albums_skipped: report.albums_skipped,
        started_unix,
        updated_unix,
    }
}

/// One artist's cached Last.fm data.
#[derive(Debug, Clone, PartialEq)]
pub struct ArtistEnrich {
    pub queried_name: String,
    pub correction: Option<String>,
    pub listeners: Option<i64>,
    pub playcount: Option<i64>,
    pub mbid: Option<String>,
    pub url: Option<String>,
    pub tags: Vec<String>,
    pub similar: Vec<String>,
    pub fetched: bool,
    pub failed: bool,
    pub reason: Option<String>,
}

impl Default for ArtistEnrich {
    fn default() -> (r: Self)
        ensures
            r.queried_name@.len() == 0 && r.correction is None && r.listeners is None
                && r.playcount is None && r.mbid is None && r.url is None && r.tags@.len() == 0
                && r.similar@.len() == 0 && !r.fetched && !r.failed && r.reason is None,
    {
        let empty: Vec<char> = Vec::new();
        ArtistEnrich {
            queried_name: string_of(&empty),
            correction: None,
            listeners: None,
            playcount: None,
            mbid: None,
            url: None,
            tags: Vec::new(),
            similar: Vec::new(),
            fetched: false,
            failed: false,
            reason: None,
        }
    }
}

/// One album's cached Last.fm data.
#[derive(Debug, Clone, PartialEq)]
pub struct AlbumEnrich {
    pub mbid: Option<String>,
    pub url: Option<String>,
    pub listeners: Option<i64>,
    pub playcount: Option<i64>,
    pub tags: Vec<String>,
    pub wiki_summary: Option<String>,
    pub fetched: bool,
    pub failed: bool,
    pub reason: Option<String>,
}

impl Default for AlbumEnrich {
    fn default() -> (r: Self)
        ensures
            r.mbid is None && r.url is None && r.listeners is None && r.playcount is None
                && r.tags@.len() == 0 && r.wiki_summary is None && !r.fetched && !r.failed
                && r.reason is None,
    {
        AlbumEnrich {
            mbid: None,
            url: None,
            listeners: None,
            playcount: None,
            tags: Vec::new(),
            wiki_summary: None,
            fetched: false,
            failed: false,
            reason: None,
        }
    }
}

/// A versioned cache file: entries keyed by id.
pub struct EnrichFile<T> {
    pub enrich_version: u32,
    pub entries: Vec<(String, T)>,
}

} // verus!
