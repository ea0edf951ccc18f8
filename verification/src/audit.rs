//! The repetition audit of a playlist: which artists, albums and songs it
//! repeats past their caps, which artists come back too soon, and which
//! track ids repeat or are missing.
//!
//! Positions are 1-based, as in the issues a caller reports.

use vstd::prelude::*;

use crate::curation::{AuditIssue, AuditSeverity, DiversityPolicy};
use crate::derive::{count_occurrences, count_of};
use crate::order::{is_keyed_first, keyed_first, lex_lt, triples_view};
use crate::playlist::contains_chars;
use crate::text::{chars_of, concat, decimal, decimal_chars, string_of};

verus! {

/// `d` holds every key of `ks` once, ascending — skipping empty keys when
/// `skip_empty`.
pub open spec fn is_distinct_keys(d: Seq<Seq<char>>, ks: Seq<Seq<char>>, skip_empty: bool) -> bool {
    &&& forall|i: int, j: int| 0 <= i < j < d.len() ==> lex_lt(#[trigger] d[i], #[trigger] d[j])
    &&& forall|i: int| 0 <= i < d.len() ==> ks.contains(#[trigger] d[i]) && (skip_empty ==> d[i].len() > 0)
    &&& forall|t: int| 0 <= t < ks.len() && (!skip_empty || ks[t].len() > 0) ==> d.contains(#[trigger] ks[t])
}

/// The keys of `ks` (the non-empty ones when `skip_empty`) as triples.
pub open spec fn key_items(ks: Seq<Seq<char>>, skip_empty: bool) -> Seq<(Seq<char>, Seq<char>, Seq<char>)>
    decreases ks.len(),
{
    if ks.len() == 0 {
        Seq::empty()
    } else {
        let prev = key_items(ks.drop_last(), skip_empty);
        if skip_empty && ks.last().len() == 0 {
            prev
        } else {
            prev.push((ks.last(), Seq::empty(), Seq::empty()))
        }
    }
}

proof fn lemma_key_items(ks: Seq<Seq<char>>, skip_empty: bool)
    ensures
        forall|i: int| 0 <= i < key_items(ks, skip_empty).len() ==> ks.contains(#[trigger] key_items(ks, skip_empty)[i].0)
            && (skip_empty ==> key_items(ks, skip_empty)[i].0.len() > 0),
        forall|t: int| 0 <= t < ks.len() && (!skip_empty || ks[t].len() > 0) ==> exists|i: int|
            0 <= i < key_items(ks, skip_empty).len() && #[trigger] key_items(ks, skip_empty)[i].0 == #[trigger] ks[t],
    decreases ks.len(),
{
    if ks.len() > 0 {
        let p = ks.drop_last();
        lemma_key_items(p, skip_empty);
        let prev = key_items(p, skip_empty);
        let cur = key_items(ks, skip_empty);
        assert forall|i: int| 0 <= i < cur.len() implies ks.contains(#[trigger] cur[i].0) && (skip_empty
            ==> cur[i].0.len() > 0) by {
            if i < prev.len() {
                assert(cur[i] == prev[i]);
                let t = choose|t: int| 0 <= t < p.len() && p[t] == prev[i].0;
                assert(ks[t] == p[t]);
            } else {
                assert(ks[ks.len() - 1] == ks.last());
            }
        }
        assert forall|t: int| 0 <= t < ks.len() && (!skip_empty || ks[t].len() > 0) implies exists|i: int|
            0 <= i < cur.len() && #[trigger] cur[i].0 == #[trigger] ks[t] by {
            if t < ks.len() - 1 {
                assert(ks[t] == p[t]);
                let i = choose|i: int| 0 <= i < prev.len() && #[trigger] prev[i].0 == #[trigger] p[t];
                assert(cur[i] == prev[i]);
            } else {
                assert(cur[prev.len() as int].0 == ks[t]);
            }
        }
    }
}

/// The distinct keys of `keys`, ascending, optionally without the empty
/// key.
pub fn distinct_keys(keys: &Vec<String>, skip_empty: bool) -> (r: Vec<String>)
    ensures
        is_distinct_keys(r.deep_view(), keys.deep_view(), skip_empty),
{
    let ghost ks = keys.deep_view();
    let mut items: Vec<(String, String, String)> = Vec::new();
    let mut i: usize = 0;
    while i < keys.len()
        invariant
            i <= keys.len(),
            ks == keys.deep_view(),
            triples_view(items@) == key_items(ks.take(i as int), skip_empty),
        decreases keys.len() - i,
    {
        assert(ks.take(i as int + 1).drop_last() =~= ks.take(i as int));
        let k = chars_of(keys[i].as_str());
        if !(skip_empty && k.len() == 0) {
            let ghost i0 = triples_view(items@);
            let e1: Vec<char> = Vec::new();
            let e2: Vec<char> = Vec::new();
            items.push((keys[i].clone(), string_of(&e1), string_of(&e2)));
            assert(triples_view(items@) =~= i0.push((ks[i as int], Seq::<char>::empty(), Seq::<char>::empty())));
        }
        i += 1;
    }
    assert(ks.take(keys.len() as int) =~= ks);
    let d = keyed_first(&items);
    let ghost dv = triples_view(d@);
    let ghost iv = triples_view(items@);
    proof {
        lemma_key_items(ks, skip_empty);
    }
    let mut out: Vec<String> = Vec::new();
    let mut j: usize = 0;
    while j < d.len()
        invariant
            j <= d.len(),
            dv == triples_view(d@),
            out.deep_view() == dv.take(j as int).map_values(|t: (Seq<char>, Seq<char>, Seq<char>)| t.0),
        decreases d.len() - j,
    {
        let ghost o0 = out.deep_view();
        let c = d[j].0.clone();
        let ghost cv = c@;
        out.push(c);
        assert(out.deep_view() =~= o0.push(cv));
        assert(dv.take(j as int + 1).map_values(|t: (Seq<char>, Seq<char>, Seq<char>)| t.0) =~= dv.take(
            j as int,
        ).map_values(|t: (Seq<char>, Seq<char>, Seq<char>)| t.0).push(dv[j as int].0));
        j += 1;
    }
    assert(dv.take(d.len() as int) =~= dv);
    proof {
        let ov = out.deep_view();
        assert forall|a: int| 0 <= a < ov.len() implies ks.contains(#[trigger] ov[a]) && (skip_empty ==> ov[a].len() > 0) by {
            assert(ov[a] == dv[a].0);
            crate::order::lemma_first_payload_witness_pub(iv, dv[a].0);
            let t = choose|t: int| 0 <= t < iv.len() && iv[t].0 == dv[a].0;
        }
        assert forall|t: int| 0 <= t < ks.len() && (!skip_empty || ks[t].len() > 0) implies ov.contains(#[trigger] ks[t]) by {
            let i = choose|i: int| 0 <= i < iv.len() && #[trigger] iv[i].0 == #[trigger] ks[t];
            let a = choose|a: int| 0 <= a < dv.len() && (#[trigger] dv[a]).0 == (#[trigger] iv[i]).0;
            assert(ov[a] == dv[a].0);
        }
    }
    out
}

/// An issue as plain values: severity, code, message, positions.
pub open spec fn issue_view(i: AuditIssue) -> (AuditSeverity, Seq<char>, Seq<char>, Seq<usize>) {
    (i.severity, i.code@, i.message@, i.positions@)
}

/// Issues as plain values.
pub open spec fn issues_view(v: Seq<AuditIssue>) -> Seq<(AuditSeverity, Seq<char>, Seq<char>, Seq<usize>)> {
    v.map_values(|i: AuditIssue| issue_view(i))
}

/// `"<noun> <key> occurs <count> times; maximum is <max>"`.
pub open spec fn cap_message(noun: Seq<char>, key: Seq<char>, count: nat, max: nat) -> Seq<char> {
    noun + seq![' '] + key + seq![' ', 'o', 'c', 'c', 'u', 'r', 's', ' '] + decimal(count) + seq![
        ' ', 't', 'i', 'm', 'e', 's', ';', ' ', 'm', 'a', 'x', 'i', 'm', 'u', 'm', ' ', 'i', 's', ' '
    ] + decimal(max)
}

/// `"Song <key> occurs <count> times"`.
pub open spec fn repeat_message(key: Seq<char>, count: nat) -> Seq<char> {
    seq!['S', 'o', 'n', 'g', ' '] + key + seq![' ', 'o', 'c', 'c', 'u', 'r', 's', ' '] + decimal(count)
        + seq![' ', 't', 'i', 'm', 'e', 's']
}

/// The cap issues over the distinct keys `d` (ascending): one error for each
/// key used more than `max` times.
pub open spec fn cap_issues_of(
    d: Seq<Seq<char>>,
    ks: Seq<Seq<char>>,
    max: nat,
    code: Seq<char>,
    noun: Option<Seq<char>>,
) -> Seq<(AuditSeverity, Seq<char>, Seq<char>, Seq<usize>)>
    decreases d.len(),
{
    if d.len() == 0 {
        Seq::empty()
    } else {
        let prev = cap_issues_of(d.drop_last(), ks, max, code, noun);
        let k = d.last();
        let c = count_of(ks, k);
        if c > max {
            let msg = match noun {
                Some(n) => cap_message(n, k, c, max),
                None => repeat_message(k, c),
            };
            prev.push((AuditSeverity::Error, code, msg, Seq::empty()))
        } else {
            prev
        }
    }
}

/// Build `"<noun> <key> occurs <count> times; maximum is <max>"`, or the
/// song form without a noun.
fn count_message(noun: Option<&str>, key: &str, count: usize, max: usize) -> (r: String)
    ensures
        r@ == match noun {
            Some(n) => cap_message(n@, key@, count as nat, max as nat),
            None => repeat_message(key@, count as nat),
        },
{
    let occurs = chars_of(" occurs ");
    proof {
        reveal_strlit(" occurs ");
    }
    match noun {
        Some(n) => {
            let mut head = chars_of(n);
            head.push(' ');
            let a = concat(&concat(&concat(&head, &chars_of(key)), &occurs), &decimal_chars(count as u64));
            let mid = chars_of(" times; maximum is ");
            proof {
                reveal_strlit(" times; maximum is ");
            }
            let r = concat(&concat(&a, &mid), &decimal_chars(max as u64));
            assert(r@ =~= cap_message(n@, key@, count as nat, max as nat));
            string_of(&r)
        },
        None => {
            let song = chars_of("Song ");
            let times = chars_of(" times");
            proof {
                reveal_strlit("Song ");
                reveal_strlit(" times");
            }
            let r = concat(
                &concat(&concat(&concat(&song, &chars_of(key)), &occurs), &decimal_chars(count as u64)),
                &times,
            );
            assert(r@ =~= repeat_message(key@, count as nat));
            string_of(&r)
        },
    }
}

/// One error per distinct key of `d` used more than `max` times among
/// `keys`, in the order of `d`.
fn cap_issues(d: &Vec<String>, keys: &Vec<String>, max: usize, code: &str, noun: Option<&str>) -> (r: Vec<AuditIssue>)
    ensures
        issues_view(r@) == cap_issues_of(
            d.deep_view(),
            keys.deep_view(),
            max as nat,
            code@,
            match noun {
                Some(n) => Some(n@),
                None => None,
            },
        ),
{
    let ghost dv = d.deep_view();
    let ghost nv = match noun {
        Some(n) => Some(n@),
        None => None::<Seq<char>>,
    };
    let mut out: Vec<AuditIssue> = Vec::new();
    let mut i: usize = 0;
    while i < d.len()
        invariant
            i <= d.len(),
            dv == d.deep_view(),
            nv == match noun {
                Some(n) => Some(n@),
                None => None::<Seq<char>>,
            },
            issues_view(out@) == cap_issues_of(dv.take(i as int), keys.deep_view(), max as nat, code@, nv),
        decreases d.len() - i,
    {
        assert(dv.take(i as int + 1).drop_last() =~= dv.take(i as int));
        assert(dv.take(i as int + 1).last() == d@[i as int]@);
        let k = chars_of(d[i].as_str());
        let c = count_occurrences(keys, &k);
        if c > max {
            let msg = count_message(noun, d[i].as_str(), c, max);
            let iss = AuditIssue {
                severity: AuditSeverity::Error,
                code: string_of(&chars_of(code)),
                message: msg,
                positions: Vec::new(),
            };
            let ghost o0 = issues_view(out@);
            let ghost iv = issue_view(iss);
            out.push(iss);
            assert(issues_view(out@) =~= o0.push(iv));
        }
        i += 1;
    }
    assert(dv.take(d.len() as int) =~= dv);
    out
}

// ───────────────────────────── artist spacing ─────────────────────────────

/// The 1-based positions of key `k` among the first `n` keys.
pub open spec fn positions_of(ks: Seq<Seq<char>>, k: Seq<char>, n: int) -> Seq<int>
    decreases n,
{
    if n <= 0 {
        Seq::empty()
    } else {
        let p = positions_of(ks, k, n - 1);
        if ks[n - 1] == k {
            p.push(n)
        } else {
            p
        }
    }
}

/// Position `i` of `ps` is within `gap` of its neighbour before or after.
pub open spec fn too_close_at(ps: Seq<int>, gap: int, i: int) -> bool {
    (i > 0 && ps[i] - ps[i - 1] < gap) || (i + 1 < ps.len() && ps[i + 1] - ps[i] < gap)
}

/// The positions among the first `n` of `ps` that are too close to a
/// neighbour, in order.
pub open spec fn too_close_upto(ps: Seq<int>, gap: int, n: int) -> Seq<int>
    decreases n,
{
    if n <= 0 {
        Seq::empty()
    } else {
        let p = too_close_upto(ps, gap, n - 1);
        if too_close_at(ps, gap, n - 1) {
            p.push(ps[n - 1])
        } else {
            p
        }
    }
}

/// `"artist <key> repeats within the minimum gap of <gap> positions"`.
pub open spec fn gap_message(key: Seq<char>, gap: nat) -> Seq<char> {
    seq!['a', 'r', 't', 'i', 's', 't', ' '] + key + seq![
        ' ', 'r', 'e', 'p', 'e', 'a', 't', 's', ' ', 'w', 'i', 't', 'h', 'i', 'n', ' ', 't', 'h',
        'e', ' ', 'm', 'i', 'n', 'i', 'm', 'u', 'm', ' ', 'g', 'a', 'p', ' ', 'o', 'f', ' '
    ] + decimal(gap) + seq![' ', 'p', 'o', 's', 'i', 't', 'i', 'o', 'n', 's']
}

/// The gap issues over the distinct artists `d`: one error per artist with
/// positions too close together, carrying those positions.
pub open spec fn gap_issues_of(d: Seq<Seq<char>>, ks: Seq<Seq<char>>, gap: nat) -> Seq<(AuditSeverity, Seq<char>, Seq<char>, Seq<usize>)>
    decreases d.len(),
{
    if d.len() == 0 {
        Seq::empty()
    } else {
        let prev = gap_issues_of(d.drop_last(), ks, gap);
        let ps = positions_of(ks, d.last(), ks.len() as int);
        let close = too_close_upto(ps, gap as int, ps.len() as int);
        if close.len() > 0 {
            prev.push(
                (
                    AuditSeverity::Error,
                    seq!['a', 'r', 't', 'i', 's', 't', '_', 'g', 'a', 'p'],
                    gap_message(d.last(), gap),
                    close.map_values(|p: int| p as usize),
                ),
            )
        } else {
            prev
        }
    }
}

proof fn lemma_positions(ks: Seq<Seq<char>>, k: Seq<char>, n: int)
    requires
        0 <= n <= ks.len(),
    ensures
        forall|t: int| 0 <= t < positions_of(ks, k, n).len() ==> 1 <= #[trigger] positions_of(ks, k, n)[t] <= n,
        forall|t: int, u: int| 0 <= t < u < positions_of(ks, k, n).len() ==> #[trigger] positions_of(ks, k, n)[t]
            < #[trigger] positions_of(ks, k, n)[u],
        positions_of(ks, k, n).len() <= n,
    decreases n,
{
    if n > 0 {
        lemma_positions(ks, k, n - 1);
    }
}

/// The 1-based positions of `key` among `keys`.
fn positions(keys: &Vec<String>, key: &Vec<char>) -> (r: Vec<usize>)
    ensures
        r@.map_values(|p: usize| p as int) == positions_of(keys.deep_view(), key@, keys.len() as int),
{
    let ghost ks = keys.deep_view();
    let mut out: Vec<usize> = Vec::new();
    let mut i: usize = 0;
    while i < keys.len()
        invariant
            i <= keys.len(),
            ks == keys.deep_view(),
            out@.map_values(|p: usize| p as int) == positions_of(ks, key@, i as int),
        decreases keys.len() - i,
    {
        let ghost o0 = out@.map_values(|p: usize| p as int);
        if crate::text::chars_eq(&chars_of(keys[i].as_str()), key) {
            out.push(i + 1);
            assert(out@.map_values(|p: usize| p as int) =~= o0.push(i as int + 1));
        }
        i += 1;
    }
    out
}

/// The positions of `ps` (ascending) within `gap` of a neighbour.
fn too_close(ps: &Vec<usize>, gap: usize) -> (r: Vec<usize>)
    requires
        forall|t: int, u: int| 0 <= t < u < ps.len() ==> #[trigger] ps[t] < #[trigger] ps[u],
    ensures
        r@.map_values(|p: usize| p as int) == too_close_upto(
            ps@.map_values(|p: usize| p as int),
            gap as int,
            ps.len() as int,
        ),
{
    let ghost pv = ps@.map_values(|p: usize| p as int);
    let mut out: Vec<usize> = Vec::new();
    let mut i: usize = 0;
    while i < ps.len()
        invariant
            i <= ps.len(),
            pv == ps@.map_values(|p: usize| p as int),
            forall|t: int, u: int| 0 <= t < u < ps.len() ==> #[trigger] ps[t] < #[trigger] ps[u],
            out@.map_values(|p: usize| p as int) == too_close_upto(pv, gap as int, i as int),
        decreases ps.len() - i,
    {
        let before = i > 0 && ps[i] - ps[i - 1] < gap;
        let after = i + 1 < ps.len() && ps[i + 1] - ps[i] < gap;
        proof {
            if i > 0 {
                assert(pv[i as int] == ps[i as int] && pv[i - 1] == ps[i - 1]);
            }
            if i + 1 < ps.len() {
                assert(pv[i as int] == ps[i as int] && pv[i + 1] == ps[i + 1]);
            }
        }
        let ghost o0 = out@.map_values(|p: usize| p as int);
        if before || after {
            out.push(ps[i]);
            assert(out@.map_values(|p: usize| p as int) =~= o0.push(pv[i as int]));
        }
        i += 1;
    }
    out
}

/// One error per distinct artist of `d` whose occurrences come back within
/// `gap` positions, with those positions.
fn gap_issues(d: &Vec<String>, keys: &Vec<String>, gap: usize) -> (r: Vec<AuditIssue>)
    ensures
        issues_view(r@) == gap_issues_of(d.deep_view(), keys.deep_view(), gap as nat),
{
    let ghost dv = d.deep_view();
    let ghost ks = keys.deep_view();
    let code = chars_of("artist_gap");
    proof {
        reveal_strlit("artist_gap");
        assert(code@ =~= seq!['a', 'r', 't', 'i', 's', 't', '_', 'g', 'a', 'p']);
    }
    let mut out: Vec<AuditIssue> = Vec::new();
    let mut i: usize = 0;
    while i < d.len()
        invariant
            i <= d.len(),
            dv == d.deep_view(),
            ks == keys.deep_view(),
            code@ == seq!['a', 'r', 't', 'i', 's', 't', '_', 'g', 'a', 'p'],
            issues_view(out@) == gap_issues_of(dv.take(i as int), ks, gap as nat),
        decreases d.len() - i,
    {
        assert(dv.take(i as int + 1).drop_last() =~= dv.take(i as int));
        assert(dv.take(i as int + 1).last() == d@[i as int]@);
        let k = chars_of(d[i].as_str());
        let ps = positions(keys, &k);
        proof {
            lemma_positions(ks, k@, ks.len() as int);
            let pv = ps@.map_values(|p: usize| p as int);
            assert forall|t: int, u: int| 0 <= t < u < ps.len() implies #[trigger] ps[t] < #[trigger] ps[u] by {
                assert(pv[t] == ps[t] && pv[u] == ps[u]);
            }
        }
        let close = too_close(&ps, gap);
        if close.len() > 0 {
            let head = chars_of("artist ");
            let mid = chars_of(" repeats within the minimum gap of ");
            let tail = chars_of(" positions");
            proof {
                reveal_strlit("artist ");
                reveal_strlit(" repeats within the minimum gap of ");
                reveal_strlit(" positions");
            }
            let msg = concat(&concat(&concat(&concat(&head, &k), &mid), &decimal_chars(gap as u64)), &tail);
            assert(msg@ =~= gap_message(k@, gap as nat));
            let ghost cv = close@;
            let iss = AuditIssue {
                severity: AuditSeverity::Error,
                code: string_of(&code),
                message: string_of(&msg),
                positions: close,
            };
            let ghost o0 = issues_view(out@);
            let ghost iv = issue_view(iss);
            out.push(iss);
            proof {
                let pv = ps@.map_values(|p: usize| p as int);
                let c = too_close_upto(pv, gap as int, pv.len() as int);
                assert(cv.map_values(|p: usize| p as int) == c);
                assert(c.map_values(|p: int| p as usize) =~= cv);
                assert(issues_view(out@) =~= o0.push(iv));
            }
        }
        i += 1;
    }
    assert(dv.take(d.len() as int) =~= dv);
    out
}

// ───────────────────────────── the diversity audit ─────────────────────────────

/// What a playlist repeats.
pub struct DiversityAudit {
    /// Distinct non-empty artist keys, ascending.
    pub artists: Vec<String>,
    /// Distinct non-empty album keys, ascending.
    pub albums: Vec<String>,
    /// Distinct song keys, ascending.
    pub songs: Vec<String>,
    /// Artists used more than the artist cap.
    pub artist_caps: Vec<AuditIssue>,
    /// Albums used more than the album cap.
    pub album_caps: Vec<AuditIssue>,
    /// Artists that come back within the minimum gap (none when the gap is 0).
    pub artist_gaps: Vec<AuditIssue>,
    /// Songs used more than the song cap.
    pub song_repeats: Vec<AuditIssue>,
}

/// The repetition audit of a playlist from the artist, album and song keys
/// of its tracks, in playlist order (an empty artist or album key groups
/// nothing; the song key of a track without one is its id).
pub fn diversity_audit(
    artist_keys: &Vec<String>,
    album_keys: &Vec<String>,
    song_keys: &Vec<String>,
    policy: DiversityPolicy,
) -> (r: DiversityAudit)
    ensures
        is_distinct_keys(r.artists.deep_view(), artist_keys.deep_view(), true),
        is_distinct_keys(r.albums.deep_view(), album_keys.deep_view(), true),
        is_distinct_keys(r.songs.deep_view(), song_keys.deep_view(), false),
        issues_view(r.artist_caps@) == cap_issues_of(
            r.artists.deep_view(),
            artist_keys.deep_view(),
            policy.max_per_artist as nat,
            seq!['a', 'r', 't', 'i', 's', 't', '_', 'c', 'a', 'p'],
            Some(seq!['a', 'r', 't', 'i', 's', 't']),
        ),
        issues_view(r.album_caps@) == cap_issues_of(
            r.albums.deep_view(),
            album_keys.deep_view(),
            policy.max_per_album as nat,
            seq!['a', 'l', 'b', 'u', 'm', '_', 'c', 'a', 'p'],
            Some(seq!['a', 'l', 'b', 'u', 'm']),
        ),
        policy.min_artist_gap == 0 ==> r.artist_gaps@.len() == 0,
        policy.min_artist_gap > 0 ==> issues_view(r.artist_gaps@) == gap_issues_of(
            r.artists.deep_view(),
            artist_keys.deep_view(),
            policy.min_artist_gap as nat,
        ),
        issues_view(r.song_repeats@) == cap_issues_of(
            r.songs.deep_view(),
            song_keys.deep_view(),
            policy.max_per_song as nat,
            seq!['s', 'o', 'n', 'g', '_', 'r', 'e', 'p', 'e', 't', 'i', 't', 'i', 'o', 'n'],
            None,
        ),
{
    let artists = distinct_keys(artist_keys, true);
    let albums = distinct_keys(album_keys, true);
    let songs = distinct_keys(song_keys, false);
    let artist_word = "artist";
    let album_word = "album";
    let artist_cap = "artist_cap";
    let album_cap = "album_cap";
    let song_repetition = "song_repetition";
    proof {
        reveal_strlit("artist");
        reveal_strlit("album");
        reveal_strlit("artist_cap");
        reveal_strlit("album_cap");
        reveal_strlit("song_repetition");
        assert(artist_word@ =~= seq!['a', 'r', 't', 'i', 's', 't']);
        assert(album_word@ =~= seq!['a', 'l', 'b', 'u', 'm']);
        assert(artist_cap@ =~= seq!['a', 'r', 't', 'i', 's', 't', '_', 'c', 'a', 'p']);
        assert(album_cap@ =~= seq!['a', 'l', 'b', 'u', 'm', '_', 'c', 'a', 'p']);
        assert(song_repetition@ =~= seq!['s', 'o', 'n', 'g', '_', 'r', 'e', 'p', 'e', 't', 'i', 't', 'i', 'o', 'n']);
    }
    let artist_caps = cap_issues(&artists, artist_keys, policy.max_per_artist, artist_cap, Some(artist_word));
    let album_caps = cap_issues(&albums, album_keys, policy.max_per_album, album_cap, Some(album_word));
    let artist_gaps = if policy.min_artist_gap > 0 {
        gap_issues(&artists, artist_keys, policy.min_artist_gap)
    } else {
        Vec::new()
    };
    let song_repeats = cap_issues(&songs, song_keys, policy.max_per_song, song_repetition, None);
    DiversityAudit { artists, albums, songs, artist_caps, album_caps, artist_gaps, song_repeats }
}

/// The 1-based positions whose id already occurred earlier.
pub open spec fn repeated_positions(ids: Seq<Seq<char>>, n: int) -> Seq<int>
    decreases n,
{
    if n <= 0 {
        Seq::empty()
    } else {
        let p = repeated_positions(ids, n - 1);
        if ids.take(n - 1).contains(ids[n - 1]) {
            p.push(n)
        } else {
            p
        }
    }
}

/// The positions (1-based) at which a track id repeats an earlier one.
pub fn duplicate_positions(track_ids: &Vec<String>) -> (r: Vec<usize>)
    ensures
        r@.map_values(|p: usize| p as int) == repeated_positions(track_ids.deep_view(), track_ids.len() as int),
{
    let ghost ids = track_ids.deep_view();
    let mut seen: Vec<String> = Vec::new();
    let mut out: Vec<usize> = Vec::new();
    let mut i: usize = 0;
    while i < track_ids.len()
        invariant
            i <= track_ids.len(),
            ids == track_ids.deep_view(),
            seen.deep_view() == ids.take(i as int),
            out@.map_values(|p: usize| p as int) == repeated_positions(ids, i as int),
        decreases track_ids.len() - i,
    {
        let c = chars_of(track_ids[i].as_str());
        let ghost o0 = out@.map_values(|p: usize| p as int);
        if contains_chars(&seen, &c) {
            out.push(i + 1);
            assert(out@.map_values(|p: usize| p as int) =~= o0.push(i as int + 1));
        }
        let ghost s0 = seen.deep_view();
        let t = track_ids[i].clone();
        let ghost tv = t@;
        seen.push(t);
        assert(seen.deep_view() =~= s0.push(tv));
        assert(ids.take(i as int + 1) =~= ids.take(i as int).push(ids[i as int]));
        i += 1;
    }
    out
}

/// Whether a list of issues passes: no error among them.
pub fn audit_passed(issues: &Vec<AuditIssue>) -> (r: bool)
    ensures
        r == forall|i: int| 0 <= i < issues.len() ==> (#[trigger] issues@[i]).severity != AuditSeverity::Error,
{
    let mut i: usize = 0;
    while i < issues.len()
        invariant
            i <= issues.len(),
            forall|t: int| 0 <= t < i ==> (#[trigger] issues@[t]).severity != AuditSeverity::Error,
        decreases issues.len() - i,
    {
        if issues[i].severity == AuditSeverity::Error {
            return false;
        }
        i += 1;
    }
    true
}

proof fn lemma_cap_issues_empty(
    d: Seq<Seq<char>>,
    ks: Seq<Seq<char>>,
    max: nat,
    code: Seq<char>,
    noun: Option<Seq<char>>,
)
    ensures
        (cap_issues_of(d, ks, max, code, noun).len() == 0) <==> (forall|i: int|
            0 <= i < d.len() ==> count_of(ks, #[trigger] d[i]) <= max),
    decreases d.len(),
{
    if d.len() > 0 {
        lemma_cap_issues_empty(d.drop_last(), ks, max, code, noun);
        if forall|i: int| 0 <= i < d.len() ==> count_of(ks, #[trigger] d[i]) <= max {
            assert forall|i: int| 0 <= i < d.drop_last().len() implies count_of(ks, #[trigger] d.drop_last()[i])
                <= max by {
                assert(d.drop_last()[i] == d[i]);
            }
            assert(count_of(ks, d[d.len() - 1]) <= max);
        } else {
            let w = choose|i: int| 0 <= i < d.len() && !(count_of(ks, #[trigger] d[i]) <= max);
            if w < d.len() - 1 {
                assert(d.drop_last()[w] == d[w]);
            }
        }
    }
}

/// A playlist raises no cap issue exactly when every key (every non-empty
/// one, for artists and albums) is used at most `max` times.
pub proof fn law_no_cap_issue_iff_within_cap(
    d: Seq<Seq<char>>,
    ks: Seq<Seq<char>>,
    skip_empty: bool,
    max: nat,
    code: Seq<char>,
    noun: Option<Seq<char>>,
)
    requires
        is_distinct_keys(d, ks, skip_empty),
    ensures
        (cap_issues_of(d, ks, max, code, noun).len() == 0) <==> (forall|t: int|
            0 <= t < ks.len() && (!skip_empty || ks[t].len() > 0) ==> count_of(ks, #[trigger] ks[t])
                <= max),
{
    lemma_cap_issues_empty(d, ks, max, code, noun);
    if cap_issues_of(d, ks, max, code, noun).len() == 0 {
        assert forall|t: int| 0 <= t < ks.len() && (!skip_empty || ks[t].len() > 0) implies count_of(
            ks,
            #[trigger] ks[t],
        ) <= max by {
            assert(d.contains(ks[t]));
            let i = choose|i: int| 0 <= i < d.len() && d[i] == ks[t];
        }
    } else {
        let w = choose|i: int| 0 <= i < d.len() && !(count_of(ks, #[trigger] d[i]) <= max);
        assert(ks.contains(d[w]));
        let t = choose|t: int| 0 <= t < ks.len() && ks[t] == d[w];
        assert(!skip_empty || ks[t].len() > 0);
    }
}


// ───────────────────────────── the gap law ─────────────────────────────

/// Positions `p < q` (0-based) carry the same key, and no position between
/// them does: two consecutive occurrences of that key.
pub open spec fn consecutive_repeat(ks: Seq<Seq<char>>, p: int, q: int) -> bool {
    &&& 0 <= p < q < ks.len()
    &&& ks[q] == ks[p]
    &&& forall|m: int| p < m < q ==> #[trigger] ks[m] != ks[p]
}

/// 1-based position `x` ends two consecutive occurrences of `k` that lie
/// fewer than `gap` positions apart.
pub open spec fn in_close_pair(ks: Seq<Seq<char>>, k: Seq<char>, gap: nat, x: int) -> bool {
    exists|p: int, q: int|
        #[trigger] consecutive_repeat(ks, p, q) && q - p < gap && ks[p] == k && (x == p + 1 || x == q + 1)
}

/// The positions of `k` that the gap audit reports.
#[verifier::opaque]
spec fn close_positions(ks: Seq<Seq<char>>, k: Seq<char>, gap: nat) -> Seq<int> {
    too_close_upto(
        positions_of(ks, k, ks.len() as int),
        gap as int,
        positions_of(ks, k, ks.len() as int).len() as int,
    )
}

/// `e` is the gap error of artist `k`.
#[verifier::opaque]
spec fn is_gap_entry(e: (AuditSeverity, Seq<char>, Seq<char>, Seq<usize>), ks: Seq<Seq<char>>, k: Seq<char>, gap: nat) -> bool {
    &&& e.0 == AuditSeverity::Error
    &&& e.1 == seq!['a', 'r', 't', 'i', 's', 't', '_', 'g', 'a', 'p']
    &&& e.2 == gap_message(k, gap)
    &&& e.3.len() == close_positions(ks, k, gap).len()
    &&& forall|j: int| 0 <= j < e.3.len() ==> #[trigger] e.3[j] == close_positions(ks, k, gap)[j] as usize
}

proof fn lemma_positions_complete(ks: Seq<Seq<char>>, k: Seq<char>, n: int)
    requires
        0 <= n <= ks.len(),
    ensures
        forall|t: int| 0 <= t < positions_of(ks, k, n).len() ==> ks[#[trigger] positions_of(ks, k, n)[t] - 1] == k,
        forall|x: int|
            0 <= x < n && #[trigger] ks[x] == k ==> exists|t: int|
                0 <= t < positions_of(ks, k, n).len() && #[trigger] positions_of(ks, k, n)[t] == x + 1,
    decreases n,
{
    if n > 0 {
        lemma_positions_complete(ks, k, n - 1);
        let prev = positions_of(ks, k, n - 1);
        let cur = positions_of(ks, k, n);
        if ks[n - 1] == k {
            assert(cur == prev.push(n));
            assert forall|t: int| 0 <= t < cur.len() implies ks[#[trigger] cur[t] - 1] == k by {
                if t < prev.len() {
                    assert(cur[t] == prev[t]);
                }
            }
            assert forall|x: int| 0 <= x < n && #[trigger] ks[x] == k implies exists|t: int|
                0 <= t < cur.len() && #[trigger] cur[t] == x + 1 by {
                if x < n - 1 {
                    let t = choose|t: int| 0 <= t < prev.len() && #[trigger] prev[t] == x + 1;
                    assert(cur[t] == prev[t]);
                } else {
                    assert(cur[prev.len() as int] == n);
                }
            }
        } else {
            assert(cur == prev);
        }
    }
}

/// Neighbouring positions of a key are consecutive occurrences of it.
proof fn lemma_positions_adjacent(ks: Seq<Seq<char>>, k: Seq<char>, a: int)
    requires
        0 <= a,
        a + 1 < positions_of(ks, k, ks.len() as int).len(),
    ensures
        consecutive_repeat(
            ks,
            positions_of(ks, k, ks.len() as int)[a] - 1,
            positions_of(ks, k, ks.len() as int)[a + 1] - 1,
        ),
        ks[positions_of(ks, k, ks.len() as int)[a] - 1] == k,
{
    let n = ks.len() as int;
    let ps = positions_of(ks, k, n);
    lemma_positions(ks, k, n);
    lemma_positions_complete(ks, k, n);
    let p = ps[a] - 1;
    let q = ps[a + 1] - 1;
    assert(ks[p] == k);
    assert(ks[q] == k);
    assert(ps[a] < ps[a + 1]);
    assert forall|m: int| p < m < q implies #[trigger] ks[m] != ks[p] by {
        if ks[m] == k {
            let s = choose|s: int| 0 <= s < ps.len() && #[trigger] ps[s] == m + 1;
            if s < a {
                assert(ps[s] < ps[a]);
            } else if s > a + 1 {
                assert(ps[a + 1] < ps[s]);
            }
        }
    }
}

/// Consecutive occurrences sit at neighbouring indices of the positions.
proof fn lemma_pair_indices(ks: Seq<Seq<char>>, p: int, q: int) -> (a: int)
    requires
        consecutive_repeat(ks, p, q),
    ensures
        0 <= a,
        a + 1 < positions_of(ks, ks[p], ks.len() as int).len(),
        positions_of(ks, ks[p], ks.len() as int)[a] == p + 1,
        positions_of(ks, ks[p], ks.len() as int)[a + 1] == q + 1,
{
    let k = ks[p];
    let n = ks.len() as int;
    let ps = positions_of(ks, k, n);
    lemma_positions(ks, k, n);
    lemma_positions_complete(ks, k, n);
    assert(ks[p] == k && ks[q] == k);
    let a = choose|t: int| 0 <= t < ps.len() && #[trigger] ps[t] == p + 1;
    let b = choose|t: int| 0 <= t < ps.len() && #[trigger] ps[t] == q + 1;
    if b < a {
        assert(ps[b] < ps[a]);
    }
    if b > a + 1 {
        assert(ps[a] < ps[a + 1]);
        assert(ps[a + 1] < ps[b]);
        let m = ps[a + 1] - 1;
        assert(ks[m] == k);
        assert(ks[m] != ks[p]);
    }
    a
}

/// `x` is one of the first `n` positions of `ps` that is too close to a
/// neighbour.
spec fn close_source(ps: Seq<int>, gap: int, n: int, x: int) -> bool {
    exists|i: int| 0 <= i < n && #[trigger] too_close_at(ps, gap, i) && ps[i] == x
}

proof fn lemma_too_close_upto(ps: Seq<int>, gap: int, n: int)
    requires
        0 <= n <= ps.len(),
    ensures
        forall|i: int| 0 <= i < n && #[trigger] too_close_at(ps, gap, i) ==> too_close_upto(ps, gap, n).contains(ps[i]),
        forall|j: int|
            0 <= j < too_close_upto(ps, gap, n).len() ==> close_source(ps, gap, n, #[trigger] too_close_upto(ps, gap, n)[j]),
    decreases n,
{
    if n > 0 {
        lemma_too_close_upto(ps, gap, n - 1);
        let prev = too_close_upto(ps, gap, n - 1);
        let cur = too_close_upto(ps, gap, n);
        if too_close_at(ps, gap, n - 1) {
            assert(cur == prev.push(ps[n - 1]));
            assert forall|i: int| 0 <= i < n && #[trigger] too_close_at(ps, gap, i) implies cur.contains(ps[i]) by {
                if i < n - 1 {
                    let j = choose|j: int| 0 <= j < prev.len() && prev[j] == ps[i];
                    assert(cur[j] == prev[j]);
                } else {
                    assert(cur[prev.len() as int] == ps[n - 1]);
                }
            }
            assert forall|j: int| 0 <= j < cur.len() implies close_source(ps, gap, n, #[trigger] cur[j]) by {
                if j < prev.len() {
                    assert(cur[j] == prev[j]);
                    assert(close_source(ps, gap, n - 1, prev[j]));
                    let i = choose|i: int| 0 <= i < n - 1 && #[trigger] too_close_at(ps, gap, i) && ps[i] == prev[j];
                    assert(too_close_at(ps, gap, i) && ps[i] == cur[j]);
                } else {
                    assert(cur[j] == ps[n - 1]);
                    assert(too_close_at(ps, gap, n - 1));
                }
            }
        } else {
            assert(cur == prev);
            assert forall|j: int| 0 <= j < cur.len() implies close_source(ps, gap, n, #[trigger] cur[j]) by {
                assert(cur[j] == prev[j]);
                assert(close_source(ps, gap, n - 1, prev[j]));
                let i = choose|i: int| 0 <= i < n - 1 && #[trigger] too_close_at(ps, gap, i) && ps[i] == prev[j];
                assert(too_close_at(ps, gap, i) && ps[i] == cur[j]);
            }
        }
    }
}

/// Each reported position of `k` ends a close pair of `k`.
proof fn lemma_close_position_pair(ks: Seq<Seq<char>>, k: Seq<char>, gap: nat, j: int)
    requires
        0 <= j < close_positions(ks, k, gap).len(),
    ensures
        in_close_pair(ks, k, gap, close_positions(ks, k, gap)[j]),
        1 <= close_positions(ks, k, gap)[j] <= ks.len(),
{
    reveal(close_positions);
    let n = ks.len() as int;
    let ps = positions_of(ks, k, n);
    let close = close_positions(ks, k, gap);
    lemma_positions(ks, k, n);
    lemma_too_close_upto(ps, gap as int, ps.len() as int);
    assert(close[j] == too_close_upto(ps, gap as int, ps.len() as int)[j]);
    assert(close_source(ps, gap as int, ps.len() as int, close[j]));
    let a = choose|i: int| 0 <= i < ps.len() && #[trigger] too_close_at(ps, gap as int, i) && ps[i] == close[j];
    assert(1 <= ps[a] <= n);
    if a > 0 && ps[a] - ps[a - 1] < gap {
        lemma_positions_adjacent(ks, k, a - 1);
        let p = ps[a - 1] - 1;
        let q = ps[a] - 1;
        assert(consecutive_repeat(ks, p, q) && q - p < gap && ks[p] == k && (close[j] == p + 1 || close[j] == q + 1));
    } else {
        lemma_positions_adjacent(ks, k, a);
        let p = ps[a] - 1;
        let q = ps[a + 1] - 1;
        assert(consecutive_repeat(ks, p, q) && q - p < gap && ks[p] == k && (close[j] == p + 1 || close[j] == q + 1));
    }
}

/// One step of the gap issues: the artist last in `d` adds its error after
/// those of the others, when it has reported positions.
proof fn lemma_gap_issues_step(d: Seq<Seq<char>>, ks: Seq<Seq<char>>, gap: nat)
    requires
        d.len() > 0,
    ensures
        gap_issues_of(d, ks, gap).len() >= gap_issues_of(d.drop_last(), ks, gap).len(),
        forall|t: int|
            0 <= t < gap_issues_of(d.drop_last(), ks, gap).len() ==> #[trigger] gap_issues_of(d, ks, gap)[t]
                == gap_issues_of(d.drop_last(), ks, gap)[t],
        close_positions(ks, d.last(), gap).len() > 0 ==> gap_issues_of(d, ks, gap).len() == gap_issues_of(
            d.drop_last(),
            ks,
            gap,
        ).len() + 1 && is_gap_entry(
            gap_issues_of(d, ks, gap)[gap_issues_of(d.drop_last(), ks, gap).len() as int],
            ks,
            d.last(),
            gap,
        ),
        close_positions(ks, d.last(), gap).len() == 0 ==> gap_issues_of(d, ks, gap) == gap_issues_of(
            d.drop_last(),
            ks,
            gap,
        ),
{
    reveal(close_positions);
    reveal(is_gap_entry);
    let prev = gap_issues_of(d.drop_last(), ks, gap);
    let cur = gap_issues_of(d, ks, gap);
    let close = close_positions(ks, d.last(), gap);
    if close.len() > 0 {
        let e = cur[prev.len() as int];
        assert forall|j: int| 0 <= j < e.3.len() implies #[trigger] e.3[j] == close[j] as usize by {}
    }
}

/// An artist of `d` with reported positions has its gap error.
proof fn lemma_gap_issue_for(d: Seq<Seq<char>>, ks: Seq<Seq<char>>, gap: nat, i: int) -> (t: int)
    requires
        0 <= i < d.len(),
        close_positions(ks, d[i], gap).len() > 0,
    ensures
        0 <= t < gap_issues_of(d, ks, gap).len(),
        is_gap_entry(gap_issues_of(d, ks, gap)[t], ks, d[i], gap),
    decreases d.len(),
{
    let dp = d.drop_last();
    lemma_gap_issues_step(d, ks, gap);
    if i < d.len() - 1 {
        assert(dp[i] == d[i]);
        let t = lemma_gap_issue_for(dp, ks, gap, i);
        assert(gap_issues_of(d, ks, gap)[t] == gap_issues_of(dp, ks, gap)[t]);
        t
    } else {
        gap_issues_of(dp, ks, gap).len() as int
    }
}

/// Every gap error is that of an artist of `d` with reported positions.
proof fn lemma_gap_issue_source(d: Seq<Seq<char>>, ks: Seq<Seq<char>>, gap: nat, t: int) -> (i: int)
    requires
        0 <= t < gap_issues_of(d, ks, gap).len(),
    ensures
        0 <= i < d.len(),
        close_positions(ks, d[i], gap).len() > 0,
        is_gap_entry(gap_issues_of(d, ks, gap)[t], ks, d[i], gap),
    decreases d.len(),
{
    if d.len() == 0 {
        assert(false);
        0
    } else {
        let dp = d.drop_last();
        lemma_gap_issues_step(d, ks, gap);
        if t < gap_issues_of(dp, ks, gap).len() {
            let i = lemma_gap_issue_source(dp, ks, gap, t);
            assert(dp[i] == d[i]);
            i
        } else {
            d.len() - 1
        }
    }
}

/// The artist gap audit flags exactly the artists that come back too soon.
/// Whenever two consecutive occurrences of a non-empty artist key lie fewer
/// than `gap` positions apart, that artist has an `artist_gap` error that
/// lists both positions. Every `artist_gap` error names an artist of the
/// playlist, lists at least one position, and each position it lists ends
/// two consecutive occurrences of that artist fewer than `gap` apart; an
/// artist with no such pair therefore gets no error.
pub proof fn law_gap_issues_flag_close_repeats(d: Seq<Seq<char>>, ks: Seq<Seq<char>>, gap: nat)
    requires
        is_distinct_keys(d, ks, true),
        ks.len() <= usize::MAX,
    ensures
        forall|p: int, q: int|
            #[trigger] consecutive_repeat(ks, p, q) && q - p < gap && ks[p].len() > 0 ==> exists|t: int|
                0 <= t < gap_issues_of(d, ks, gap).len() && (#[trigger] gap_issues_of(d, ks, gap)[t]).0
                    == AuditSeverity::Error && gap_issues_of(d, ks, gap)[t].1 == seq![
                    'a',
                    'r',
                    't',
                    'i',
                    's',
                    't',
                    '_',
                    'g',
                    'a',
                    'p',
                ] && gap_issues_of(d, ks, gap)[t].2 == gap_message(ks[p], gap) && gap_issues_of(
                    d,
                    ks,
                    gap,
                )[t].3.contains((p + 1) as usize) && gap_issues_of(d, ks, gap)[t].3.contains(
                    (q + 1) as usize,
                ),
        forall|t: int|
            0 <= t < gap_issues_of(d, ks, gap).len() ==> (#[trigger] gap_issues_of(d, ks, gap)[t]).3.len()
                > 0 && exists|i: int|
                0 <= i < d.len() && gap_issues_of(d, ks, gap)[t].2 == gap_message(#[trigger] d[i], gap)
                    && forall|j: int|
                    0 <= j < gap_issues_of(d, ks, gap)[t].3.len() ==> in_close_pair(
                        ks,
                        d[i],
                        gap,
                        (#[trigger] gap_issues_of(d, ks, gap)[t].3[j]) as int,
                    ),
{
    let iss = gap_issues_of(d, ks, gap);
    assert forall|p: int, q: int|
        #[trigger] consecutive_repeat(ks, p, q) && q - p < gap && ks[p].len() > 0 implies exists|t: int|
        0 <= t < iss.len() && (#[trigger] iss[t]).0 == AuditSeverity::Error && iss[t].1 == seq![
            'a',
            'r',
            't',
            'i',
            's',
            't',
            '_',
            'g',
            'a',
            'p',
        ] && iss[t].2 == gap_message(ks[p], gap) && iss[t].3.contains((p + 1) as usize) && iss[t].3.contains(
            (q + 1) as usize,
        ) by {
        let k = ks[p];
        assert(d.contains(ks[p]));
        let i = choose|i: int| 0 <= i < d.len() && d[i] == k;
        let a = lemma_pair_indices(ks, p, q);
        let ps = positions_of(ks, k, ks.len() as int);
        assert(too_close_at(ps, gap as int, a));
        assert(too_close_at(ps, gap as int, a + 1));
        lemma_too_close_upto(ps, gap as int, ps.len() as int);
        let close = close_positions(ks, k, gap);
        assert(close == too_close_upto(ps, gap as int, ps.len() as int)) by {
            reveal(close_positions);
        }
        assert(close.contains(ps[a]));
        assert(close.contains(ps[a + 1]));
        let ja = choose|j: int| 0 <= j < close.len() && close[j] == p + 1;
        let jb = choose|j: int| 0 <= j < close.len() && close[j] == q + 1;
        let t = lemma_gap_issue_for(d, ks, gap, i);
        reveal(is_gap_entry);
        assert(iss[t].3[ja] == (p + 1) as usize);
        assert(iss[t].3[jb] == (q + 1) as usize);
    }
    assert forall|t: int| 0 <= t < iss.len() implies (#[trigger] iss[t]).3.len() > 0 && exists|i: int|
        0 <= i < d.len() && iss[t].2 == gap_message(#[trigger] d[i], gap) && forall|j: int|
            0 <= j < iss[t].3.len() ==> in_close_pair(ks, d[i], gap, (#[trigger] iss[t].3[j]) as int) by {
        let i = lemma_gap_issue_source(d, ks, gap, t);
        let k = d[i];
        reveal(is_gap_entry);
        assert forall|j: int| 0 <= j < iss[t].3.len() implies in_close_pair(ks, k, gap, (#[trigger] iss[t].3[j]) as int) by {
            lemma_close_position_pair(ks, k, gap, j);
            assert(iss[t].3[j] == close_positions(ks, k, gap)[j] as usize);
        }
    }
}

} // verus!
