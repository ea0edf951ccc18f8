//! The song version layer: recordings that share an artist and a normalized
//! title form one song, and the best recording of each song is its
//! canonical take — a Last.fm match first, then the higher recording quality
//! (absent lowest), then the smaller content hash.
//!
//! Recording quality enters as a rank (`None` lowest, a higher rank for a
//! higher quality), so every decision here is on integers and text.

use vstd::prelude::*;

use crate::normalize::{
    artist_id, artist_id_of, file_name_of, filename_from_path, normalized_title, normalized_title_of,
    present_tag, present_tag_exec, unknown_artist,
};
use crate::order::{
    chars_lt, is_keyed_first, keyed_first, lemma_lex_irreflexive, lemma_lex_total, lemma_lex_transitive,
    lex_lt, triples_view,
};
use crate::record::{tag_artist, tag_title, RecordMeta};
use crate::text::{ascii_lower, chars_eq, chars_of, concat, is_digit, slice_chars, string_of};

verus! {

// ───────────────────────────── small rules ─────────────────────────────

/// The pair in ascending order.
pub fn ordered_pair<'a>(a: &'a str, b: &'a str) -> (r: (&'a str, &'a str))
    ensures
        !lex_lt(b@, a@) ==> r == (a, b),
        lex_lt(b@, a@) ==> r == (b, a),
{
    if !crate::order::str_lt(b, a) {
        (a, b)
    } else {
        (b, a)
    }
}

/// `"Artiest onbekend"`, the Dutch placeholder artist.
pub open spec fn dutch_unknown() -> Seq<char> {
    seq!['A', 'r', 't', 'i', 'e', 's', 't', ' ', 'o', 'n', 'b', 'e', 'k', 'e', 'n', 'd']
}

/// A placeholder artist tag: the unknown-artist id, its Dutch form, or an
/// ASCII-case-insensitive `TJT` followed by a digit.
pub open spec fn is_junk_artist_of(a: Seq<char>) -> bool {
    a == unknown_artist() || a == dutch_unknown() || (a.len() > 3 && ascii_lower(a[0]) == 't'
        && ascii_lower(a[1]) == 'j' && ascii_lower(a[2]) == 't' && is_digit(a[3]))
}

/// Whether an artist tag is one of the observed placeholders.
pub fn is_junk_artist(artist: &str) -> (r: bool)
    ensures
        r == is_junk_artist_of(artist@),
{
    let a = chars_of(artist);
    let u = vec!['U', 'n', 'k', 'n', 'o', 'w', 'n', ' ', 'A', 'r', 't', 'i', 's', 't'];
    let d = vec!['A', 'r', 't', 'i', 'e', 's', 't', ' ', 'o', 'n', 'b', 'e', 'k', 'e', 'n', 'd'];
    assert(u@ =~= unknown_artist());
    assert(d@ =~= dutch_unknown());
    if chars_eq(&a, &u) || chars_eq(&a, &d) {
        return true;
    }
    a.len() > 3 && crate::text::ascii_lower_char(a[0]) == 't' && crate::text::ascii_lower_char(a[1])
        == 'j' && crate::text::ascii_lower_char(a[2]) == 't' && '0' <= a[3] && a[3] <= '9'
}

/// The title a record is known by: its non-blank tag title, else its file
/// name.
pub open spec fn record_title_of(r: RecordMeta) -> Seq<char> {
    match present_tag(tag_title(r)) {
        Some(t) => t,
        None => file_name_of(r.source.path@),
    }
}

/// The version key of a record: `"<artist_id>|<normalized title>"`.
pub open spec fn version_key_of(r: RecordMeta) -> Seq<char> {
    artist_id_of(tag_artist(r)) + seq!['|'] + normalized_title_of(record_title_of(r))
}

/// The normalized title of a record.
pub fn normalized_record_title(r: &RecordMeta) -> (t: String)
    ensures
        t@ == normalized_title_of(record_title_of(*r)),
{
    let raw = match present_tag_exec(r.title()) {
        Some(t) => string_of(&t),
        None => filename_from_path(r.source.path.as_str()),
    };
    normalized_title(raw.as_str())
}

/// The version key of a record.
pub fn version_key(r: &RecordMeta) -> (k: String)
    ensures
        k@ == version_key_of(*r),
{
    let a = artist_id(r.artist());
    let mut head = chars_of(a.as_str());
    head.push('|');
    let t = normalized_record_title(r);
    string_of(&concat(&head, &chars_of(t.as_str())))
}

// ───────────────────────────── the canonical pick ─────────────────────────────

/// Quality `a` ranks above `b`; an absent quality ranks lowest.
pub open spec fn quality_above(a: Option<u64>, b: Option<u64>) -> bool {
    match (a, b) {
        (Some(x), Some(y)) => x > y,
        (Some(_), None) => true,
        _ => false,
    }
}

/// Candidate `a` is a strictly better canonical pick than `b`: a Last.fm
/// match first, then the higher quality, then the smaller content hash.
pub open spec fn better_than(
    matched_a: bool,
    q_a: Option<u64>,
    h_a: Seq<char>,
    matched_b: bool,
    q_b: Option<u64>,
    h_b: Seq<char>,
) -> bool {
    (matched_a && !matched_b) || (matched_a == matched_b && (quality_above(q_a, q_b) || (q_a == q_b
        && lex_lt(h_a, h_b))))
}

/// Whether candidate `a` beats candidate `b`.
pub fn is_better(
    matched_a: bool,
    q_a: Option<u64>,
    h_a: &str,
    matched_b: bool,
    q_b: Option<u64>,
    h_b: &str,
) -> (r: bool)
    ensures
        r == better_than(matched_a, q_a, h_a@, matched_b, q_b, h_b@),
{
    if matched_a && !matched_b {
        return true;
    }
    if !matched_a && matched_b {
        return false;
    }
    match (q_a, q_b) {
        (Some(x), Some(y)) => {
            if x > y {
                return true;
            }
            if x < y {
                return false;
            }
        },
        (Some(_), None) => {
            return true;
        },
        (None, Some(_)) => {
            return false;
        },
        (None, None) => {},
    }
    crate::order::str_lt(h_a, h_b)
}

/// The members' inputs as plain values.
pub open spec fn better_at(ms: Seq<bool>, qs: Seq<Option<u64>>, hs: Seq<Seq<char>>, i: int, j: int) -> bool {
    better_than(ms[i], qs[i], hs[i], ms[j], qs[j], hs[j])
}

/// `b` is the first best of `mem`: it beats every earlier member, and no
/// later member beats it.
pub open spec fn is_first_best(ms: Seq<bool>, qs: Seq<Option<u64>>, hs: Seq<Seq<char>>, mem: Seq<int>, b: int) -> bool {
    &&& mem.contains(b)
    &&& forall|t: int| 0 <= t < mem.len() && mem[t] < b ==> better_at(ms, qs, hs, b, #[trigger] mem[t])
    &&& forall|t: int| 0 <= t < mem.len() && mem[t] > b ==> !better_at(ms, qs, hs, #[trigger] mem[t], b)
}

/// The first best member.
pub open spec fn best_of(ms: Seq<bool>, qs: Seq<Option<u64>>, hs: Seq<Seq<char>>, mem: Seq<int>) -> int {
    choose|b: int| is_first_best(ms, qs, hs, mem, b)
}

/// The canonical order is a strict order, total up to equal inputs.
pub proof fn law_better_is_strict_total(
    ma: bool,
    qa: Option<u64>,
    ha: Seq<char>,
    mb: bool,
    qb: Option<u64>,
    hb: Seq<char>,
    mc: bool,
    qc: Option<u64>,
    hc: Seq<char>,
)
    ensures
        !better_than(ma, qa, ha, ma, qa, ha),
        better_than(ma, qa, ha, mb, qb, hb) && better_than(mb, qb, hb, mc, qc, hc) ==> better_than(
            ma,
            qa,
            ha,
            mc,
            qc,
            hc,
        ),
        !better_than(ma, qa, ha, mb, qb, hb) && !better_than(mb, qb, hb, ma, qa, ha) ==> (ma, qa, ha)
            == (mb, qb, hb),
{
    lemma_lex_irreflexive(ha);
    lemma_lex_total(ha, hb);
    if lex_lt(ha, hb) && lex_lt(hb, hc) {
        lemma_lex_transitive(ha, hb, hc);
    }
}

/// The first best is unique.
proof fn lemma_first_best_unique(ms: Seq<bool>, qs: Seq<Option<u64>>, hs: Seq<Seq<char>>, mem: Seq<int>, b1: int, b2: int)
    requires
        is_first_best(ms, qs, hs, mem, b1),
        is_first_best(ms, qs, hs, mem, b2),
    ensures
        b1 == b2,
{
    if b1 < b2 {
        let t = choose|t: int| 0 <= t < mem.len() && mem[t] == b1;
        let u = choose|u: int| 0 <= u < mem.len() && mem[u] == b2;
        assert(better_at(ms, qs, hs, b2, mem[t]));
        assert(!better_at(ms, qs, hs, mem[u], b1));
    } else if b2 < b1 {
        let t = choose|t: int| 0 <= t < mem.len() && mem[t] == b2;
        let u = choose|u: int| 0 <= u < mem.len() && mem[u] == b1;
        assert(better_at(ms, qs, hs, b1, mem[t]));
        assert(!better_at(ms, qs, hs, mem[u], b2));
    }
}

// ───────────────────────────── grouping ─────────────────────────────

/// The positions below `n` whose key is `k`, ascending.
pub open spec fn member_indices(keys: Seq<Seq<char>>, k: Seq<char>, n: int) -> Seq<int>
    decreases n,
{
    if n <= 0 {
        Seq::empty()
    } else {
        let p = member_indices(keys, k, n - 1);
        if keys[n - 1] == k {
            p.push(n - 1)
        } else {
            p
        }
    }
}

/// The positions whose key is `k`, ascending.
pub open spec fn members_of(keys: Seq<Seq<char>>, k: Seq<char>) -> Seq<int> {
    member_indices(keys, k, keys.len() as int)
}

proof fn lemma_member_indices(keys: Seq<Seq<char>>, k: Seq<char>, n: int)
    requires
        0 <= n <= keys.len(),
    ensures
        forall|t: int| 0 <= t < member_indices(keys, k, n).len() ==> 0 <= #[trigger] member_indices(keys, k, n)[t] < n
            && keys[member_indices(keys, k, n)[t]] == k,
        forall|t: int, u: int| 0 <= t < u < member_indices(keys, k, n).len() ==> #[trigger] member_indices(keys, k, n)[t]
            < #[trigger] member_indices(keys, k, n)[u],
        forall|i: int| 0 <= i < n && keys[i] == k ==> member_indices(keys, k, n).contains(i),
    decreases n,
{
    if n > 0 {
        lemma_member_indices(keys, k, n - 1);
        let p = member_indices(keys, k, n - 1);
        assert forall|i: int| 0 <= i < n && keys[i] == k implies member_indices(keys, k, n).contains(i) by {
            if i < n - 1 {
                let t = choose|t: int| 0 <= t < p.len() && p[t] == i;
                if keys[n - 1] == k {
                    assert(p.push(n - 1)[t] == i);
                }
            } else {
                assert(p.push(n - 1)[p.len() as int] == i);
            }
        }
    }
}

/// The positions whose key equals `key`, ascending.
fn collect_members(keys: &Vec<String>, key: &Vec<char>) -> (r: Vec<usize>)
    ensures
        r@.map_values(|i: usize| i as int) == members_of(keys.deep_view(), key@),
{
    let ghost ks = keys.deep_view();
    let mut out: Vec<usize> = Vec::new();
    let mut i: usize = 0;
    while i < keys.len()
        invariant
            i <= keys.len(),
            ks == keys.deep_view(),
            out@.map_values(|t: usize| t as int) == member_indices(ks, key@, i as int),
        decreases keys.len() - i,
    {
        let ghost o0 = out@.map_values(|t: usize| t as int);
        if chars_eq(&chars_of(keys[i].as_str()), key) {
            out.push(i);
            assert(out@.map_values(|t: usize| t as int) =~= o0.push(i as int));
        }
        i += 1;
    }
    out
}

/// The first best of `members` (ascending positions).
fn pick_best(members: &Vec<usize>, matched: &Vec<bool>, quality: &Vec<Option<u64>>, hashes: &Vec<String>) -> (b: usize)
    requires
        members.len() >= 1,
        matched.len() == quality.len() == hashes.len(),
        forall|t: int| 0 <= t < members.len() ==> #[trigger] members[t] < matched.len(),
        forall|t: int, u: int| 0 <= t < u < members.len() ==> #[trigger] members[t] < #[trigger] members[u],
    ensures
        is_first_best(matched@, quality@, hashes.deep_view(), members@.map_values(|i: usize| i as int), b as int),
{
    let ghost ms = matched@;
    let ghost qs = quality@;
    let ghost hs = hashes.deep_view();
    let ghost mem = members@.map_values(|i: usize| i as int);
    let mut acc = members[0];
    let mut k: usize = 1;
    assert(mem[0] == acc);
    while k < members.len()
        invariant
            1 <= k <= members.len(),
            ms == matched@,
            qs == quality@,
            hs == hashes.deep_view(),
            mem == members@.map_values(|i: usize| i as int),
            matched.len() == quality.len() == hashes.len(),
            forall|t: int| 0 <= t < members.len() ==> #[trigger] members[t] < matched.len(),
            forall|t: int, u: int| 0 <= t < u < members.len() ==> #[trigger] members[t] < #[trigger] members[u],
            exists|t: int| 0 <= t < k && mem[t] == acc,
            forall|t: int| 0 <= t < k && mem[t] < acc ==> better_at(ms, qs, hs, acc as int, #[trigger] mem[t]),
            forall|t: int| 0 <= t < k && mem[t] > acc ==> !better_at(ms, qs, hs, #[trigger] mem[t], acc as int),
        decreases members.len() - k,
    {
        let idx = members[k];
        assert(mem[k as int] == idx);
        proof {
            let ta = choose|t: int| 0 <= t < k && mem[t] == acc;
            assert(mem[ta] == members[ta]);
        }
        assert(acc < idx);
        let b = is_better(
            matched[idx],
            quality[idx],
            hashes[idx].as_str(),
            matched[acc],
            quality[acc],
            hashes[acc].as_str(),
        );
        assert(hs[idx as int] == hashes[idx as int]@);
        assert(hs[acc as int] == hashes[acc as int]@);
        if b {
            proof {
                assert forall|t: int| 0 <= t < k + 1 && mem[t] < idx implies better_at(
                    ms,
                    qs,
                    hs,
                    idx as int,
                    #[trigger] mem[t],
                ) by {
                    let j = mem[t];
                    assert(mem[t] == members[t]);
                    law_better_is_strict_total(
                        ms[idx as int], qs[idx as int], hs[idx as int],
                        ms[acc as int], qs[acc as int], hs[acc as int],
                        ms[j], qs[j], hs[j],
                    );
                    law_better_is_strict_total(
                        ms[acc as int], qs[acc as int], hs[acc as int],
                        ms[j], qs[j], hs[j],
                        ms[idx as int], qs[idx as int], hs[idx as int],
                    );
                }
                assert forall|t: int| 0 <= t < k + 1 && mem[t] > idx implies !better_at(
                    ms,
                    qs,
                    hs,
                    #[trigger] mem[t],
                    idx as int,
                ) by {
                    assert(mem[t] == members[t]);
                    assert(t <= k);
                }
            }
            acc = idx;
        } else {
            proof {
                assert forall|t: int| 0 <= t < k + 1 && mem[t] > acc implies !better_at(
                    ms,
                    qs,
                    hs,
                    #[trigger] mem[t],
                    acc as int,
                ) by {
                    if t == k {
                        assert(mem[t] == idx);
                    }
                }
                assert forall|t: int| 0 <= t < k + 1 && mem[t] < acc implies better_at(
                    ms,
                    qs,
                    hs,
                    acc as int,
                    #[trigger] mem[t],
                ) by {
                    if t == k {
                        assert(mem[t] == idx);
                    }
                }
            }
        }
        k += 1;
    }
    proof {
        let ta = choose|t: int| 0 <= t < k && mem[t] == acc;
        assert(mem.contains(acc as int));
    }
    acc
}

/// The artist and title parts of a song id: split at the first `'|'`, or
/// the whole id and an empty title without one.
pub open spec fn split_bar(id: Seq<char>) -> (Seq<char>, Seq<char>) {
    if exists|i: int| 0 <= i < id.len() && id[i] == '|' {
        let i = choose|i: int|
            0 <= i < id.len() && id[i] == '|' && forall|j: int| 0 <= j < i ==> #[trigger] id[j] != '|';
        (id.take(i), id.skip(i + 1))
    } else {
        (id, Seq::empty())
    }
}

/// Split a song id at its first `'|'`.
fn split_bar_exec(id: &Vec<char>) -> (r: (Vec<char>, Vec<char>))
    ensures
        (r.0@, r.1@) == split_bar(id@),
{
    let mut i: usize = 0;
    while i < id.len() && id[i] != '|'
        invariant
            i <= id.len(),
            forall|j: int| 0 <= j < i ==> #[trigger] id@[j] != '|',
        decreases id.len() - i,
    {
        i += 1;
    }
    if i < id.len() {
        proof {
            let c = choose|c: int|
                0 <= c < id@.len() && id@[c] == '|' && forall|j: int| 0 <= j < c ==> #[trigger] id@[j] != '|';
            if c < i {
                assert(id@[c] != '|');
            }
            if i < c {
                assert(id@[i as int] != '|');
            }
        }
        (slice_chars(id, 0, i), slice_chars(id, i + 1, id.len()))
    } else {
        assert(id@.take(id.len() as int) =~= id@);
        (slice_chars(id, 0, id.len()), Vec::new())
    }
}

/// One version group of two or more recordings of a song.
pub struct SongGroup {
    /// `"<artist_id>|<normalized_title>"`.
    pub id: String,
    pub title: String,
    pub artist: String,
    /// Member content hashes, in input order.
    pub members: Vec<String>,
    /// The content hash of the canonical member.
    pub canonical_hash: String,
}

/// The songs of a library and the canonical flag of every track.
pub struct SongGrouping {
    /// Version groups with two or more members, in ascending id order.
    pub songs: Vec<SongGroup>,
    /// Parallel to the input: false exactly for the non-best members of a
    /// version group.
    pub is_canonical: Vec<bool>,
}

/// What a grouping must be for keys, match flags, quality ranks and hashes.
pub open spec fn is_grouping_of(
    g: SongGrouping,
    ks: Seq<Seq<char>>,
    ms: Seq<bool>,
    qs: Seq<Option<u64>>,
    hs: Seq<Seq<char>>,
) -> bool {
    &&& forall|a: int, b: int| 0 <= a < b < g.songs.len() ==> lex_lt(#[trigger] g.songs[a].id@, #[trigger] g.songs[b].id@)
    &&& forall|a: int| 0 <= a < g.songs.len() ==> {
        let s = #[trigger] g.songs[a];
        let mem = members_of(ks, s.id@);
        &&& mem.len() >= 2
        &&& s.members.deep_view() == mem.map_values(|i: int| hs[i])
        &&& s.canonical_hash@ == hs[best_of(ms, qs, hs, mem)]
        &&& (s.artist@, s.title@) == split_bar(s.id@)
    }
    &&& forall|i: int| 0 <= i < ks.len() && members_of(ks, ks[i]).len() >= 2 ==> exists|a: int|
        0 <= a < g.songs.len() && (#[trigger] g.songs[a]).id@ == ks[i]
    &&& g.is_canonical.len() == ks.len()
    &&& forall|i: int| 0 <= i < ks.len() ==> #[trigger] g.is_canonical[i] == (members_of(ks, ks[i]).len() < 2
        || i == best_of(ms, qs, hs, members_of(ks, ks[i])))
}

proof fn lemma_best_of_is(ms: Seq<bool>, qs: Seq<Option<u64>>, hs: Seq<Seq<char>>, mem: Seq<int>, b: int)
    requires
        is_first_best(ms, qs, hs, mem, b),
    ensures
        best_of(ms, qs, hs, mem) == b,
{
    let c = best_of(ms, qs, hs, mem);
    assert(is_first_best(ms, qs, hs, mem, c));
    lemma_first_best_unique(ms, qs, hs, mem, b, c);
}

/// Key `k` is among the first `g` entries of `dv`.
pub open spec fn key_done(dv: Seq<(Seq<char>, Seq<char>, Seq<char>)>, g: int, k: Seq<char>) -> bool {
    exists|d: int| 0 <= d < g && (#[trigger] dv[d]).0 == k
}

/// The canonical flag a track gets from its key's group.
pub open spec fn canonical_flag(ks: Seq<Seq<char>>, ms: Seq<bool>, qs: Seq<Option<u64>>, hs: Seq<Seq<char>>, i: int) -> bool {
    members_of(ks, ks[i]).len() < 2 || i == best_of(ms, qs, hs, members_of(ks, ks[i]))
}

/// What a song of key `k` must be.
pub open spec fn is_song_of(
    s: SongGroup,
    k: Seq<char>,
    ks: Seq<Seq<char>>,
    ms: Seq<bool>,
    qs: Seq<Option<u64>>,
    hs: Seq<Seq<char>>,
) -> bool {
    let mem = members_of(ks, k);
    &&& s.id@ == k
    &&& mem.len() >= 2
    &&& s.members.deep_view() == mem.map_values(|i: int| hs[i])
    &&& s.canonical_hash@ == hs[best_of(ms, qs, hs, mem)]
    &&& (s.artist@, s.title@) == split_bar(s.id@)
}

/// The song of one key, when it has two or more members, with the members'
/// canonical flags set; other flags are untouched.
fn build_song(
    hashes: &Vec<String>,
    quality: &Vec<Option<u64>>,
    matched: &Vec<bool>,
    keys: &Vec<String>,
    key: &Vec<char>,
    is_canonical: &mut Vec<bool>,
) -> (r: Option<SongGroup>)
    requires
        hashes.len() == quality.len() == matched.len() == keys.len() == old(is_canonical).len(),
    ensures
        final(is_canonical).len() == old(is_canonical).len(),
        members_of(keys.deep_view(), key@).len() >= 2 ==> r is Some && is_song_of(
            r->Some_0,
            key@,
            keys.deep_view(),
            matched@,
            quality@,
            hashes.deep_view(),
        ),
        members_of(keys.deep_view(), key@).len() < 2 ==> r is None,
        forall|i: int| 0 <= i < keys.len() ==> #[trigger] final(is_canonical)[i] == (if keys.deep_view()[i]
            == key@ && members_of(keys.deep_view(), key@).len() >= 2 {
            i == best_of(matched@, quality@, hashes.deep_view(), members_of(keys.deep_view(), key@))
        } else {
            old(is_canonical)[i]
        }),
{
    let ghost ks = keys.deep_view();
    let ghost ms = matched@;
    let ghost qs = quality@;
    let ghost hs = hashes.deep_view();
    let mem = collect_members(keys, key);
    let ghost mi = mem@.map_values(|i: usize| i as int);
    proof {
        lemma_member_indices(ks, key@, ks.len() as int);
        assert forall|t: int| 0 <= t < mem.len() implies #[trigger] mem[t] < matched.len() by {
            assert(mi[t] == mem[t]);
        }
        assert forall|t: int, u: int| 0 <= t < u < mem.len() implies #[trigger] mem[t] < #[trigger] mem[u] by {
            assert(mi[t] == mem[t] && mi[u] == mem[u]);
        }
    }
    if mem.len() < 2 {
        return None;
    }
    let best = pick_best(&mem, matched, quality, hashes);
    proof {
        lemma_best_of_is(ms, qs, hs, mi, best as int);
    }
    let ghost flags0 = is_canonical@;
    let mut t: usize = 0;
    let mut member_hashes: Vec<String> = Vec::new();
    while t < mem.len()
        invariant
            t <= mem.len(),
            mi == mem@.map_values(|i: usize| i as int),
            mi == members_of(ks, key@),
            ks == keys.deep_view(),
            hs == hashes.deep_view(),
            is_canonical.len() == flags0.len() == keys.len() == hashes.len(),
            forall|u: int| 0 <= u < mem.len() ==> #[trigger] mem[u] < keys.len(),
            forall|u: int, v: int| 0 <= u < v < mem.len() ==> #[trigger] mem[u] < #[trigger] mem[v],
            forall|i: int| 0 <= i < keys.len() ==> #[trigger] is_canonical@[i] == (if exists|u: int|
                0 <= u < t && mem[u] == i {
                i == best
            } else {
                flags0[i]
            }),
            member_hashes.deep_view() == mi.take(t as int).map_values(|i: int| hs[i]),
        decreases mem.len() - t,
    {
        let m = mem[t];
        let ghost before = is_canonical@;
        is_canonical.set(m, m == best);
        proof {
            assert forall|i: int| 0 <= i < keys.len() implies #[trigger] is_canonical@[i] == (if exists|u: int|
                0 <= u < t + 1 && mem[u] == i {
                i == best
            } else {
                flags0[i]
            }) by {
                if i == m {
                    assert(mem[t as int] == i);
                } else {
                    if exists|u: int| 0 <= u < t + 1 && mem[u] == i {
                        let u = choose|u: int| 0 <= u < t + 1 && mem[u] == i;
                        assert(u < t);
                    }
                }
            }
        }
        let ghost mh0 = member_hashes.deep_view();
        let h = hashes[m].clone();
        member_hashes.push(h);
        proof {
            assert(mi[t as int] == m);
            assert(member_hashes.deep_view() =~= mh0.push(hs[m as int]));
            assert(mi.take(t as int + 1).map_values(|i: int| hs[i]) =~= mi.take(t as int).map_values(
                |i: int| hs[i],
            ).push(hs[m as int]));
        }
        t += 1;
    }
    proof {
        assert(mi.take(mem.len() as int) =~= mi);
        assert forall|i: int| 0 <= i < keys.len() implies #[trigger] is_canonical@[i] == (if ks[i] == key@
            && members_of(ks, key@).len() >= 2 {
            i == best_of(ms, qs, hs, members_of(ks, key@))
        } else {
            flags0[i]
        }) by {
            if ks[i] == key@ {
                assert(mi.contains(i));
                let u = choose|u: int| 0 <= u < mi.len() && mi[u] == i;
                assert(mem[u] == i);
            } else {
                if exists|u: int| 0 <= u < mem.len() && mem[u] == i {
                    let u = choose|u: int| 0 <= u < mem.len() && mem[u] == i;
                    assert(mi[u] == i);
                    assert(ks[mi[u]] == key@);
                }
            }
        }
    }
    let (artist, title) = split_bar_exec(key);
    Some(SongGroup {
        id: string_of(key),
        title: string_of(&title),
        artist: string_of(&artist),
        members: member_hashes,
        canonical_hash: hashes[best].clone(),
    })
}

/// Group tracks into songs by version key: every key shared by two or more
/// tracks forms a song, whose canonical member is its first best by Last.fm
/// match, quality rank and content hash; all inputs are parallel.
pub fn group_songs_by_keys(
    hashes: &Vec<String>,
    quality: &Vec<Option<u64>>,
    matched: &Vec<bool>,
    keys: &Vec<String>,
) -> (g: SongGrouping)
    requires
        hashes.len() == quality.len() == matched.len() == keys.len(),
    ensures
        is_grouping_of(g, keys.deep_view(), matched@, quality@, hashes.deep_view()),
{
    let ghost ks = keys.deep_view();
    let ghost ms = matched@;
    let ghost qs = quality@;
    let ghost hs = hashes.deep_view();
    let n = keys.len();
    let mut items: Vec<(String, String, String)> = Vec::new();
    let mut is_canonical: Vec<bool> = Vec::new();
    let mut i: usize = 0;
    while i < n
        invariant
            i <= n == keys.len(),
            ks == keys.deep_view(),
            triples_view(items@) == ks.take(i as int).map_values(|k: Seq<char>| (k, Seq::<char>::empty(), Seq::<char>::empty())),
            is_canonical.len() == i,
            forall|t: int| 0 <= t < i ==> #[trigger] is_canonical@[t],
        decreases n - i,
    {
        let ghost i0 = triples_view(items@);
        let e1: Vec<char> = Vec::new();
        let e2: Vec<char> = Vec::new();
        items.push((keys[i].clone(), string_of(&e1), string_of(&e2)));
        assert(triples_view(items@) =~= i0.push((ks[i as int], Seq::<char>::empty(), Seq::<char>::empty())));
        assert(ks.take(i as int + 1) =~= ks.take(i as int).push(ks[i as int]));
        assert(ks.take(i as int + 1).map_values(|k: Seq<char>| (k, Seq::<char>::empty(), Seq::<char>::empty()))
            =~= ks.take(i as int).map_values(|k: Seq<char>| (k, Seq::<char>::empty(), Seq::<char>::empty())).push(
            (ks[i as int], Seq::<char>::empty(), Seq::<char>::empty()),
        ));
        is_canonical.push(true);
        i += 1;
    }
    assert(ks.take(n as int) =~= ks);
    let distinct = keyed_first(&items);
    let ghost dv = triples_view(distinct@);
    let ghost iv = triples_view(items@);
    proof {
        assert forall|t: int| 0 <= t < n implies key_done(dv, dv.len() as int, #[trigger] ks[t]) by {
            assert(iv[t].0 == ks[t]);
            let d = choose|d: int| 0 <= d < dv.len() && (#[trigger] dv[d]).0 == (#[trigger] iv[t]).0;
        }
    }
    let mut songs: Vec<SongGroup> = Vec::new();
    let mut g: usize = 0;
    while g < distinct.len()
        invariant
            g <= distinct.len(),
            dv == triples_view(distinct@),
            ks == keys.deep_view(),
            ms == matched@,
            qs == quality@,
            hs == hashes.deep_view(),
            n == keys.len() == hashes.len() == quality.len() == matched.len(),
            is_canonical.len() == n,
            forall|a: int, b: int| 0 <= a < b < dv.len() ==> lex_lt(#[trigger] dv[a].0, #[trigger] dv[b].0),
            forall|t: int| 0 <= t < n ==> key_done(dv, dv.len() as int, #[trigger] ks[t]),
            forall|a: int| 0 <= a < songs.len() ==> exists|d: int| 0 <= d < g && (#[trigger] songs@[a]).id@ == dv[d].0,
            forall|a: int, b: int| 0 <= a < b < songs.len() ==> lex_lt(#[trigger] songs@[a].id@, #[trigger] songs@[b].id@),
            forall|a: int| 0 <= a < songs.len() ==> is_song_of(#[trigger] songs@[a], songs@[a].id@, ks, ms, qs, hs),
            forall|t: int| 0 <= t < n && key_done(dv, g as int, #[trigger] ks[t]) && members_of(ks, ks[t]).len() >= 2
                ==> exists|a: int| 0 <= a < songs.len() && (#[trigger] songs@[a]).id@ == ks[t],
            forall|t: int| 0 <= t < n ==> #[trigger] is_canonical@[t] == (if key_done(dv, g as int, ks[t]) {
                canonical_flag(ks, ms, qs, hs, t)
            } else {
                true
            }),
        decreases distinct.len() - g,
    {
        let key = chars_of(distinct[g].0.as_str());
        assert(key@ == dv[g as int].0);
        let ghost flags0 = is_canonical@;
        let ghost songs0 = songs@;
        let built = build_song(hashes, quality, matched, keys, &key, &mut is_canonical);
        proof {
            assert forall|t: int| 0 <= t < n implies #[trigger] is_canonical@[t] == (if key_done(dv, g + 1, ks[t]) {
                canonical_flag(ks, ms, qs, hs, t)
            } else {
                true
            }) by {
                if ks[t] == key@ {
                    assert(dv[g as int].0 == ks[t]);
                    if key_done(dv, g as int, ks[t]) {
                        let d = choose|d: int| 0 <= d < g && (#[trigger] dv[d]).0 == ks[t];
                        lemma_lex_irreflexive(ks[t]);
                    }
                } else {
                    if key_done(dv, g + 1, ks[t]) {
                        let d = choose|d: int| 0 <= d < g + 1 && (#[trigger] dv[d]).0 == ks[t];
                        assert(d < g);
                    }
                }
            }
        }
        match built {
            Some(song) => {
                songs.push(song);
                proof {
                    assert forall|a: int| 0 <= a < songs.len() implies exists|d: int| 0 <= d < g + 1
                        && (#[trigger] songs@[a]).id@ == dv[d].0 by {
                        if a < songs0.len() {
                            assert(songs@[a] == songs0[a]);
                            let d = choose|d: int| 0 <= d < g && songs0[a].id@ == dv[d].0;
                        } else {
                            assert(songs@[a].id@ == dv[g as int].0);
                        }
                    }
                    assert forall|a: int, b: int| 0 <= a < b < songs.len() implies lex_lt(
                        #[trigger] songs@[a].id@,
                        #[trigger] songs@[b].id@,
                    ) by {
                        if b < songs0.len() {
                            assert(songs@[a] == songs0[a] && songs@[b] == songs0[b]);
                        } else {
                            assert(songs@[a] == songs0[a]);
                            let d = choose|d: int| 0 <= d < g && songs0[a].id@ == dv[d].0;
                        }
                    }
                    assert forall|a: int| 0 <= a < songs.len() implies is_song_of(
                        #[trigger] songs@[a],
                        songs@[a].id@,
                        ks,
                        ms,
                        qs,
                        hs,
                    ) by {
                        if a < songs0.len() {
                            assert(songs@[a] == songs0[a]);
                        }
                    }
                    assert forall|t: int| 0 <= t < n && key_done(dv, g + 1, #[trigger] ks[t])
                        && members_of(ks, ks[t]).len() >= 2 implies exists|a: int|
                        0 <= a < songs.len() && (#[trigger] songs@[a]).id@ == ks[t] by {
                        let d = choose|d: int| 0 <= d < g + 1 && (#[trigger] dv[d]).0 == ks[t];
                        if d < g {
                            let a = choose|a: int| 0 <= a < songs0.len() && (#[trigger] songs0[a]).id@ == ks[t];
                            assert(songs@[a] == songs0[a]);
                        } else {
                            assert(songs@[songs0.len() as int].id@ == ks[t]);
                        }
                    }
                }
            },
            None => {
                proof {
                    assert forall|a: int| 0 <= a < songs.len() implies exists|d: int| 0 <= d < g + 1
                        && (#[trigger] songs@[a]).id@ == dv[d].0 by {
                        let d = choose|d: int| 0 <= d < g && songs@[a].id@ == dv[d].0;
                    }
                    assert forall|t: int| 0 <= t < n && key_done(dv, g + 1, #[trigger] ks[t])
                        && members_of(ks, ks[t]).len() >= 2 implies exists|a: int|
                        0 <= a < songs.len() && (#[trigger] songs@[a]).id@ == ks[t] by {
                        let d = choose|d: int| 0 <= d < g + 1 && (#[trigger] dv[d]).0 == ks[t];
                        if d == g {
                            assert(ks[t] == key@);
                        }
                    }
                }
            },
        }
        g += 1;
    }
    let r = SongGrouping { songs, is_canonical };
    proof {
        assert forall|t: int| 0 <= t < n implies #[trigger] r.is_canonical[t] == canonical_flag(ks, ms, qs, hs, t) by {
            assert(key_done(dv, dv.len() as int, ks[t]));
            assert(r.is_canonical[t] == r.is_canonical@[t]);
        }
        assert forall|a: int| 0 <= a < r.songs.len() implies {
            let s = #[trigger] r.songs[a];
            let mem = members_of(ks, s.id@);
            &&& mem.len() >= 2
            &&& s.members.deep_view() == mem.map_values(|i: int| hs[i])
            &&& s.canonical_hash@ == hs[best_of(ms, qs, hs, mem)]
            &&& (s.artist@, s.title@) == split_bar(s.id@)
        } by {
            assert(r.songs[a] == r.songs@[a]);
            assert(is_song_of(r.songs@[a], r.songs@[a].id@, ks, ms, qs, hs));
        }
        assert forall|a: int, b: int| 0 <= a < b < r.songs.len() implies lex_lt(
            #[trigger] r.songs[a].id@,
            #[trigger] r.songs[b].id@,
        ) by {
            assert(r.songs[a] == r.songs@[a] && r.songs[b] == r.songs@[b]);
        }
        assert forall|t: int| 0 <= t < ks.len() && members_of(ks, ks[t]).len() >= 2 implies exists|a: int|
            0 <= a < r.songs.len() && (#[trigger] r.songs[a]).id@ == ks[t] by {
            assert(key_done(dv, dv.len() as int, ks[t]));
            let a = choose|a: int| 0 <= a < r.songs@.len() && (#[trigger] r.songs@[a]).id@ == ks[t];
            assert(r.songs[a] == r.songs@[a]);
        }
    }
    r
}

/// The version keys of records, in order.
pub open spec fn version_keys_of(rs: Seq<RecordMeta>) -> Seq<Seq<char>> {
    rs.map_values(|r: RecordMeta| version_key_of(r))
}

/// The content hashes of records, in order.
pub open spec fn hashes_of(rs: Seq<RecordMeta>) -> Seq<Seq<char>> {
    rs.map_values(|r: RecordMeta| r.source.content_hash@)
}

/// The version keys and content hashes of records.
fn keys_and_hashes(records: &Vec<RecordMeta>) -> (r: (Vec<String>, Vec<String>))
    ensures
        r.0.deep_view() == version_keys_of(records@),
        r.1.deep_view() == hashes_of(records@),
{
    let mut keys: Vec<String> = Vec::new();
    let mut hashes: Vec<String> = Vec::new();
    let mut i: usize = 0;
    while i < records.len()
        invariant
            i <= records.len(),
            keys.deep_view() == version_keys_of(records@.take(i as int)),
            hashes.deep_view() == hashes_of(records@.take(i as int)),
        decreases records.len() - i,
    {
        let ghost k0 = keys.deep_view();
        let ghost h0 = hashes.deep_view();
        let k = version_key(&records[i]);
        let ghost kv = k@;
        keys.push(k);
        let h = records[i].source.content_hash.clone();
        let ghost hv = h@;
        hashes.push(h);
        assert(keys.deep_view() =~= k0.push(kv));
        assert(hashes.deep_view() =~= h0.push(hv));
        assert(records@.take(i as int + 1) =~= records@.take(i as int).push(records@[i as int]));
        assert(keys.deep_view() =~= version_keys_of(records@.take(i as int + 1)));
        assert(hashes.deep_view() =~= hashes_of(records@.take(i as int + 1)));
        i += 1;
    }
    assert(records@.take(records.len() as int) =~= records@);
    (keys, hashes)
}

/// Group records (sorted by content hash) into songs by version key, with
/// parallel quality ranks and Last.fm match flags.
pub fn group_songs(records: &Vec<RecordMeta>, quality: &Vec<Option<u64>>, has_lastfm_match: &Vec<bool>) -> (g: SongGrouping)
    requires
        records.len() == quality.len() == has_lastfm_match.len(),
    ensures
        is_grouping_of(g, version_keys_of(records@), has_lastfm_match@, quality@, hashes_of(records@)),
{
    let (keys, hashes) = keys_and_hashes(records);
    assert(keys.deep_view().len() == keys.len());
    assert(hashes.deep_view().len() == hashes.len());
    group_songs_by_keys(&hashes, quality, has_lastfm_match, &keys)
}

// ───────────────────────────── refinement ─────────────────────────────

/// The positions of the primary songs a junk-tagged track of normalized
/// title `title` may move to: those with the same title and a real artist.
pub open spec fn matching_targets(ps: Seq<SongGroup>, title: Seq<char>) -> Seq<int>
    decreases ps.len(),
{
    if ps.len() == 0 {
        Seq::empty()
    } else {
        let prev = matching_targets(ps.drop_last(), title);
        let s = ps.last();
        if !is_junk_artist_of(s.artist@) && s.title@ == title {
            prev.push(ps.len() - 1)
        } else {
            prev
        }
    }
}

/// An audio edge joins `a` and `b`, in either direction.
pub open spec fn joined_by_edge<S>(es: Seq<crate::derive::SimEdge<S>>, a: Seq<char>, b: Seq<char>) -> bool {
    exists|e: int|
        0 <= e < es.len() && ((es[e].src@ == a && es[e].tgt@ == b) || (es[e].src@ == b && es[e].tgt@
            == a))
}

/// The key a record is grouped under after refinement: a junk-tagged
/// track whose normalized title matches exactly one primary song with a
/// real artist, and which an audio edge joins to one of that song's
/// members, takes that song's id; every other track keeps its version key.
pub open spec fn refined_key_of<S>(r: RecordMeta, ps: Seq<SongGroup>, es: Seq<crate::derive::SimEdge<S>>) -> Seq<char> {
    let art = artist_id_of(tag_artist(r));
    let title = normalized_title_of(record_title_of(r));
    let ts = matching_targets(ps, title);
    if is_junk_artist_of(art) && ts.len() == 1 && exists|m: int|
        0 <= m < ps[ts[0]].members@.len() && joined_by_edge(
            es,
            r.source.content_hash@,
            #[trigger] ps[ts[0]].members@[m]@,
        ) {
        ps[ts[0]].id@
    } else {
        version_key_of(r)
    }
}

/// Whether an edge joins `a` and `b`.
fn edge_between<S>(edges: &[crate::derive::SimEdge<S>], a: &str, b: &str) -> (r: bool)
    ensures
        r == joined_by_edge(edges@, a@, b@),
{
    let ac = chars_of(a);
    let bc = chars_of(b);
    let mut e: usize = 0;
    while e < edges.len()
        invariant
            e <= edges.len(),
            ac@ == a@,
            bc@ == b@,
            forall|t: int| 0 <= t < e ==> !((edges@[t].src@ == a@ && edges@[t].tgt@ == b@) || (edges@[t].src@
                == b@ && edges@[t].tgt@ == a@)),
        decreases edges.len() - e,
    {
        let s = chars_of(edges[e].src.as_str());
        let t = chars_of(edges[e].tgt.as_str());
        if (chars_eq(&s, &ac) && chars_eq(&t, &bc)) || (chars_eq(&s, &bc) && chars_eq(&t, &ac)) {
            return true;
        }
        e += 1;
    }
    false
}

/// The refined key of one record.
fn refined_key<S>(r: &RecordMeta, primary: &SongGrouping, edges: &[crate::derive::SimEdge<S>]) -> (k: String)
    ensures
        k@ == refined_key_of(*r, primary.songs@, edges@),
{
    let ghost ps = primary.songs@;
    let art = artist_id(r.artist());
    if !is_junk_artist(art.as_str()) {
        return version_key(r);
    }
    let title = normalized_record_title(r);
    let tc = chars_of(title.as_str());
    let mut count: usize = 0;
    let mut found: usize = 0;
    let mut j: usize = 0;
    while j < primary.songs.len()
        invariant
            j <= primary.songs.len(),
            ps == primary.songs@,
            tc@ == title@,
            count == matching_targets(ps.take(j as int), title@).len(),
            count <= j,
            count >= 1 ==> found < j && found == matching_targets(ps.take(j as int), title@)[0],
        decreases primary.songs.len() - j,
    {
        let s = &primary.songs[j];
        assert(ps.take(j as int + 1).drop_last() =~= ps.take(j as int));
        assert(ps.take(j as int + 1).last() == ps[j as int]);
        let ghost prev = matching_targets(ps.take(j as int), title@);
        if !is_junk_artist(s.artist.as_str()) && chars_eq(&chars_of(s.title.as_str()), &tc) {
            if count == 0 {
                found = j;
            }
            count += 1;
            assert(matching_targets(ps.take(j as int + 1), title@) == prev.push(j as int));
        }
        j += 1;
    }
    assert(ps.take(ps.len() as int) =~= ps);
    if count != 1 {
        return version_key(r);
    }
    let target = &primary.songs[found];
    let hash = r.source.content_hash.as_str();
    assert(art@ == artist_id_of(tag_artist(*r)));
    let mut m: usize = 0;
    while m < target.members.len()
        invariant
            m <= target.members.len(),
            ps == primary.songs@,
            found < ps.len(),
            *target == ps[found as int],
            matching_targets(ps, title@).len() == 1,
            matching_targets(ps, title@)[0] == found as int,
            hash@ == r.source.content_hash@,
            title@ == normalized_title_of(record_title_of(*r)),
            is_junk_artist_of(artist_id_of(tag_artist(*r))),
            forall|t: int| 0 <= t < m ==> !joined_by_edge(edges@, hash@, #[trigger] target.members@[t]@),
        decreases target.members.len() - m,
    {
        if edge_between(edges, hash, target.members[m].as_str()) {
            proof {
                let ts = matching_targets(ps, title@);
                assert(ts.len() == 1);
                assert(ts[0] == found as int);
                assert(ps[found as int] == *target);
                assert(joined_by_edge(edges@, r.source.content_hash@, ps[ts[0]].members@[m as int]@));
            }
            return target.id.clone();
        }
        m += 1;
    }
    version_key(r)
}

/// Refine the primary grouping with the audio-neighbour edges: only
/// junk-tagged tracks move, only to a unique real-artist song of their
/// normalized title, and only when an edge in either direction joins them
/// to one of its original members; then regroup.
pub fn refine_songs<S>(
    records: &Vec<RecordMeta>,
    quality: &Vec<Option<u64>>,
    has_lastfm_match: &Vec<bool>,
    primary: &SongGrouping,
    sim_edges: &[crate::derive::SimEdge<S>],
) -> (g: SongGrouping)
    requires
        records.len() == quality.len() == has_lastfm_match.len(),
    ensures
        is_grouping_of(
            g,
            records@.map_values(|r: RecordMeta| refined_key_of(r, primary.songs@, sim_edges@)),
            has_lastfm_match@,
            quality@,
            hashes_of(records@),
        ),
{
    let ghost target = records@.map_values(|r: RecordMeta| refined_key_of(r, primary.songs@, sim_edges@));
    let mut keys: Vec<String> = Vec::new();
    let mut hashes: Vec<String> = Vec::new();
    let mut i: usize = 0;
    while i < records.len()
        invariant
            i <= records.len(),
            target == records@.map_values(|r: RecordMeta| refined_key_of(r, primary.songs@, sim_edges@)),
            keys.deep_view() == target.take(i as int),
            hashes.deep_view() == hashes_of(records@.take(i as int)),
        decreases records.len() - i,
    {
        let ghost k0 = keys.deep_view();
        let ghost h0 = hashes.deep_view();
        let k = refined_key(&records[i], primary, sim_edges);
        let ghost kv = k@;
        keys.push(k);
        let h = records[i].source.content_hash.clone();
        let ghost hv = h@;
        hashes.push(h);
        assert(keys.deep_view() =~= k0.push(kv));
        assert(hashes.deep_view() =~= h0.push(hv));
        assert(records@.take(i as int + 1) =~= records@.take(i as int).push(records@[i as int]));
        assert(keys.deep_view() =~= target.take(i as int + 1));
        assert(hashes.deep_view() =~= hashes_of(records@.take(i as int + 1)));
        i += 1;
    }
    assert(records@.take(records.len() as int) =~= records@);
    assert(target.take(records.len() as int) =~= target);
    assert(keys.deep_view().len() == keys.len());
    assert(hashes.deep_view().len() == hashes.len());
    group_songs_by_keys(&hashes, quality, has_lastfm_match, &keys)
}

/// No member of a song is a strictly better canonical pick than the one
/// chosen, and the chosen one is a member.
pub proof fn law_canonical_is_best(
    ks: Seq<Seq<char>>,
    ms: Seq<bool>,
    qs: Seq<Option<u64>>,
    hs: Seq<Seq<char>>,
    k: Seq<char>,
    i: int,
)
    requires
        members_of(ks, k).len() >= 1,
        members_of(ks, k).contains(i),
        ks.len() <= ms.len(),
        ks.len() <= qs.len(),
        ks.len() <= hs.len(),
    ensures
        members_of(ks, k).contains(best_of(ms, qs, hs, members_of(ks, k))),
        !better_at(ms, qs, hs, i, best_of(ms, qs, hs, members_of(ks, k))),
{
    let mem = members_of(ks, k);
    lemma_member_indices(ks, k, ks.len() as int);
    lemma_first_best_exists(ms, qs, hs, mem, mem.len() as int);
    let b = best_of(ms, qs, hs, mem);
    let t = choose|t: int| 0 <= t < mem.len() && mem[t] == i;
    if i < b {
        assert(better_at(ms, qs, hs, b, mem[t]));
        law_better_is_strict_total(ms[b], qs[b], hs[b], ms[i], qs[i], hs[i], ms[b], qs[b], hs[b]);
        law_better_is_strict_total(ms[i], qs[i], hs[i], ms[b], qs[b], hs[b], ms[i], qs[i], hs[i]);
    } else if i == b {
        law_better_is_strict_total(ms[b], qs[b], hs[b], ms[b], qs[b], hs[b], ms[b], qs[b], hs[b]);
    }
}

/// Among the first `n` members of an ascending member list, a first best
/// exists.
proof fn lemma_first_best_exists(ms: Seq<bool>, qs: Seq<Option<u64>>, hs: Seq<Seq<char>>, mem: Seq<int>, n: int)
    requires
        1 <= n <= mem.len(),
        forall|t: int, u: int| 0 <= t < u < mem.len() ==> #[trigger] mem[t] < #[trigger] mem[u],
    ensures
        n == mem.len() ==> is_first_best(ms, qs, hs, mem, best_of(ms, qs, hs, mem)),
        exists|b: int| is_first_best(ms, qs, hs, mem.take(n), b),
    decreases n,
{
    if n == 1 {
        let m = mem.take(1);
        assert(is_first_best(ms, qs, hs, m, m[0]));
    } else {
        lemma_first_best_exists(ms, qs, hs, mem, n - 1);
        let p = mem.take(n - 1);
        let m = mem.take(n);
        let a = choose|b: int| is_first_best(ms, qs, hs, p, b);
        let x = mem[n - 1];
        assert(m[n - 1] == x);
        assert forall|t: int| 0 <= t < n - 1 implies m[t] == p[t] by {}
        let ta = choose|t: int| 0 <= t < p.len() && p[t] == a;
        assert(a < x);
        if better_at(ms, qs, hs, x, a) {
            assert forall|t: int| 0 <= t < m.len() && m[t] < x implies better_at(ms, qs, hs, x, #[trigger] m[t]) by {
                if t < n - 1 {
                    assert(m[t] == p[t]);
                    let j = m[t];
                    law_better_is_strict_total(ms[x], qs[x], hs[x], ms[a], qs[a], hs[a], ms[j], qs[j], hs[j]);
                    law_better_is_strict_total(ms[a], qs[a], hs[a], ms[j], qs[j], hs[j], ms[x], qs[x], hs[x]);
                }
            }
            assert forall|t: int| 0 <= t < m.len() && m[t] > x implies !better_at(ms, qs, hs, #[trigger] m[t], x) by {
                if t < n - 1 {
                    assert(m[t] == p[t]);
                }
            }
            assert(m[n - 1] == x);
            assert(is_first_best(ms, qs, hs, m, x));
        } else {
            assert forall|t: int| 0 <= t < m.len() && m[t] < a implies better_at(ms, qs, hs, a, #[trigger] m[t]) by {
                if t < n - 1 {
                    assert(m[t] == p[t]);
                }
            }
            assert forall|t: int| 0 <= t < m.len() && m[t] > a implies !better_at(ms, qs, hs, #[trigger] m[t], a) by {
                if t < n - 1 {
                    assert(m[t] == p[t]);
                }
            }
            assert(m[ta] == a);
            assert(is_first_best(ms, qs, hs, m, a));
        }
    }
    if n == mem.len() {
        assert(mem.take(n) =~= mem);
    }
}

} // verus!
