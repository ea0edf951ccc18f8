//! Curation vocabulary and the integer rules of playlist curation: briefs and
//! their defaults, diversity caps, audit issues, Camelot key compatibility,
//! category wanted/unwanted checks and artist spacing.
//!
//! Scores, feature fits and arcs are real-valued and stay with the caller;
//! what they feed into here is integers, keys and codes.

use vstd::prelude::*;

use crate::text::{chars_eq, chars_of, concat, is_digit, string_of, to_lowercase, trim, trim_ws, unicode_lowercase};
use crate::derive::{ascii_digits, digits_value, unsigned_part};

verus! {

/// Version of the curation policy format.
pub const CURATION_POLICY_VERSION: u32 = 1;

#[derive(Debug, Clone, Copy, PartialEq, Eq, Structural)]
pub enum PlaylistPreset {
    General,
    Focus,
    Party,
    Workout,
    Chill,
    Discovery,
}

impl Default for PlaylistPreset {
    fn default() -> (r: Self)
        ensures
            r == PlaylistPreset::General,
    {
        PlaylistPreset::General
    }
}

#[derive(Debug, Clone, Copy, PartialEq, Eq, Structural)]
pub enum FamiliarityPreference {
    Avoid,
    Neutral,
    Prefer,
}

impl Default for FamiliarityPreference {
    fn default() -> (r: Self)
        ensures
            r == FamiliarityPreference::Neutral,
    {
        FamiliarityPreference::Neutral
    }
}

#[derive(Debug, Clone, Copy, PartialEq, Eq, Structural)]
pub enum SeedSimilarityPreference {
    Avoid,
    Neutral,
    Prefer,
}

impl Default for SeedSimilarityPreference {
    fn default() -> (r: Self)
        ensures
            r == SeedSimilarityPreference::Neutral,
    {
        SeedSimilarityPreference::Neutral
    }
}

#[derive(Debug, Clone, Copy, PartialEq, Eq, Structural)]
pub enum SeedRole {
    /// Seeds are required playlist entries.
    Pinned,
    /// Seeds are references only and are never exported as entries.
    Reference,
    /// Seeds are both required entries and references for relative targets.
    PinnedAndReference,
}

impl Default for SeedRole {
    fn default() -> (r: Self)
        ensures
            r == SeedRole::Pinned,
    {
        SeedRole::Pinned
    }
}

#[derive(Debug, Clone, Copy, PartialEq, Eq, Structural)]
pub enum RelativeDirection {
    Lower,
    Similar,
    Any,
    Higher,
}

impl Default for RelativeDirection {
    fn default() -> (r: Self)
        ensures
            r == RelativeDirection::Any,
    {
        RelativeDirection::Any
    }
}

#[derive(Debug, Clone, Copy, PartialEq, Eq, Structural)]
pub enum PlaylistArc {
    /// No energy arc at all (serialized as `none`).
    NoArc,
    Flat,
    Rise,
    Fall,
    RiseAndFall,
}

impl Default for PlaylistArc {
    fn default() -> (r: Self)
        ensures
            r == PlaylistArc::Flat,
    {
        PlaylistArc::Flat
    }
}

/// The default playlist length of a brief.
pub fn default_target_tracks() -> (r: usize)
    ensures
        r == 25,
{
    25
}

/// What a caller asks of a curated playlist.
#[derive(Debug, Clone, PartialEq)]
pub struct PlaylistBrief {
    pub preset: PlaylistPreset,
    pub target_tracks: usize,
    pub target_duration_sec: Option<u64>,
    pub seed_ids: Vec<String>,
    pub seed_role: SeedRole,
    /// Intent the typed contract cannot represent; non-empty means the
    /// result must be non-exportable.
    pub unsupported_intents: Vec<String>,
}

impl Default for PlaylistBrief {
    fn default() -> (r: Self)
        ensures
            r.preset == PlaylistPreset::General,
            r.target_tracks == 25,
            r.target_duration_sec is None,
            r.seed_ids@.len() == 0,
            r.seed_role == SeedRole::Pinned,
            r.unsupported_intents@.len() == 0,
    {
        PlaylistBrief {
            preset: PlaylistPreset::General,
            target_tracks: default_target_tracks(),
            target_duration_sec: None,
            seed_ids: Vec::new(),
            seed_role: SeedRole::Pinned,
            unsupported_intents: Vec::new(),
        }
    }
}

/// Hard caps on repetition within a playlist.
#[derive(Debug, Clone, Copy, PartialEq, Eq, Structural)]
pub struct DiversityPolicy {
    pub max_per_artist: usize,
    pub max_per_album: usize,
    pub max_per_song: usize,
    pub min_artist_gap: usize,
}

impl Default for DiversityPolicy {
    fn default() -> (r: Self)
        ensures
            r == (DiversityPolicy {
                max_per_artist: 2,
                max_per_album: 2,
                max_per_song: 1,
                min_artist_gap: 3,
            }),
    {
        DiversityPolicy { max_per_artist: 2, max_per_album: 2, max_per_song: 1, min_artist_gap: 3 }
    }
}

impl DiversityPolicy {
    /// The diversity caps of a preset: discovery allows one track per artist
    /// and per album, every other preset the defaults.
    pub fn for_preset(preset: PlaylistPreset) -> (r: Self)
        ensures
            r == (if preset == PlaylistPreset::Discovery {
                DiversityPolicy { max_per_artist: 1, max_per_album: 1, max_per_song: 1, min_artist_gap: 3 }
            } else {
                DiversityPolicy { max_per_artist: 2, max_per_album: 2, max_per_song: 1, min_artist_gap: 3 }
            }),
    {
        let mut d = DiversityPolicy::default();
        if preset == PlaylistPreset::Discovery {
            d.max_per_artist = 1;
            d.max_per_album = 1;
        }
        d
    }
}

#[derive(Debug, Clone, Copy, PartialEq, Eq, Structural)]
pub enum AuditSeverity {
    Warning,
    Error,
}

/// One finding of a playlist audit.
#[derive(Debug, Clone, PartialEq)]
pub struct AuditIssue {
    pub severity: AuditSeverity,
    pub code: String,
    pub message: String,
    pub positions: Vec<usize>,
}

#[derive(Debug, Clone, Copy, PartialEq, Eq, Structural)]
pub enum AggressionStatus {
    Available,
    Abstained,
    Missing,
    IncompatibleModel,
    InvalidDiagnostics,
}

/// An audit issue with the given severity, code, message and positions.
pub fn issue(severity: AuditSeverity, code: &str, message: String, positions: Vec<usize>) -> (r: AuditIssue)
    ensures
        r.severity == severity,
        r.code@ == code@,
        r.message@ == message@,
        r.positions@ == positions@,
{
    AuditIssue { severity, code: string_of(&chars_of(code)), message, positions }
}

/// An error-severity issue without positions.
pub fn error(code: &str, message: &str) -> (r: AuditIssue)
    ensures
        r.severity == AuditSeverity::Error,
        r.code@ == code@,
        r.message@ == message@,
        r.positions@.len() == 0,
{
    AuditIssue {
        severity: AuditSeverity::Error,
        code: string_of(&chars_of(code)),
        message: string_of(&chars_of(message)),
        positions: Vec::new(),
    }
}

/// Codes of the issues that sequencing can repair.
pub open spec fn is_sequencing_code(code: Seq<char>) -> bool {
    code == seq!['a', 'r', 't', 'i', 's', 't', '_', 'g', 'a', 'p'] || code == seq![
        'm', 'e', 'a', 'n', '_', 't', 'r', 'a', 'n', 's', 'i', 't', 'i', 'o', 'n'
    ] || code == seq!['w', 'o', 'r', 's', 't', '_', 't', 'r', 'a', 'n', 's', 'i', 't', 'i', 'o', 'n']
        || code == seq!['a', 'r', 'c', '_', 'd', 'e', 'v', 'i', 'a', 't', 'i', 'o', 'n']
}

/// How many of `codes` are sequencing codes.
pub open spec fn sequencing_count(codes: Seq<Seq<char>>) -> nat
    decreases codes.len(),
{
    if codes.len() == 0 {
        0
    } else {
        sequencing_count(codes.drop_last()) + if is_sequencing_code(codes.last()) {
            1nat
        } else {
            0nat
        }
    }
}

/// The codes of a list of issues.
pub open spec fn issue_codes(issues: Seq<AuditIssue>) -> Seq<Seq<char>> {
    issues.map_values(|i: AuditIssue| i.code@)
}

/// The number of issues a re-sequencing could fix: artist gaps, mean and
/// worst transitions, and arc deviation.
pub fn sequencing_error_count(issues: &Vec<AuditIssue>) -> (r: usize)
    ensures
        r == sequencing_count(issue_codes(issues@)),
{
    let ghost cs = issue_codes(issues@);
    let gap = chars_of("artist_gap");
    let mean = chars_of("mean_transition");
    let worst = chars_of("worst_transition");
    let arc = chars_of("arc_deviation");
    proof {
        reveal_strlit("artist_gap");
        reveal_strlit("mean_transition");
        reveal_strlit("worst_transition");
        reveal_strlit("arc_deviation");
        assert(gap@ =~= seq!['a', 'r', 't', 'i', 's', 't', '_', 'g', 'a', 'p']);
        assert(mean@ =~= seq!['m', 'e', 'a', 'n', '_', 't', 'r', 'a', 'n', 's', 'i', 't', 'i', 'o', 'n']);
        assert(worst@ =~= seq!['w', 'o', 'r', 's', 't', '_', 't', 'r', 'a', 'n', 's', 'i', 't', 'i', 'o', 'n']);
        assert(arc@ =~= seq!['a', 'r', 'c', '_', 'd', 'e', 'v', 'i', 'a', 't', 'i', 'o', 'n']);
    }
    let mut n: usize = 0;
    let mut i: usize = 0;
    while i < issues.len()
        invariant
            i <= issues.len(),
            cs == issue_codes(issues@),
            gap@ == seq!['a', 'r', 't', 'i', 's', 't', '_', 'g', 'a', 'p'],
            mean@ == seq!['m', 'e', 'a', 'n', '_', 't', 'r', 'a', 'n', 's', 'i', 't', 'i', 'o', 'n'],
            worst@ == seq!['w', 'o', 'r', 's', 't', '_', 't', 'r', 'a', 'n', 's', 'i', 't', 'i', 'o', 'n'],
            arc@ == seq!['a', 'r', 'c', '_', 'd', 'e', 'v', 'i', 'a', 't', 'i', 'o', 'n'],
            n == sequencing_count(cs.take(i as int)),
            n <= i,
        decreases issues.len() - i,
    {
        assert(cs.take(i as int + 1).drop_last() =~= cs.take(i as int));
        let c = chars_of(issues[i].code.as_str());
        assert(c@ == cs[i as int]);
        if chars_eq(&c, &gap) || chars_eq(&c, &mean) || chars_eq(&c, &worst) || chars_eq(&c, &arc) {
            n = n + 1;
        }
        i += 1;
    }
    assert(cs.take(issues.len() as int) =~= cs);
    n
}

// ───────────────────────────── grouping keys ─────────────────────────────

/// The key a category value is grouped under: trimmed and lowercased, or
/// empty when absent or blank.
pub open spec fn group_key_of(value: Option<Seq<char>>) -> Seq<char> {
    match value {
        Some(v) => if trim(v).len() > 0 {
            unicode_lowercase(trim(v))
        } else {
            Seq::empty()
        },
        None => Seq::empty(),
    }
}

/// The grouping key of an optional category value.
pub fn group_key(value: Option<&str>) -> (r: String)
    ensures
        r@ == group_key_of(
            match value {
                Some(v) => Some(v@),
                None => None,
            },
        ),
{
    match value {
        Some(v) => {
            let t = trim_ws(&chars_of(v));
            if t.len() > 0 {
                to_lowercase(string_of(&t).as_str())
            } else {
                string_of(&Vec::new())
            }
        },
        None => string_of(&Vec::new()),
    }
}

// ───────────────────────────── Camelot keys ─────────────────────────────

/// A Camelot code as `(number, mode)` when its mode is `A` or `B` and its
/// number parses (as `i32`) to a value from 1 to 12.
pub open spec fn camelot_of(value: Seq<char>) -> Option<(i32, char)> {
    if value.len() == 0 {
        None
    } else {
        let mode = value.last();
        let num = value.drop_last();
        let d = unsigned_part(num);
        if (mode == 'A' || mode == 'B') && d.len() > 0 && ascii_digits(d) && 1 <= digits_value(d)
            <= 12 {
            Some((digits_value(d) as i32, mode))
        } else {
            None
        }
    }
}

/// Parse a Camelot code such as `"8A"` or `"12B"`.
pub fn parse_camelot(value: &str) -> (r: Option<(i32, char)>)
    ensures
        r == camelot_of(value@),
{
    let v = chars_of(value);
    if v.len() == 0 {
        return None;
    }
    let mode = v[v.len() - 1];
    if mode != 'A' && mode != 'B' {
        return None;
    }
    let ghost num = value@.drop_last();
    let start: usize = if v.len() > 1 && v[0] == '+' {
        1
    } else {
        0
    };
    let end = v.len() - 1;
    assert(unsigned_part(num) =~= v@.subrange(start as int, end as int));
    if start >= end {
        return None;
    }
    let mut value_so_far: u64 = 0;
    let mut i: usize = start;
    while i < end
        invariant
            start <= i <= end,
            end == v.len() - 1,
            v@ == value@,
            v.len() >= 1,
            mode == v@.last(),
            mode == 'A' || mode == 'B',
            unsigned_part(value@.drop_last()) == v@.subrange(start as int, end as int),
            value_so_far <= 12,
            forall|k: int| start <= k < i ==> is_digit(#[trigger] v@[k]),
            value_so_far == digits_value(v@.subrange(start as int, i as int)),
        decreases end - i,
    {
        let c = v[i];
        assert(v@.subrange(start as int, i as int + 1).drop_last() =~= v@.subrange(start as int, i as int));
        if !('0' <= c && c <= '9') {
            proof {
                let d = v@.subrange(start as int, end as int);
                assert(d[i - start] == c);
                assert(!is_digit(d[i - start]));
                assert(!ascii_digits(d));
            }
            return None;
        }
        value_so_far = value_so_far * 10 + ((c as u32) - 48) as u64;
        if value_so_far > 12 {
            proof {
                let d = v@.subrange(start as int, end as int);
                if ascii_digits(d) {
                    lemma_digits_monotone(d, (i + 1 - start) as int);
                    assert(d.take((i + 1 - start) as int) =~= v@.subrange(start as int, i as int + 1));
                }
            }
            return None;
        }
        i += 1;
    }
    assert(v@.subrange(start as int, end as int) =~= v@.subrange(start as int, i as int));
    if value_so_far == 0 {
        return None;
    }
    Some((value_so_far as i32, mode))
}

/// A longer run of digits is worth at least as much as its prefix.
proof fn lemma_digits_monotone(d: Seq<char>, k: int)
    requires
        0 <= k <= d.len(),
        ascii_digits(d),
    ensures
        digits_value(d.take(k)) <= digits_value(d),
    decreases d.len() - k,
{
    if k < d.len() {
        lemma_digits_monotone(d, k + 1);
        assert(d.take(k + 1).drop_last() =~= d.take(k));
    } else {
        assert(d.take(k) =~= d);
    }
}

/// The distance between two positions on the twelve-step wheel.
pub open spec fn circular_distance_of(a: int, b: int) -> int {
    let direct = if a >= b {
        a - b
    } else {
        b - a
    };
    if direct <= 12 - direct {
        direct
    } else {
        12 - direct
    }
}

/// The shorter way round the Camelot wheel between two numbers.
pub fn circular_distance(a: i32, b: i32) -> (r: i32)
    requires
        -0x7fff_ffff <= a - b <= 0x7fff_ffff,
    ensures
        r == circular_distance_of(a as int, b as int),
{
    let direct = if a >= b {
        a - b
    } else {
        b - a
    };
    if direct <= 12 - direct {
        direct
    } else {
        12 - direct
    }
}

/// How well two keys mix.
#[derive(Debug, Clone, Copy, PartialEq, Eq, Structural)]
pub enum KeyCompatibility {
    /// The same code.
    Same,
    /// The same number in the other mode, or a neighbouring number in the
    /// same mode.
    Adjacent,
    /// Anything else.
    Distant,
}

/// The compatibility of two parsed Camelot codes.
pub open spec fn key_compatibility_of(a: (i32, char), b: (i32, char)) -> KeyCompatibility {
    if a.0 == b.0 && a.1 == b.1 {
        KeyCompatibility::Same
    } else if a.0 == b.0 || (a.1 == b.1 && circular_distance_of(a.0 as int, b.0 as int) == 1) {
        KeyCompatibility::Adjacent
    } else {
        KeyCompatibility::Distant
    }
}

/// The compatibility of two optional key codes; `None` when either is absent
/// or not a Camelot code.
pub fn key_compatibility(a: Option<&str>, b: Option<&str>) -> (r: Option<KeyCompatibility>)
    ensures
        r == match (a, b) {
            (Some(x), Some(y)) => match (camelot_of(x@), camelot_of(y@)) {
                (Some(p), Some(q)) => Some(key_compatibility_of(p, q)),
                _ => None,
            },
            _ => None,
        },
{
    let x = match a {
        Some(x) => x,
        None => return None,
    };
    let y = match b {
        Some(y) => y,
        None => return None,
    };
    let p = match parse_camelot(x) {
        Some(p) => p,
        None => return None,
    };
    let q = match parse_camelot(y) {
        Some(q) => q,
        None => return None,
    };
    if p.0 == q.0 && p.1 == q.1 {
        Some(KeyCompatibility::Same)
    } else if p.0 == q.0 || (p.1 == q.1 && circular_distance(p.0, q.0) == 1) {
        Some(KeyCompatibility::Adjacent)
    } else {
        Some(KeyCompatibility::Distant)
    }
}

/// Key compatibility does not depend on the order of the two keys.
pub proof fn law_key_compatibility_symmetric(a: (i32, char), b: (i32, char))
    ensures
        key_compatibility_of(a, b) == key_compatibility_of(b, a),
{
}

// ───────────────────────────── caps and spacing ─────────────────────────────

/// How many times each key has been used so far.
pub struct KeyCounts {
    entries: Vec<(String, usize)>,
}

/// The count recorded for `key` (the last entry for it), or zero.
pub open spec fn lookup(es: Seq<(Seq<char>, usize)>, key: Seq<char>) -> nat
    decreases es.len(),
{
    if es.len() == 0 {
        0
    } else if es.last().0 == key {
        es.last().1 as nat
    } else {
        lookup(es.drop_last(), key)
    }
}

proof fn lemma_lookup_update(es: Seq<(Seq<char>, usize)>, j: int, key: Seq<char>, v: usize, other: Seq<char>)
    requires
        0 <= j < es.len(),
        es[j].0 == key,
        forall|k: int| j < k < es.len() ==> (#[trigger] es[k]).0 != key,
    ensures
        lookup(es, key) == es[j].1,
        lookup(es.update(j, (key, v)), key) == v,
        other != key ==> lookup(es.update(j, (key, v)), other) == lookup(es, other),
    decreases es.len(),
{
    let u = es.update(j, (key, v));
    if j < es.len() - 1 {
        lemma_lookup_update(es.drop_last(), j, key, v, other);
        assert(u.drop_last() =~= es.drop_last().update(j, (key, v)));
    } else {
        assert(u.drop_last() =~= es.drop_last());
    }
}

impl KeyCounts {
    /// The counts as plain values.
    pub closed spec fn entries_view(&self) -> Seq<(Seq<char>, usize)> {
        self.entries@.map_values(|e: (String, usize)| (e.0@, e.1))
    }

    /// The count of `key`.
    pub open spec fn count(&self, key: Seq<char>) -> nat {
        lookup(self.entries_view(), key)
    }

    /// No key used yet.
    pub fn new() -> (r: Self)
        ensures
            r.entries_view().len() == 0,
            forall|k: Seq<char>| r.count(k) == 0,
    {
        let r = KeyCounts { entries: Vec::new() };
        assert(r.entries_view() =~= Seq::<(Seq<char>, usize)>::empty());
        r
    }

    /// The count of `key`.
    pub fn get(&self, key: &str) -> (r: usize)
        ensures
            r == self.count(key@),
    {
        let k = chars_of(key);
        let ghost es = self.entries_view();
        let mut i: usize = self.entries.len();
        assert(es.take(i as int) =~= es);
        while i > 0
            invariant
                i <= self.entries.len(),
                es == self.entries_view(),
                k@ == key@,
                lookup(es, key@) == lookup(es.take(i as int), key@),
            decreases i,
        {
            assert(es.take(i as int).drop_last() =~= es.take(i as int - 1));
            assert(es[i as int - 1] == (self.entries@[i as int - 1].0@, self.entries@[i as int - 1].1));
            if chars_eq(&chars_of(self.entries[i - 1].0.as_str()), &k) {
                return self.entries[i - 1].1;
            }
            i -= 1;
        }
        assert(es.take(0) =~= Seq::<(Seq<char>, usize)>::empty());
        0
    }

    /// Count one more use of `key`.
    pub fn bump(&mut self, key: &str)
        requires
            old(self).count(key@) < usize::MAX,
        ensures
            final(self).count(key@) == old(self).count(key@) + 1,
            forall|k: Seq<char>| k != key@ ==> final(self).count(k) == old(self).count(k),
    {
        let k = chars_of(key);
        let ghost es = self.entries_view();
        let mut i: usize = self.entries.len();
        while i > 0
            invariant
                i <= self.entries.len(),
                es == self.entries_view(),
                es == old(self).entries_view(),
                *self == *old(self),
                lookup(es, key@) < usize::MAX,
                k@ == key@,
                forall|t: int| i <= t < es.len() ==> (#[trigger] es[t]).0 != key@,
            decreases i,
        {
            assert(es[i as int - 1] == (self.entries@[i as int - 1].0@, self.entries@[i as int - 1].1));
            if chars_eq(&chars_of(self.entries[i - 1].0.as_str()), &k) {
                let j = i - 1;
                proof {
                    lemma_lookup_update(es, j as int, key@, 0, key@);
                }
                let n = self.entries[j].1;
                assert(n == es[j as int].1);
                let name = self.entries[j].0.clone();
                self.entries.set(j, (name, n + 1));
                proof {
                    assert(self.entries_view() =~= es.update(j as int, (key@, (n + 1) as usize)));
                    assert forall|o: Seq<char>| o != key@ implies self.count(o) == lookup(es, o) by {
                        lemma_lookup_update(es, j as int, key@, (n + 1) as usize, o);
                    }
                    lemma_lookup_update(es, j as int, key@, (n + 1) as usize, key@);
                }
                return;
            }
            i -= 1;
        }
        proof {
            lemma_lookup_absent(es, key@);
        }
        self.entries.push((string_of(&k), 1));
        assert(self.entries_view() =~= es.push((key@, 1usize)));
        assert(self.entries_view().drop_last() =~= es);
    }
}

proof fn lemma_lookup_absent(es: Seq<(Seq<char>, usize)>, key: Seq<char>)
    requires
        forall|t: int| 0 <= t < es.len() ==> (#[trigger] es[t]).0 != key,
    ensures
        lookup(es, key) == 0,
    decreases es.len(),
{
    if es.len() > 0 {
        lemma_lookup_absent(es.drop_last(), key);
    }
}

/// A key is under its cap when it is empty (no grouping) or used fewer
/// than `cap` times.
pub fn below_cap(key: &str, counts: &KeyCounts, cap: usize) -> (r: bool)
    ensures
        r == (key@.len() == 0 || counts.count(key@) < cap),
{
    let k = chars_of(key);
    k.len() == 0 || counts.get(key) < cap
}

/// Count a use of `key`, unless it is empty.
pub fn increment(key: &str, counts: &mut KeyCounts)
    requires
        old(counts).count(key@) < usize::MAX,
    ensures
        key@.len() == 0 ==> forall|k: Seq<char>| final(counts).count(k) == old(counts).count(k),
        key@.len() > 0 ==> final(counts).count(key@) == old(counts).count(key@) + 1,
        forall|k: Seq<char>| k != key@ ==> final(counts).count(k) == old(counts).count(k),
{
    let k = chars_of(key);
    if k.len() > 0 {
        counts.bump(key);
    }
}

/// The song key of a track: its song group, or its own id when it belongs
/// to none.
pub open spec fn song_key_of(song_key: Option<Seq<char>>, id: Seq<char>) -> Seq<char> {
    match song_key {
        Some(s) => s,
        None => id,
    }
}

/// A track fits when its artist, album and song are each below their caps.
pub fn within_caps(
    artist_key: &str,
    album_key: &str,
    song_key: Option<&str>,
    id: &str,
    artist_cap: usize,
    album_cap: usize,
    song_cap: usize,
    artists: &KeyCounts,
    albums: &KeyCounts,
    songs: &KeyCounts,
) -> (r: bool)
    ensures
        r == ((artist_key@.len() == 0 || artists.count(artist_key@) < artist_cap) && (album_key@.len()
            == 0 || albums.count(album_key@) < album_cap) && ({
            let sk = song_key_of(
                match song_key {
                    Some(s) => Some(s@),
                    None => None,
                },
                id@,
            );
            sk.len() == 0 || songs.count(sk) < song_cap
        })),
{
    let sk = match song_key {
        Some(s) => s,
        None => id,
    };
    below_cap(artist_key, artists, artist_cap) && below_cap(album_key, albums, album_cap)
        && below_cap(sk, songs, song_cap)
}

/// Whether placing a track by `next_artist` after `path_artists` puts it
/// within `gap` positions of another track by the same artist.
pub open spec fn violates_gap_of(path_artists: Seq<Seq<char>>, next_artist: Seq<char>, gap: nat) -> bool {
    gap != 0 && next_artist.len() > 0 && exists|p: int|
        0 <= p < path_artists.len() && path_artists.len() - p < gap && #[trigger] path_artists[p]
            == next_artist
}

/// The artist-spacing rule of sequencing.
pub fn violates_artist_gap(path_artists: &Vec<String>, next_artist: &str, gap: usize) -> (r: bool)
    ensures
        r == violates_gap_of(path_artists.deep_view(), next_artist@, gap as nat),
{
    let a = chars_of(next_artist);
    if gap == 0 || a.len() == 0 {
        return false;
    }
    let ghost pa = path_artists.deep_view();
    let n = path_artists.len();
    let mut p: usize = 0;
    while p < n
        invariant
            p <= n,
            n == path_artists.len(),
            pa == path_artists.deep_view(),
            a@ == next_artist@,
            gap != 0,
            next_artist@.len() > 0,
            forall|q: int| 0 <= q < p && n - q < gap ==> #[trigger] pa[q] != next_artist@,
        decreases n - p,
    {
        if n - p < gap && chars_eq(&chars_of(path_artists[p].as_str()), &a) {
            assert(pa[p as int] == next_artist@);
            assert(pa.len() == n);
            return true;
        }
        p += 1;
    }
    false
}

// ───────────────────────────── category filters ─────────────────────────────

/// Some value of `a` and some value of `b` share a grouping key.
pub open spec fn keys_meet(a: Seq<Seq<char>>, b: Seq<Seq<char>>) -> bool {
    exists|i: int, j: int|
        0 <= i < a.len() && 0 <= j < b.len() && group_key_of(Some(#[trigger] a[i])) == group_key_of(
            Some(#[trigger] b[j]),
        )
}

/// `"track does not match an included <label>"`.
pub open spec fn include_miss_message(label: Seq<char>) -> Seq<char> {
    seq![
        't', 'r', 'a', 'c', 'k', ' ', 'd', 'o', 'e', 's', ' ', 'n', 'o', 't', ' ', 'm', 'a', 't',
        'c', 'h', ' ', 'a', 'n', ' ', 'i', 'n', 'c', 'l', 'u', 'd', 'e', 'd', ' '
    ] + label
}

/// `"track matches an excluded <label>"`.
pub open spec fn exclude_hit_message(label: Seq<char>) -> Seq<char> {
    seq![
        't', 'r', 'a', 'c', 'k', ' ', 'm', 'a', 't', 'c', 'h', 'e', 's', ' ', 'a', 'n', ' ', 'e',
        'x', 'c', 'l', 'u', 'd', 'e', 'd', ' '
    ] + label
}

/// The issues a track's category values raise against an wanted and an
/// unwanted list: a miss when the wanted list is non-empty and no value
/// matches it, then a hit when some value matches the unwanted list.
pub open spec fn category_issues(
    wanted_code: Seq<char>,
    unwanted_code: Seq<char>,
    label: Seq<char>,
    values: Seq<Seq<char>>,
    wanted: Seq<Seq<char>>,
    unwanted: Seq<Seq<char>>,
) -> Seq<(Seq<char>, Seq<char>)> {
    let miss: Seq<(Seq<char>, Seq<char>)> = if wanted.len() > 0 && !keys_meet(values, wanted) {
        seq![(wanted_code, include_miss_message(label))]
    } else {
        Seq::empty()
    };
    let hit: Seq<(Seq<char>, Seq<char>)> = if unwanted.len() > 0 && keys_meet(values, unwanted) {
        seq![(unwanted_code, exclude_hit_message(label))]
    } else {
        Seq::empty()
    };
    miss + hit
}

/// A track's values meet a list as soon as any one of them, wherever it
/// stands among the values, shares its grouping key with any entry of the
/// list. Then the include check raises no miss (when the two codes differ)
/// and the exclude check raises its hit. When the include list is not
/// empty and no value shares a key with it, the miss is raised; when no
/// value shares a key with the exclude list, no hit is.
pub proof fn law_category_any_value_matches(
    wanted_code: Seq<char>,
    unwanted_code: Seq<char>,
    label: Seq<char>,
    values: Seq<Seq<char>>,
    wanted: Seq<Seq<char>>,
    unwanted: Seq<Seq<char>>,
)
    ensures
        forall|i: int, j: int|
            0 <= i < values.len() && 0 <= j < wanted.len() && wanted_code != unwanted_code && group_key_of(
                Some(#[trigger] values[i]),
            ) == group_key_of(Some(#[trigger] wanted[j])) ==> forall|t: int|
                0 <= t < category_issues(wanted_code, unwanted_code, label, values, wanted, unwanted).len()
                    ==> (#[trigger] category_issues(wanted_code, unwanted_code, label, values, wanted, unwanted)[t]).0
                    != wanted_code,
        forall|i: int, j: int|
            0 <= i < values.len() && 0 <= j < unwanted.len() && group_key_of(Some(#[trigger] values[i]))
                == group_key_of(Some(#[trigger] unwanted[j])) ==> category_issues(
                wanted_code,
                unwanted_code,
                label,
                values,
                wanted,
                unwanted,
            ).contains((unwanted_code, exclude_hit_message(label))),
        wanted.len() > 0 && (forall|i: int, j: int|
            0 <= i < values.len() && 0 <= j < wanted.len() ==> group_key_of(Some(#[trigger] values[i]))
                != group_key_of(Some(#[trigger] wanted[j]))) ==> category_issues(
            wanted_code,
            unwanted_code,
            label,
            values,
            wanted,
            unwanted,
        ).contains((wanted_code, include_miss_message(label))),
        wanted_code != unwanted_code && (forall|i: int, j: int|
            0 <= i < values.len() && 0 <= j < unwanted.len() ==> group_key_of(Some(#[trigger] values[i]))
                != group_key_of(Some(#[trigger] unwanted[j]))) ==> forall|t: int|
            0 <= t < category_issues(wanted_code, unwanted_code, label, values, wanted, unwanted).len()
                ==> (#[trigger] category_issues(wanted_code, unwanted_code, label, values, wanted, unwanted)[t]).0
                != unwanted_code,
{
    let iss = category_issues(wanted_code, unwanted_code, label, values, wanted, unwanted);
    if keys_meet(values, unwanted) && unwanted.len() > 0 {
        assert(iss[iss.len() - 1] == (unwanted_code, exclude_hit_message(label)));
    }
    if wanted.len() > 0 && !keys_meet(values, wanted) {
        assert(iss[0] == (wanted_code, include_miss_message(label)));
    }
}

/// Whether some value of `values` and some of `list` share a grouping key.
fn keys_meet_exec(values: &Vec<String>, list: &Vec<String>) -> (r: bool)
    ensures
        r == keys_meet(values.deep_view(), list.deep_view()),
{
    let ghost a = values.deep_view();
    let ghost b = list.deep_view();
    let mut i: usize = 0;
    while i < values.len()
        invariant
            i <= values.len(),
            a == values.deep_view(),
            b == list.deep_view(),
            forall|x: int, y: int|
                0 <= x < i && 0 <= y < b.len() ==> group_key_of(Some(#[trigger] a[x])) != group_key_of(
                    Some(#[trigger] b[y]),
                ),
        decreases values.len() - i,
    {
        let ka = group_key(Some(values[i].as_str()));
        let mut j: usize = 0;
        while j < list.len()
            invariant
                i < values.len(),
                j <= list.len(),
                a == values.deep_view(),
                b == list.deep_view(),
                ka@ == group_key_of(Some(a[i as int])),
                forall|y: int| 0 <= y < j ==> ka@ != group_key_of(Some(#[trigger] b[y])),
            decreases list.len() - j,
        {
            let kb = group_key(Some(list[j].as_str()));
            if chars_eq(&chars_of(ka.as_str()), &chars_of(kb.as_str())) {
                assert(group_key_of(Some(a[i as int])) == group_key_of(Some(b[j as int])));
                return true;
            }
            j += 1;
        }
        i += 1;
    }
    false
}

/// Append the wanted/unwanted issues of a track's category values (see
/// [`category_issues`]).
pub fn check_categories(
    issues: &mut Vec<(String, String)>,
    wanted_code: &str,
    unwanted_code: &str,
    label: &str,
    track_values: &Vec<String>,
    wanted: &Vec<String>,
    unwanted: &Vec<String>,
)
    ensures
        final(issues)@.map_values(|p: (String, String)| (p.0@, p.1@)) == old(issues)@.map_values(
            |p: (String, String)| (p.0@, p.1@),
        ) + category_issues(
            wanted_code@,
            unwanted_code@,
            label@,
            track_values.deep_view(),
            wanted.deep_view(),
            unwanted.deep_view(),
        ),
{
    let ghost before = issues@.map_values(|p: (String, String)| (p.0@, p.1@));
    let ghost ci = category_issues(
        wanted_code@,
        unwanted_code@,
        label@,
        track_values.deep_view(),
        wanted.deep_view(),
        unwanted.deep_view(),
    );
    let l = chars_of(label);
    let miss = wanted.len() > 0 && !keys_meet_exec(track_values, wanted);
    if miss {
        let head = chars_of("track does not match an included ");
        proof {
            reveal_strlit("track does not match an included ");
            assert(head@ =~= seq![
                't', 'r', 'a', 'c', 'k', ' ', 'd', 'o', 'e', 's', ' ', 'n', 'o', 't', ' ', 'm', 'a',
                't', 'c', 'h', ' ', 'a', 'n', ' ', 'i', 'n', 'c', 'l', 'u', 'd', 'e', 'd', ' '
            ]);
        }
        let msg = concat(&head, &l);
        let entry = (string_of(&chars_of(wanted_code)), string_of(&msg));
        issues.push(entry);
        assert(issues@.map_values(|p: (String, String)| (p.0@, p.1@)) =~= before.push(
            (wanted_code@, include_miss_message(label@)),
        ));
    }
    let ghost mid = issues@.map_values(|p: (String, String)| (p.0@, p.1@));
    assert(mid =~= before + ci.take(if miss { 1int } else { 0int }));
    let hit = unwanted.len() > 0 && keys_meet_exec(track_values, unwanted);
    if hit {
        let head = chars_of("track matches an excluded ");
        proof {
            reveal_strlit("track matches an excluded ");
            assert(head@ =~= seq![
                't', 'r', 'a', 'c', 'k', ' ', 'm', 'a', 't', 'c', 'h', 'e', 's', ' ', 'a', 'n', ' ',
                'e', 'x', 'c', 'l', 'u', 'd', 'e', 'd', ' '
            ]);
        }
        let msg = concat(&head, &l);
        let entry = (string_of(&chars_of(unwanted_code)), string_of(&msg));
        issues.push(entry);
        assert(issues@.map_values(|p: (String, String)| (p.0@, p.1@)) =~= mid.push(
            (unwanted_code@, exclude_hit_message(label@)),
        ));
    }
    assert(issues@.map_values(|p: (String, String)| (p.0@, p.1@)) =~= before + ci);
}


/// The energy arc a preset's policy asks for: rise and fall for focus, rise
/// for party and workout, fall for chill, none for discovery, flat otherwise.
pub open spec fn preset_arc_of(preset: PlaylistPreset) -> PlaylistArc {
    match preset {
        PlaylistPreset::General => PlaylistArc::Flat,
        PlaylistPreset::Focus => PlaylistArc::RiseAndFall,
        PlaylistPreset::Party => PlaylistArc::Rise,
        PlaylistPreset::Workout => PlaylistArc::Rise,
        PlaylistPreset::Chill => PlaylistArc::Fall,
        PlaylistPreset::Discovery => PlaylistArc::NoArc,
    }
}

/// The energy arc of a preset (see [`preset_arc_of`]).
pub fn preset_arc(preset: PlaylistPreset) -> (r: PlaylistArc)
    ensures
        r == preset_arc_of(preset),
{
    match preset {
        PlaylistPreset::General => PlaylistArc::Flat,
        PlaylistPreset::Focus => PlaylistArc::RiseAndFall,
        PlaylistPreset::Party => PlaylistArc::Rise,
        PlaylistPreset::Workout => PlaylistArc::Rise,
        PlaylistPreset::Chill => PlaylistArc::Fall,
        PlaylistPreset::Discovery => PlaylistArc::NoArc,
    }
}

/// The familiarity a preset's policy prefers: avoided for focus and
/// discovery, preferred for party, neutral otherwise.
pub open spec fn preset_familiarity_of(preset: PlaylistPreset) -> FamiliarityPreference {
    match preset {
        PlaylistPreset::Focus => FamiliarityPreference::Avoid,
        PlaylistPreset::Discovery => FamiliarityPreference::Avoid,
        PlaylistPreset::Party => FamiliarityPreference::Prefer,
        _ => FamiliarityPreference::Neutral,
    }
}

/// The familiarity preference of a preset (see [`preset_familiarity_of`]).
pub fn preset_familiarity(preset: PlaylistPreset) -> (r: FamiliarityPreference)
    ensures
        r == preset_familiarity_of(preset),
{
    match preset {
        PlaylistPreset::Focus => FamiliarityPreference::Avoid,
        PlaylistPreset::Discovery => FamiliarityPreference::Avoid,
        PlaylistPreset::Party => FamiliarityPreference::Prefer,
        _ => FamiliarityPreference::Neutral,
    }
}

} // verus!
