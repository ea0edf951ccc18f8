//! Constrained selection: the checks a brief must pass, the intake of its
//! seeds, the duration-first fill under the diversity caps, and the tallies
//! of rejected candidates. Scores, durations and audio thresholds are
//! decided by the caller; what is decided here is which tracks may join.

use vstd::prelude::*;

use crate::cli::{signed_decimal, signed_decimal_chars};
use crate::audit::{distinct_keys, is_distinct_keys, issue_view, issues_view};
use crate::curation::{
    category_issues, check_categories, group_key, group_key_of, increment, song_key_of, within_caps,
    violates_artist_gap, violates_gap_of, AuditIssue, AuditSeverity, DiversityPolicy, KeyCounts,
    RelativeDirection, SeedRole, SeedSimilarityPreference,
};
use crate::derive::{
    count_occurrences, count_of, index_in, ints_of, lemma_count_le, lemma_last_index, position_of,
};
use crate::graph::pairs_view;
use crate::playlist::contains_chars;
use crate::text::{chars_eq, chars_of, concat, decimal, decimal_chars, string_of};

verus! {

/// What the caps and the lookups read of a candidate track.
pub struct CandidateKeys {
    pub id: String,
    pub artist_key: String,
    pub album_key: String,
    pub song_key: Option<String>,
}

/// A candidate as plain values: id, artist key, album key and song key (the
/// id when it belongs to no song).
pub open spec fn key_tuple(c: CandidateKeys) -> (Seq<char>, Seq<char>, Seq<char>, Seq<char>) {
    (
        c.id@,
        c.artist_key@,
        c.album_key@,
        song_key_of(
            match c.song_key {
                Some(s) => Some(s@),
                None => None,
            },
            c.id@,
        ),
    )
}

/// Candidates as plain values.
pub open spec fn key_tuples(cs: Seq<CandidateKeys>) -> Seq<(Seq<char>, Seq<char>, Seq<char>, Seq<char>)> {
    Seq::new(cs.len(), |i: int| key_tuple(cs[i]))
}

pub open spec fn ids_of(s: Seq<(Seq<char>, Seq<char>, Seq<char>, Seq<char>)>) -> Seq<Seq<char>> {
    Seq::new(s.len(), |i: int| s[i].0)
}

pub open spec fn artists_of(s: Seq<(Seq<char>, Seq<char>, Seq<char>, Seq<char>)>) -> Seq<Seq<char>> {
    Seq::new(s.len(), |i: int| s[i].1)
}

pub open spec fn albums_of(s: Seq<(Seq<char>, Seq<char>, Seq<char>, Seq<char>)>) -> Seq<Seq<char>> {
    Seq::new(s.len(), |i: int| s[i].2)
}

pub open spec fn songs_of(s: Seq<(Seq<char>, Seq<char>, Seq<char>, Seq<char>)>) -> Seq<Seq<char>> {
    Seq::new(s.len(), |i: int| s[i].3)
}

/// Track `c` may join `sel`: its artist, album and song (each when it has
/// one) are used fewer times than their caps.
pub open spec fn fits(
    sel: Seq<(Seq<char>, Seq<char>, Seq<char>, Seq<char>)>,
    c: (Seq<char>, Seq<char>, Seq<char>, Seq<char>),
    artist_cap: nat,
    album_cap: nat,
    song_cap: nat,
) -> bool {
    &&& (c.1.len() == 0 || count_of(artists_of(sel), c.1) < artist_cap)
    &&& (c.2.len() == 0 || count_of(albums_of(sel), c.2) < album_cap)
    &&& (c.3.len() == 0 || count_of(songs_of(sel), c.3) < song_cap)
}

/// The tracks of `seeds` followed by the candidates at `chosen`.
pub open spec fn selected_with(
    seeds: Seq<(Seq<char>, Seq<char>, Seq<char>, Seq<char>)>,
    cands: Seq<(Seq<char>, Seq<char>, Seq<char>, Seq<char>)>,
    chosen: Seq<int>,
) -> Seq<(Seq<char>, Seq<char>, Seq<char>, Seq<char>)> {
    seeds + Seq::new(chosen.len(), |i: int| cands[chosen[i]])
}

/// The positions of the candidates that the duration-first fill takes from
/// the first `n`, in the order given: after the seeds, each candidate joins
/// unless the target is reached, its id is already in, or a cap is full.
pub open spec fn fill_chosen(
    seeds: Seq<(Seq<char>, Seq<char>, Seq<char>, Seq<char>)>,
    cands: Seq<(Seq<char>, Seq<char>, Seq<char>, Seq<char>)>,
    n: int,
    target: nat,
    artist_cap: nat,
    album_cap: nat,
    song_cap: nat,
) -> Seq<int>
    decreases n,
{
    if n <= 0 {
        Seq::empty()
    } else {
        let ch = fill_chosen(seeds, cands, n - 1, target, artist_cap, album_cap, song_cap);
        let s = selected_with(seeds, cands, ch);
        let c = cands[n - 1];
        if s.len() == target || ids_of(s).contains(c.0) || !fits(s, c, artist_cap, album_cap, song_cap) {
            ch
        } else {
            ch.push(n - 1)
        }
    }
}

/// The larger of two counts.
pub open spec fn larger(a: nat, b: nat) -> nat {
    if a >= b {
        a
    } else {
        b
    }
}

/// What the fill keeps: it stops at the target (when the seeds do not
/// already pass it), no key it adds goes over its cap (beyond what the
/// seeds alone use), and it never takes an id already in.
pub open spec fn fill_keeps(
    seeds: Seq<(Seq<char>, Seq<char>, Seq<char>, Seq<char>)>,
    s: Seq<(Seq<char>, Seq<char>, Seq<char>, Seq<char>)>,
    target: nat,
    artist_cap: nat,
    album_cap: nat,
    song_cap: nat,
) -> bool {
    &&& seeds.len() <= target ==> s.len() <= target
    &&& s.len() >= seeds.len()
    &&& forall|k: Seq<char>| k.len() > 0 ==> #[trigger] count_of(artists_of(s), k) <= larger(
        artist_cap,
        count_of(artists_of(seeds), k),
    )
    &&& forall|k: Seq<char>| k.len() > 0 ==> #[trigger] count_of(albums_of(s), k) <= larger(
        album_cap,
        count_of(albums_of(seeds), k),
    )
    &&& forall|k: Seq<char>| k.len() > 0 ==> #[trigger] count_of(songs_of(s), k) <= larger(
        song_cap,
        count_of(songs_of(seeds), k),
    )
    &&& forall|i: int, j: int| seeds.len() <= i < s.len() && 0 <= j < i ==> #[trigger] s[i].0 != #[trigger] s[j].0
}

/// The duration-first fill stops at the target, keeps every cap the seeds
/// keep, and adds no id twice nor one of a seed.
pub proof fn law_fill_keeps_caps_and_target(
    seeds: Seq<(Seq<char>, Seq<char>, Seq<char>, Seq<char>)>,
    cands: Seq<(Seq<char>, Seq<char>, Seq<char>, Seq<char>)>,
    n: int,
    target: nat,
    artist_cap: nat,
    album_cap: nat,
    song_cap: nat,
)
    requires
        0 <= n <= cands.len(),
    ensures
        fill_keeps(
            seeds,
            selected_with(seeds, cands, fill_chosen(seeds, cands, n, target, artist_cap, album_cap, song_cap)),
            target,
            artist_cap,
            album_cap,
            song_cap,
        ),
    decreases n,
{
    let ch = fill_chosen(seeds, cands, n, target, artist_cap, album_cap, song_cap);
    if n == 0 {
        assert(selected_with(seeds, cands, ch) =~= seeds);
    } else {
        law_fill_keeps_caps_and_target(seeds, cands, n - 1, target, artist_cap, album_cap, song_cap);
        let ch0 = fill_chosen(seeds, cands, n - 1, target, artist_cap, album_cap, song_cap);
        let s0 = selected_with(seeds, cands, ch0);
        let c = cands[n - 1];
        if ch != ch0 {
            let s = selected_with(seeds, cands, ch);
            assert(s =~= s0.push(c));
            assert(artists_of(s) =~= artists_of(s0).push(c.1));
            assert(albums_of(s) =~= albums_of(s0).push(c.2));
            assert(songs_of(s) =~= songs_of(s0).push(c.3));
            assert forall|k: Seq<char>| k.len() > 0 implies #[trigger] count_of(artists_of(s), k) <= larger(
                artist_cap,
                count_of(artists_of(seeds), k),
            ) by {
                lemma_count_push(artists_of(s0), c.1, k);
            }
            assert forall|k: Seq<char>| k.len() > 0 implies #[trigger] count_of(albums_of(s), k) <= larger(
                album_cap,
                count_of(albums_of(seeds), k),
            ) by {
                lemma_count_push(albums_of(s0), c.2, k);
            }
            assert forall|k: Seq<char>| k.len() > 0 implies #[trigger] count_of(songs_of(s), k) <= larger(
                song_cap,
                count_of(songs_of(seeds), k),
            ) by {
                lemma_count_push(songs_of(s0), c.3, k);
            }
            assert forall|i: int, j: int| seeds.len() <= i < s.len() && 0 <= j < i implies #[trigger] s[i].0
                != #[trigger] s[j].0 by {
                if i == s.len() - 1 {
                    assert(ids_of(s0)[j] == s0[j].0);
                }
            }
        }
    }
}

/// The use counts of `counts` agree with the non-empty keys of `keys`, and
/// the empty key is never counted.
pub open spec fn counts_agree(counts: KeyCounts, keys: Seq<Seq<char>>) -> bool {
    &&& forall|k: Seq<char>| k.len() > 0 ==> #[trigger] counts.count(k) == count_of(keys, k)
    &&& counts.count(Seq::empty()) == 0
}

proof fn lemma_count_push(s: Seq<Seq<char>>, x: Seq<char>, k: Seq<char>)
    ensures
        count_of(s.push(x), k) == count_of(s, k) + if x == k {
            1nat
        } else {
            0nat
        },
{
    assert(s.push(x).drop_last() =~= s);
}

/// The song key of a candidate, as the caps read it.
fn song_key_ref(c: &CandidateKeys) -> (r: &str)
    ensures
        r@ == key_tuple(*c).3,
{
    match &c.song_key {
        Some(s) => s.as_str(),
        None => c.id.as_str(),
    }
}

/// Counts the uses of `c` in `counts`, keeping them in step with `sel`.
fn count_track(
    c: &CandidateKeys,
    artists: &mut KeyCounts,
    albums: &mut KeyCounts,
    songs: &mut KeyCounts,
    sel: Ghost<Seq<(Seq<char>, Seq<char>, Seq<char>, Seq<char>)>>,
)
    requires
        counts_agree(*old(artists), artists_of(sel@)),
        counts_agree(*old(albums), albums_of(sel@)),
        counts_agree(*old(songs), songs_of(sel@)),
        sel@.len() < usize::MAX,
    ensures
        counts_agree(*final(artists), artists_of(sel@.push(key_tuple(*c)))),
        counts_agree(*final(albums), albums_of(sel@.push(key_tuple(*c)))),
        counts_agree(*final(songs), songs_of(sel@.push(key_tuple(*c)))),
{
    let ghost s = sel@;
    let ghost t = key_tuple(*c);
    let ghost s2 = s.push(t);
    assert(artists_of(s2) =~= artists_of(s).push(t.1));
    assert(albums_of(s2) =~= albums_of(s).push(t.2));
    assert(songs_of(s2) =~= songs_of(s).push(t.3));
    proof {
        lemma_count_le(artists_of(s), t.1);
        lemma_count_le(albums_of(s), t.2);
        lemma_count_le(songs_of(s), t.3);
    }
    let sk = song_key_ref(c);
    let ghost a0 = *artists;
    let ghost b0 = *albums;
    let ghost c0 = *songs;
    proof {
        if t.1.len() == 0 {
            assert(t.1 =~= Seq::<char>::empty());
        } else {
            assert(a0.count(t.1) == count_of(artists_of(s), t.1));
        }
        if t.2.len() == 0 {
            assert(t.2 =~= Seq::<char>::empty());
        } else {
            assert(b0.count(t.2) == count_of(albums_of(s), t.2));
        }
        if t.3.len() == 0 {
            assert(t.3 =~= Seq::<char>::empty());
        } else {
            assert(c0.count(t.3) == count_of(songs_of(s), t.3));
        }
    }
    increment(c.artist_key.as_str(), artists);
    increment(c.album_key.as_str(), albums);
    increment(sk, songs);
    proof {
        assert(Seq::<char>::empty().len() == 0);
        assert forall|k: Seq<char>| k.len() > 0 implies #[trigger] artists.count(k) == count_of(
            artists_of(s2),
            k,
        ) by {
            lemma_count_push(artists_of(s), t.1, k);
            assert(a0.count(k) == count_of(artists_of(s), k));
        }
        assert forall|k: Seq<char>| k.len() > 0 implies #[trigger] albums.count(k) == count_of(
            albums_of(s2),
            k,
        ) by {
            lemma_count_push(albums_of(s), t.2, k);
            assert(b0.count(k) == count_of(albums_of(s), k));
        }
        assert forall|k: Seq<char>| k.len() > 0 implies #[trigger] songs.count(k) == count_of(
            songs_of(s2),
            k,
        ) by {
            lemma_count_push(songs_of(s), t.3, k);
            assert(c0.count(k) == count_of(songs_of(s), k));
        }
    }
}

/// Whether `c` may join the selection whose counts these are.
fn track_fits(
    c: &CandidateKeys,
    artist_cap: usize,
    album_cap: usize,
    song_cap: usize,
    artists: &KeyCounts,
    albums: &KeyCounts,
    songs: &KeyCounts,
    sel: Ghost<Seq<(Seq<char>, Seq<char>, Seq<char>, Seq<char>)>>,
) -> (r: bool)
    requires
        counts_agree(*artists, artists_of(sel@)),
        counts_agree(*albums, albums_of(sel@)),
        counts_agree(*songs, songs_of(sel@)),
    ensures
        r == fits(sel@, key_tuple(*c), artist_cap as nat, album_cap as nat, song_cap as nat),
{
    let ghost t = key_tuple(*c);
    proof {
        if t.1.len() > 0 {
            assert(artists.count(t.1) == count_of(artists_of(sel@), t.1));
        }
        if t.2.len() > 0 {
            assert(albums.count(t.2) == count_of(albums_of(sel@), t.2));
        }
        if t.3.len() > 0 {
            assert(songs.count(t.3) == count_of(songs_of(sel@), t.3));
        }
    }
    let sk = match &c.song_key {
        Some(s) => Some(s.as_str()),
        None => None,
    };
    within_caps(
        c.artist_key.as_str(),
        c.album_key.as_str(),
        sk,
        c.id.as_str(),
        artist_cap,
        album_cap,
        song_cap,
        artists,
        albums,
        songs,
    )
}

/// The duration-first fallback fill: after the seeds, takes the candidates
/// (already ordered longest first by the caller) that keep every cap,
/// skipping ids already in, until `target_tracks` tracks are in. Returns
/// the positions of the candidates taken, in order.
pub fn duration_first_fill(
    seeds: &Vec<CandidateKeys>,
    candidates: &Vec<CandidateKeys>,
    target_tracks: usize,
    artist_cap: usize,
    album_cap: usize,
    song_cap: usize,
) -> (r: Vec<usize>)
    requires
        seeds.len() + candidates.len() < usize::MAX,
    ensures
        r@.map_values(|i: usize| i as int) == fill_chosen(
            key_tuples(seeds@),
            key_tuples(candidates@),
            candidates.len() as int,
            target_tracks as nat,
            artist_cap as nat,
            album_cap as nat,
            song_cap as nat,
        ),
{
    let ghost st = key_tuples(seeds@);
    let ghost ct = key_tuples(candidates@);
    let mut ids: Vec<String> = Vec::new();
    let mut artists = KeyCounts::new();
    let mut albums = KeyCounts::new();
    let mut songs = KeyCounts::new();
    proof {
        assert forall|k: Seq<char>| k.len() > 0 implies #[trigger] artists.count(k) == count_of(
            artists_of(Seq::empty()),
            k,
        ) by {}
        assert forall|k: Seq<char>| k.len() > 0 implies #[trigger] albums.count(k) == count_of(
            albums_of(Seq::empty()),
            k,
        ) by {}
        assert forall|k: Seq<char>| k.len() > 0 implies #[trigger] songs.count(k) == count_of(
            songs_of(Seq::empty()),
            k,
        ) by {}
    }
    let mut i: usize = 0;
    while i < seeds.len()
        invariant
            i <= seeds.len(),
            st == key_tuples(seeds@),
            seeds.len() + candidates.len() < usize::MAX,
            ids.deep_view() == ids_of(st.take(i as int)),
            counts_agree(artists, artists_of(st.take(i as int))),
            counts_agree(albums, albums_of(st.take(i as int))),
            counts_agree(songs, songs_of(st.take(i as int))),
        decreases seeds.len() - i,
    {
        let ghost pre = st.take(i as int);
        assert(st.take(i as int + 1) =~= pre.push(key_tuple(seeds@[i as int])));
        count_track(&seeds[i], &mut artists, &mut albums, &mut songs, Ghost(pre));
        let ghost d0 = ids.deep_view();
        ids.push(string_of(&chars_of(seeds[i].id.as_str())));
        assert(ids.deep_view() =~= d0.push(seeds@[i as int].id@));
        assert(ids_of(st.take(i as int + 1)) =~= ids_of(pre).push(seeds@[i as int].id@));
        i += 1;
    }
    assert(st.take(seeds.len() as int) =~= st);
    let mut chosen: Vec<usize> = Vec::new();
    let mut len: usize = seeds.len();
    let mut j: usize = 0;
    while j < candidates.len()
        invariant
            j <= candidates.len(),
            st == key_tuples(seeds@),
            ct == key_tuples(candidates@),
            seeds.len() + candidates.len() < usize::MAX,
            chosen@.map_values(|t: usize| t as int) == fill_chosen(
                st,
                ct,
                j as int,
                target_tracks as nat,
                artist_cap as nat,
                album_cap as nat,
                song_cap as nat,
            ),
            chosen.len() <= j,
            len == seeds.len() + chosen.len(),
            ids.deep_view() == ids_of(selected_with(st, ct, chosen@.map_values(|t: usize| t as int))),
            counts_agree(artists, artists_of(selected_with(st, ct, chosen@.map_values(|t: usize| t as int)))),
            counts_agree(albums, albums_of(selected_with(st, ct, chosen@.map_values(|t: usize| t as int)))),
            counts_agree(songs, songs_of(selected_with(st, ct, chosen@.map_values(|t: usize| t as int)))),
        decreases candidates.len() - j,
    {
        let ghost ch = chosen@.map_values(|t: usize| t as int);
        let ghost s = selected_with(st, ct, ch);
        let c = &candidates[j];
        assert(ct[j as int] == key_tuple(*c));
        let id = chars_of(c.id.as_str());
        let take = len != target_tracks && !contains_chars(&ids, &id) && track_fits(
            c,
            artist_cap,
            album_cap,
            song_cap,
            &artists,
            &albums,
            &songs,
            Ghost(s),
        );
        if take {
            count_track(c, &mut artists, &mut albums, &mut songs, Ghost(s));
            let ghost d0 = ids.deep_view();
            ids.push(string_of(&id));
            chosen.push(j);
            proof {
                let ch2 = chosen@.map_values(|t: usize| t as int);
                assert(ch2 =~= ch.push(j as int));
                assert(selected_with(st, ct, ch2) =~= s.push(ct[j as int]));
                assert(ids.deep_view() =~= d0.push(id@));
                assert(ids_of(s.push(ct[j as int])) =~= ids_of(s).push(id@));
            }
            len += 1;
        }
        j += 1;
    }
    chosen
}


// ───────────────────────────── eligibility ─────────────────────────────

/// The eligibility rules of a policy that do not compare audio numbers.
pub struct EligibilityRules {
    pub require_music: bool,
    pub require_canonical: bool,
    pub allow_low_quality: bool,
    pub include_artists: Vec<String>,
    pub exclude_artists: Vec<String>,
    pub include_genres: Vec<String>,
    pub exclude_genres: Vec<String>,
    pub include_styles: Vec<String>,
    pub exclude_styles: Vec<String>,
    pub include_decades: Vec<String>,
    pub exclude_decades: Vec<String>,
    pub min_year: Option<i64>,
    pub max_year: Option<i64>,
}

/// What eligibility reads of a track, besides its audio numbers.
pub struct TrackFacts {
    pub is_music: bool,
    pub is_canonical: bool,
    pub quality_tier: Option<String>,
    pub artist: Option<String>,
    pub genre_keys: Vec<String>,
    pub style_keys: Vec<String>,
    pub decade_keys: Vec<String>,
    pub year: Option<i64>,
}

/// A one-issue list when `cond` holds, else none.
pub open spec fn issue_if(cond: bool, code: Seq<char>, message: Seq<char>) -> Seq<(Seq<char>, Seq<char>)> {
    if cond {
        seq![(code, message)]
    } else {
        Seq::empty()
    }
}

/// The year issues of a track.
pub open spec fn year_issues(year: Option<i64>, min_year: Option<i64>, max_year: Option<i64>) -> Seq<(Seq<char>, Seq<char>)> {
    match year {
        Some(y) => issue_if(
            min_year is Some && y < min_year->0,
            "year_too_early"@,
            "year "@ + signed_decimal(y as int) + " is before the minimum"@,
        ) + issue_if(
            max_year is Some && y > max_year->0,
            "year_too_late"@,
            "year "@ + signed_decimal(y as int) + " is after the maximum"@,
        ),
        None => issue_if(
            min_year is Some || max_year is Some,
            "year_missing"@,
            "track has no usable original/file year"@,
        ),
    }
}

/// The tier of a track is the low one.
pub open spec fn is_low_tier(tier: Option<String>) -> bool {
    match tier {
        Some(t) => t@ == "low"@,
        None => false,
    }
}

/// The music, canonical and quality checks.
pub open spec fn basic_issues_of(rules: EligibilityRules, track: TrackFacts) -> Seq<(Seq<char>, Seq<char>)> {
    issue_if(rules.require_music && !track.is_music, "non_music"@, "track is not classified as music"@)
        + issue_if(
        rules.require_canonical && !track.is_canonical,
        "non_canonical"@,
        "track is not the canonical recording"@,
    ) + issue_if(
        !rules.allow_low_quality && is_low_tier(track.quality_tier),
        "low_quality"@,
        "track is in the low quality tier"@,
    )
}

/// The artist, genre, style and decade filters.
pub open spec fn category_checks_of(rules: EligibilityRules, track: TrackFacts) -> Seq<(Seq<char>, Seq<char>)> {
    category_issues(
        "artist_not_included"@,
        "artist_excluded"@,
        "artist"@,
        seq![
            group_key_of(
                match track.artist {
                    Some(a) => Some(a@),
                    None => None,
                },
            ),
        ],
        rules.include_artists.deep_view(),
        rules.exclude_artists.deep_view(),
    ) + category_issues(
        "genre_not_included"@,
        "genre_excluded"@,
        "genre"@,
        track.genre_keys.deep_view(),
        rules.include_genres.deep_view(),
        rules.exclude_genres.deep_view(),
    ) + category_issues(
        "style_not_included"@,
        "style_excluded"@,
        "style"@,
        track.style_keys.deep_view(),
        rules.include_styles.deep_view(),
        rules.exclude_styles.deep_view(),
    ) + category_issues(
        "decade_not_included"@,
        "decade_excluded"@,
        "decade"@,
        track.decade_keys.deep_view(),
        rules.include_decades.deep_view(),
        rules.exclude_decades.deep_view(),
    )
}

/// Why a track is not eligible under `rules`, in the order the checks run:
/// music, canonical, quality, then the audio checks (`measured`, decided by
/// the caller), then artist, genre, style and decade filters, then the year.
pub open spec fn eligibility_of(
    rules: EligibilityRules,
    track: TrackFacts,
    measured: Seq<(Seq<char>, Seq<char>)>,
) -> Seq<(Seq<char>, Seq<char>)> {
    basic_issues_of(rules, track) + measured + category_checks_of(rules, track) + year_issues(
        track.year,
        rules.min_year,
        rules.max_year,
    )
}

/// A dated track outside the year range of the rules is not eligible,
/// whatever its other checks say: a year after the maximum raises
/// `year_too_late`, a year before the minimum `year_too_early`; an undated
/// track under a year range raises `year_missing`. The year checks raise
/// nothing exactly when the track is dated within the range, or the rules
/// set no range.
pub proof fn law_year_outside_range_is_ineligible(
    rules: EligibilityRules,
    track: TrackFacts,
    measured: Seq<(Seq<char>, Seq<char>)>,
)
    ensures
        track.year is Some && rules.max_year is Some && track.year->0 > rules.max_year->0 ==> exists|t: int|
            0 <= t < eligibility_of(rules, track, measured).len() && (#[trigger] eligibility_of(
                rules,
                track,
                measured,
            )[t]).0 == "year_too_late"@,
        track.year is Some && rules.min_year is Some && track.year->0 < rules.min_year->0 ==> exists|t: int|
            0 <= t < eligibility_of(rules, track, measured).len() && (#[trigger] eligibility_of(
                rules,
                track,
                measured,
            )[t]).0 == "year_too_early"@,
        track.year is None && (rules.min_year is Some || rules.max_year is Some) ==> exists|t: int|
            0 <= t < eligibility_of(rules, track, measured).len() && (#[trigger] eligibility_of(
                rules,
                track,
                measured,
            )[t]).0 == "year_missing"@,
        (year_issues(track.year, rules.min_year, rules.max_year).len() == 0) <==> (match track.year {
            Some(y) => (rules.min_year is None || y >= rules.min_year->0) && (rules.max_year is None || y
                <= rules.max_year->0),
            None => rules.min_year is None && rules.max_year is None,
        }),
{
    let pre = basic_issues_of(rules, track) + measured + category_checks_of(rules, track);
    let ys = year_issues(track.year, rules.min_year, rules.max_year);
    let el = eligibility_of(rules, track, measured);
    assert(el == pre + ys);
    if ys.len() > 0 {
        assert(el[el.len() - 1] == ys[ys.len() - 1]);
        assert(el[pre.len() as int] == ys[0]);
    }
}

/// Appends `(code, message)`.
fn push_issue(issues: &mut Vec<(String, String)>, code: &str, message: &[char])
    ensures
        pairs_view(final(issues)@) == pairs_view(old(issues)@).push((code@, message@)),
{
    let ghost before = pairs_view(issues@);
    issues.push((string_of(&chars_of(code)), string_of(message)));
    assert(pairs_view(issues@) =~= before.push((code@, message@)));
}

/// Appends the pairs of `more`.
fn append_pairs(issues: &mut Vec<(String, String)>, more: &Vec<(String, String)>)
    ensures
        pairs_view(final(issues)@) == pairs_view(old(issues)@) + pairs_view(more@),
{
    let ghost before = pairs_view(issues@);
    let mut i: usize = 0;
    while i < more.len()
        invariant
            i <= more.len(),
            pairs_view(issues@) == before + pairs_view(more@).take(i as int),
        decreases more.len() - i,
    {
        let ghost o0 = pairs_view(issues@);
        let p = (string_of(&chars_of(more[i].0.as_str())), string_of(&chars_of(more[i].1.as_str())));
        issues.push(p);
        assert(pairs_view(issues@) =~= o0.push(pairs_view(more@)[i as int]));
        assert(pairs_view(more@).take(i as int + 1) =~= pairs_view(more@).take(i as int).push(
            pairs_view(more@)[i as int],
        ));
        i += 1;
    }
    assert(pairs_view(more@).take(more.len() as int) =~= pairs_view(more@));
}

/// Appends a category check (see [`check_categories`]).
fn push_categories(
    issues: &mut Vec<(String, String)>,
    wanted_code: &str,
    unwanted_code: &str,
    label: &str,
    values: &Vec<String>,
    wanted: &Vec<String>,
    unwanted: &Vec<String>,
)
    ensures
        pairs_view(final(issues)@) == pairs_view(old(issues)@) + category_issues(
            wanted_code@,
            unwanted_code@,
            label@,
            values.deep_view(),
            wanted.deep_view(),
            unwanted.deep_view(),
        ),
{
    let ghost before = issues@;
    assert(pairs_view(before) =~= before.map_values(|p: (String, String)| (p.0@, p.1@)));
    check_categories(issues, wanted_code, unwanted_code, label, values, wanted, unwanted);
    assert(pairs_view(issues@) =~= issues@.map_values(|p: (String, String)| (p.0@, p.1@)));
}

fn basic_issues(rules: &EligibilityRules, track: &TrackFacts) -> (r: Vec<(String, String)>)
    ensures
        pairs_view(r@) == basic_issues_of(*rules, *track),
{
    let mut out: Vec<(String, String)> = Vec::new();
    assert(pairs_view(out@) =~= Seq::<(Seq<char>, Seq<char>)>::empty());
    if rules.require_music && !track.is_music {
        push_issue(&mut out, "non_music", &chars_of("track is not classified as music"));
    }
    let ghost a = pairs_view(out@);
    if rules.require_canonical && !track.is_canonical {
        push_issue(&mut out, "non_canonical", &chars_of("track is not the canonical recording"));
    }
    let ghost b = pairs_view(out@);
    let low = match &track.quality_tier {
        Some(t) => chars_eq(&chars_of(t.as_str()), &chars_of("low")),
        None => false,
    };
    if !rules.allow_low_quality && low {
        push_issue(&mut out, "low_quality", &chars_of("track is in the low quality tier"));
    }
    out
}

fn category_checks(rules: &EligibilityRules, track: &TrackFacts) -> (r: Vec<(String, String)>)
    ensures
        pairs_view(r@) == category_checks_of(*rules, *track),
{
    let mut out: Vec<(String, String)> = Vec::new();
    assert(pairs_view(out@) =~= Seq::<(Seq<char>, Seq<char>)>::empty());
    let artist_key = group_key(
        match &track.artist {
            Some(a) => Some(a.as_str()),
            None => None,
        },
    );
    let artist_values = vec![artist_key];
    assert(artist_values.deep_view() =~= seq![
        group_key_of(
            match track.artist {
                Some(a) => Some(a@),
                None => None,
            },
        ),
    ]);
    push_categories(
        &mut out,
        "artist_not_included",
        "artist_excluded",
        "artist",
        &artist_values,
        &rules.include_artists,
        &rules.exclude_artists,
    );
    push_categories(
        &mut out,
        "genre_not_included",
        "genre_excluded",
        "genre",
        &track.genre_keys,
        &rules.include_genres,
        &rules.exclude_genres,
    );
    push_categories(
        &mut out,
        "style_not_included",
        "style_excluded",
        "style",
        &track.style_keys,
        &rules.include_styles,
        &rules.exclude_styles,
    );
    push_categories(
        &mut out,
        "decade_not_included",
        "decade_excluded",
        "decade",
        &track.decade_keys,
        &rules.include_decades,
        &rules.exclude_decades,
    );
    assert(pairs_view(out@) =~= category_checks_of(*rules, *track));
    out
}

fn year_check(year: Option<i64>, min_year: Option<i64>, max_year: Option<i64>) -> (r: Vec<(String, String)>)
    ensures
        pairs_view(r@) == year_issues(year, min_year, max_year),
{
    let mut out: Vec<(String, String)> = Vec::new();
    assert(pairs_view(out@) =~= Seq::<(Seq<char>, Seq<char>)>::empty());
    match year {
        Some(y) => {
            let early = match min_year {
                Some(m) => y < m,
                None => false,
            };
            if early {
                let msg = concat(&concat(&chars_of("year "), &signed_decimal_chars(y)), &chars_of(" is before the minimum"));
                push_issue(&mut out, "year_too_early", &msg);
            }
            let late = match max_year {
                Some(m) => y > m,
                None => false,
            };
            if late {
                let msg = concat(&concat(&chars_of("year "), &signed_decimal_chars(y)), &chars_of(" is after the maximum"));
                push_issue(&mut out, "year_too_late", &msg);
            }
        },
        None => {
            if min_year.is_some() || max_year.is_some() {
                push_issue(&mut out, "year_missing", &chars_of("track has no usable original/file year"));
            }
        },
    }
    assert(pairs_view(out@) =~= year_issues(year, min_year, max_year));
    out
}

/// The reasons a track is not eligible (none when it is); `measured` holds
/// the outcome of the audio checks, which come after the quality check.
pub fn eligibility_issues(rules: &EligibilityRules, track: &TrackFacts, measured: Vec<(String, String)>) -> (r: Vec<(
    String,
    String,
)>)
    ensures
        pairs_view(r@) == eligibility_of(*rules, *track, pairs_view(measured@)),
{
    let mut out = basic_issues(rules, track);
    append_pairs(&mut out, &measured);
    let cats = category_checks(rules, track);
    append_pairs(&mut out, &cats);
    let years = year_check(track.year, rules.min_year, rules.max_year);
    append_pairs(&mut out, &years);
    out
}

// ───────────────────────────── the brief and its seeds ─────────────────────────────

/// An error issue as plain values.
pub open spec fn error_view(code: Seq<char>, message: Seq<char>) -> (AuditSeverity, Seq<char>, Seq<char>, Seq<usize>) {
    (AuditSeverity::Error, code, message, Seq::empty())
}

/// An error issue with the given code and message and no positions.
fn error_with(code: &str, message: &[char]) -> (r: AuditIssue)
    ensures
        issue_view(r) == error_view(code@, message@),
{
    let r = AuditIssue {
        severity: AuditSeverity::Error,
        code: string_of(&chars_of(code)),
        message: string_of(message),
        positions: Vec::new(),
    };
    assert(r.positions@ =~= Seq::<usize>::empty());
    r
}

/// Appends an error issue.
fn push_error(issues: &mut Vec<AuditIssue>, code: &str, message: &[char])
    ensures
        issues_view(final(issues)@) == issues_view(old(issues)@).push(error_view(code@, message@)),
{
    let ghost before = issues_view(issues@);
    issues.push(error_with(code, message));
    assert(issues_view(issues@) =~= before.push(error_view(code@, message@)));
}

/// Some seed-relative target is set: a similarity preference or minimum, or
/// a direction for energy, arousal, tension or vocalness.
pub fn seed_directives_active(
    seed_similarity: SeedSimilarityPreference,
    has_min_seed_similarity: bool,
    relative_energy: RelativeDirection,
    relative_arousal: RelativeDirection,
    relative_tension: RelativeDirection,
    relative_vocalness: RelativeDirection,
) -> (r: bool)
    ensures
        r == (seed_similarity != SeedSimilarityPreference::Neutral || has_min_seed_similarity
            || relative_energy != RelativeDirection::Any || relative_arousal != RelativeDirection::Any
            || relative_tension != RelativeDirection::Any || relative_vocalness != RelativeDirection::Any),
{
    seed_similarity != SeedSimilarityPreference::Neutral || has_min_seed_similarity || relative_energy
        != RelativeDirection::Any || relative_arousal != RelativeDirection::Any || relative_tension
        != RelativeDirection::Any || relative_vocalness != RelativeDirection::Any
}

/// The seeds will be references for relative targets.
pub open spec fn is_reference_role(role: SeedRole) -> bool {
    role == SeedRole::Reference || role == SeedRole::PinnedAndReference
}

/// The errors of a brief before any track is looked at: a zero target, more
/// pinned seeds than the target, seed-relative targets without reference
/// seeds, and a zero diversity cap.
pub open spec fn brief_issues_of(
    target_tracks: nat,
    seed_count: nat,
    role: SeedRole,
    directives_active: bool,
    policy: DiversityPolicy,
) -> Seq<(AuditSeverity, Seq<char>, Seq<char>, Seq<usize>)> {
    (if target_tracks == 0 {
        seq![error_view("invalid_target"@, "target_tracks must be greater than zero"@)]
    } else {
        Seq::empty()
    }) + (if role != SeedRole::Reference && seed_count > target_tracks {
        seq![
            error_view(
                "too_many_seeds"@,
                decimal(seed_count) + " seeds exceed the target of "@ + decimal(target_tracks) + " tracks"@,
            ),
        ]
    } else {
        Seq::empty()
    }) + (if directives_active && !is_reference_role(role) {
        seq![
            error_view(
                "seed_target_without_reference"@,
                "seed-relative targets require seed_role reference or pinned_and_reference"@,
            ),
        ]
    } else {
        Seq::empty()
    }) + (if policy.max_per_artist == 0 || policy.max_per_album == 0 || policy.max_per_song == 0 {
        seq![error_view("invalid_policy"@, "diversity caps must be greater than zero"@)]
    } else {
        Seq::empty()
    })
}

/// The errors of a brief with `seed_count` seeds (see [`brief_issues_of`]).
pub fn brief_issues(
    target_tracks: usize,
    seed_count: usize,
    role: SeedRole,
    directives_active: bool,
    policy: DiversityPolicy,
) -> (r: Vec<AuditIssue>)
    ensures
        issues_view(r@) == brief_issues_of(
            target_tracks as nat,
            seed_count as nat,
            role,
            directives_active,
            policy,
        ),
{
    let mut out: Vec<AuditIssue> = Vec::new();
    assert(issues_view(out@) =~= Seq::<(AuditSeverity, Seq<char>, Seq<char>, Seq<usize>)>::empty());
    if target_tracks == 0 {
        push_error(&mut out, "invalid_target", &chars_of("target_tracks must be greater than zero"));
    }
    let ghost a = issues_view(out@);
    if role != SeedRole::Reference && seed_count > target_tracks {
        let msg = concat(
            &concat(
                &concat(&decimal_chars(seed_count as u64), &chars_of(" seeds exceed the target of ")),
                &decimal_chars(target_tracks as u64),
            ),
            &chars_of(" tracks"),
        );
        push_error(&mut out, "too_many_seeds", &msg);
    }
    let ghost b = issues_view(out@);
    if directives_active && !(role == SeedRole::Reference || role == SeedRole::PinnedAndReference) {
        push_error(
            &mut out,
            "seed_target_without_reference",
            &chars_of("seed-relative targets require seed_role reference or pinned_and_reference"),
        );
    }
    let ghost c = issues_view(out@);
    if policy.max_per_artist == 0 || policy.max_per_album == 0 || policy.max_per_song == 0 {
        push_error(&mut out, "invalid_policy", &chars_of("diversity caps must be greater than zero"));
    }
    out
}

/// The candidates at positions `sel`.
pub open spec fn picked(
    tv: Seq<(Seq<char>, Seq<char>, Seq<char>, Seq<char>)>,
    sel: Seq<int>,
) -> Seq<(Seq<char>, Seq<char>, Seq<char>, Seq<char>)> {
    Seq::new(sel.len(), |i: int| tv[sel[i]])
}

/// Per-track issue lists as plain values.
pub open spec fn issue_lists_view(e: Seq<Vec<(String, String)>>) -> Seq<Seq<(Seq<char>, Seq<char>)>> {
    Seq::new(e.len(), |i: int| pairs_view(e[i]@))
}

/// The intake of the first `n` seeds, as (the positions of the pinned
/// seeds taken, the positions of the reference seeds, the errors): a seed
/// met before is a duplicate; one whose id no track has is missing; a found
/// seed is a reference unless the role is pinned only; a pinned seed must
/// be eligible (else its first eligibility issue is reported) and keep the
/// diversity caps.
pub open spec fn intake_of(
    seed_ids: Seq<Seq<char>>,
    tv: Seq<(Seq<char>, Seq<char>, Seq<char>, Seq<char>)>,
    elig: Seq<Seq<(Seq<char>, Seq<char>)>>,
    role: SeedRole,
    artist_cap: nat,
    album_cap: nat,
    song_cap: nat,
    n: int,
) -> (Seq<int>, Seq<int>, Seq<(AuditSeverity, Seq<char>, Seq<char>, Seq<usize>)>)
    decreases n,
{
    if n <= 0 {
        (Seq::empty(), Seq::empty(), Seq::empty())
    } else {
        let (sel, refs, iss) = intake_of(seed_ids, tv, elig, role, artist_cap, album_cap, song_cap, n - 1);
        let id = seed_ids[n - 1];
        if seed_ids.take(n - 1).contains(id) {
            (sel, refs, iss.push(error_view("duplicate_seed"@, "seed "@ + id + " occurs more than once"@)))
        } else {
            match index_in(ids_of(tv), id) {
                None => (sel, refs, iss.push(error_view("missing_seed"@, "seed "@ + id + " is not in the graph"@))),
                Some(t) => {
                    let refs2 = if is_reference_role(role) {
                        refs.push(t)
                    } else {
                        refs
                    };
                    if role == SeedRole::Reference {
                        (sel, refs2, iss)
                    } else if elig[t].len() > 0 {
                        (
                            sel,
                            refs2,
                            iss.push(
                                error_view(
                                    "ineligible_seed"@,
                                    "seed "@ + id + " violates policy: "@ + elig[t][0].1,
                                ),
                            ),
                        )
                    } else if !fits(picked(tv, sel), tv[t], artist_cap, album_cap, song_cap) {
                        (
                            sel,
                            refs2,
                            iss.push(error_view("seed_diversity_conflict"@, "seed "@ + id + " exceeds a diversity cap"@)),
                        )
                    } else {
                        (sel.push(t), refs2, iss)
                    }
                },
            }
        }
    }
}

/// The pinned seeds taken in: each is a track whose id is one of the
/// brief's seeds, no track is taken twice, and no key goes over its cap.
pub open spec fn intake_keeps(
    seed_ids: Seq<Seq<char>>,
    tv: Seq<(Seq<char>, Seq<char>, Seq<char>, Seq<char>)>,
    sel: Seq<int>,
    artist_cap: nat,
    album_cap: nat,
    song_cap: nat,
) -> bool {
    &&& forall|i: int| 0 <= i < sel.len() ==> 0 <= #[trigger] sel[i] < tv.len() && seed_ids.contains(tv[sel[i]].0)
    &&& forall|i: int, j: int| 0 <= i < j < sel.len() ==> #[trigger] sel[i] != #[trigger] sel[j]
    &&& forall|k: Seq<char>| k.len() > 0 ==> #[trigger] count_of(artists_of(picked(tv, sel)), k) <= artist_cap
    &&& forall|k: Seq<char>| k.len() > 0 ==> #[trigger] count_of(albums_of(picked(tv, sel)), k) <= album_cap
    &&& forall|k: Seq<char>| k.len() > 0 ==> #[trigger] count_of(songs_of(picked(tv, sel)), k) <= song_cap
}

/// The seed intake takes each pinned seed at most once, only seeds of the
/// brief, and keeps every diversity cap.
pub proof fn law_intake_keeps_caps(
    seed_ids: Seq<Seq<char>>,
    tv: Seq<(Seq<char>, Seq<char>, Seq<char>, Seq<char>)>,
    elig: Seq<Seq<(Seq<char>, Seq<char>)>>,
    role: SeedRole,
    artist_cap: nat,
    album_cap: nat,
    song_cap: nat,
    n: int,
)
    requires
        0 <= n <= seed_ids.len(),
    ensures
        intake_keeps(
            seed_ids.take(n),
            tv,
            intake_of(seed_ids, tv, elig, role, artist_cap, album_cap, song_cap, n).0,
            artist_cap,
            album_cap,
            song_cap,
        ),
    decreases n,
{
    let sel = intake_of(seed_ids, tv, elig, role, artist_cap, album_cap, song_cap, n).0;
    if n == 0 {
        assert(picked(tv, sel) =~= Seq::empty());
        assert(artists_of(picked(tv, sel)) =~= Seq::<Seq<char>>::empty());
        assert(albums_of(picked(tv, sel)) =~= Seq::<Seq<char>>::empty());
        assert(songs_of(picked(tv, sel)) =~= Seq::<Seq<char>>::empty());
    } else {
        law_intake_keeps_caps(seed_ids, tv, elig, role, artist_cap, album_cap, song_cap, n - 1);
        let sel0 = intake_of(seed_ids, tv, elig, role, artist_cap, album_cap, song_cap, n - 1).0;
        let pre = seed_ids.take(n - 1);
        let id = seed_ids[n - 1];
        assert(seed_ids.take(n) =~= pre.push(id));
        assert forall|i: int| 0 <= i < sel0.len() implies seed_ids.take(n).contains(tv[sel0[i]].0) by {
            let m = choose|m: int| 0 <= m < pre.len() && pre[m] == tv[sel0[i]].0;
            assert(seed_ids.take(n)[m] == pre[m]);
        }
        if sel != sel0 {
            let t = index_in(ids_of(tv), id)->0;
            lemma_last_index(ids_of(tv), id, tv.len() as int);
            assert(sel =~= sel0.push(t));
            let p0 = picked(tv, sel0);
            let c = tv[t];
            assert(picked(tv, sel) =~= p0.push(c));
            assert(artists_of(picked(tv, sel)) =~= artists_of(p0).push(c.1));
            assert(albums_of(picked(tv, sel)) =~= albums_of(p0).push(c.2));
            assert(songs_of(picked(tv, sel)) =~= songs_of(p0).push(c.3));
            assert(seed_ids.take(n)[n - 1] == id);
            assert forall|k: Seq<char>| k.len() > 0 implies #[trigger] count_of(artists_of(picked(tv, sel)), k)
                <= artist_cap by {
                lemma_count_push(artists_of(p0), c.1, k);
            }
            assert forall|k: Seq<char>| k.len() > 0 implies #[trigger] count_of(albums_of(picked(tv, sel)), k)
                <= album_cap by {
                lemma_count_push(albums_of(p0), c.2, k);
            }
            assert forall|k: Seq<char>| k.len() > 0 implies #[trigger] count_of(songs_of(picked(tv, sel)), k)
                <= song_cap by {
                lemma_count_push(songs_of(p0), c.3, k);
            }
            assert forall|i: int, j: int| 0 <= i < j < sel.len() implies #[trigger] sel[i] != #[trigger] sel[j] by {
                if j == sel.len() - 1 && sel[i] == sel[j] {
                    assert(pre.contains(tv[sel0[i]].0));
                }
            }
        }
    }
}

/// What the intake of a brief's seeds produced.
pub struct SeedIntake {
    /// Positions (in the track list) of the pinned seeds taken, in order.
    pub selected: Vec<usize>,
    /// Positions of the reference seeds, in order.
    pub references: Vec<usize>,
    /// The errors met.
    pub issues: Vec<AuditIssue>,
}

/// Take in the seeds of a brief (see [`intake_of`]); `eligibility` holds the
/// eligibility issues of each track.
pub fn take_in_seeds(
    seed_ids: &Vec<String>,
    tracks: &Vec<CandidateKeys>,
    eligibility: &Vec<Vec<(String, String)>>,
    role: SeedRole,
    artist_cap: usize,
    album_cap: usize,
    song_cap: usize,
) -> (r: SeedIntake)
    requires
        eligibility.len() == tracks.len(),
        seed_ids.len() < usize::MAX,
    ensures
        (ints_of(r.selected@), ints_of(r.references@), issues_view(r.issues@)) == intake_of(
            seed_ids.deep_view(),
            key_tuples(tracks@),
            issue_lists_view(eligibility@),
            role,
            artist_cap as nat,
            album_cap as nat,
            song_cap as nat,
            seed_ids.len() as int,
        ),
{
    let ghost sv = seed_ids.deep_view();
    let ghost tv = key_tuples(tracks@);
    let ghost ev = issue_lists_view(eligibility@);
    let mut ids: Vec<String> = Vec::new();
    let mut k: usize = 0;
    while k < tracks.len()
        invariant
            k <= tracks.len(),
            tv == key_tuples(tracks@),
            ids.deep_view() == ids_of(tv).take(k as int),
        decreases tracks.len() - k,
    {
        let ghost d0 = ids.deep_view();
        ids.push(string_of(&chars_of(tracks[k].id.as_str())));
        assert(ids.deep_view() =~= d0.push(tracks@[k as int].id@));
        assert(ids_of(tv).take(k as int + 1) =~= ids_of(tv).take(k as int).push(tv[k as int].0));
        k += 1;
    }
    assert(ids_of(tv).take(tracks.len() as int) =~= ids_of(tv));
    let mut seen: Vec<String> = Vec::new();
    let mut selected: Vec<usize> = Vec::new();
    let mut references: Vec<usize> = Vec::new();
    let mut issues: Vec<AuditIssue> = Vec::new();
    let mut artists = KeyCounts::new();
    let mut albums = KeyCounts::new();
    let mut songs = KeyCounts::new();
    proof {
        assert(artists_of(picked(tv, Seq::empty())) =~= Seq::<Seq<char>>::empty());
        assert(albums_of(picked(tv, Seq::empty())) =~= Seq::<Seq<char>>::empty());
        assert(songs_of(picked(tv, Seq::empty())) =~= Seq::<Seq<char>>::empty());
        assert(ints_of(selected@) =~= Seq::<int>::empty());
        assert(ints_of(references@) =~= Seq::<int>::empty());
        assert(issues_view(issues@) =~= Seq::<(AuditSeverity, Seq<char>, Seq<char>, Seq<usize>)>::empty());
    }
    let mut i: usize = 0;
    while i < seed_ids.len()
        invariant
            i <= seed_ids.len(),
            seed_ids.len() < usize::MAX,
            sv == seed_ids.deep_view(),
            tv == key_tuples(tracks@),
            ev == issue_lists_view(eligibility@),
            eligibility.len() == tracks.len(),
            ids.deep_view() == ids_of(tv),
            seen.deep_view() == sv.take(i as int),
            selected.len() <= i,
            (ints_of(selected@), ints_of(references@), issues_view(issues@)) == intake_of(
                sv,
                tv,
                ev,
                role,
                artist_cap as nat,
                album_cap as nat,
                song_cap as nat,
                i as int,
            ),
            forall|x: int| 0 <= x < selected.len() ==> selected@[x] < tracks.len(),
            counts_agree(artists, artists_of(picked(tv, ints_of(selected@)))),
            counts_agree(albums, albums_of(picked(tv, ints_of(selected@)))),
            counts_agree(songs, songs_of(picked(tv, ints_of(selected@)))),
        decreases seed_ids.len() - i,
    {
        let ghost sel0 = ints_of(selected@);
        let ghost refs0 = ints_of(references@);
        let ghost iss0 = issues_view(issues@);
        let id = chars_of(seed_ids[i].as_str());
        assert(sv[i as int] == id@);
        let dup = contains_chars(&seen, &id);
        let ghost s0 = seen.deep_view();
        seen.push(string_of(&id));
        assert(seen.deep_view() =~= s0.push(id@));
        assert(sv.take(i as int + 1) =~= sv.take(i as int).push(sv[i as int]));
        if dup {
            let msg = concat(&concat(&chars_of("seed "), &id), &chars_of(" occurs more than once"));
            push_error(&mut issues, "duplicate_seed", &msg);
        } else {
            let found = position_of(&ids, seed_ids[i].as_str());
            proof {
                lemma_last_index(ids_of(tv), id@, tv.len() as int);
            }
            match found {
                None => {
                    let msg = concat(&concat(&chars_of("seed "), &id), &chars_of(" is not in the graph"));
                    push_error(&mut issues, "missing_seed", &msg);
                },
                Some(t) => {
                    if role == SeedRole::Reference || role == SeedRole::PinnedAndReference {
                        references.push(t);
                        assert(ints_of(references@) =~= refs0.push(t as int));
                    }
                    if role != SeedRole::Reference {
                        assert(ev[t as int] == pairs_view(eligibility@[t as int]@));
                        if eligibility[t].len() > 0 {
                            assert(ev[t as int][0] == (eligibility@[t as int]@[0].0@, eligibility@[t as int]@[0].1@));
                            let msg = concat(
                                &concat(&concat(&chars_of("seed "), &id), &chars_of(" violates policy: ")),
                                &chars_of(eligibility[t][0].1.as_str()),
                            );
                            push_error(&mut issues, "ineligible_seed", &msg);
                        } else {
                            let c = &tracks[t];
                            assert(tv[t as int] == key_tuple(*c));
                            let ok = track_fits(
                                c,
                                artist_cap,
                                album_cap,
                                song_cap,
                                &artists,
                                &albums,
                                &songs,
                                Ghost(picked(tv, sel0)),
                            );
                            if !ok {
                                let msg = concat(
                                    &concat(&chars_of("seed "), &id),
                                    &chars_of(" exceeds a diversity cap"),
                                );
                                push_error(&mut issues, "seed_diversity_conflict", &msg);
                            } else {
                                count_track(c, &mut artists, &mut albums, &mut songs, Ghost(picked(tv, sel0)));
                                selected.push(t);
                                assert(ints_of(selected@) =~= sel0.push(t as int));
                                assert(picked(tv, sel0.push(t as int)) =~= picked(tv, sel0).push(tv[t as int]));
                            }
                        }
                    }
                },
            }
        }
        i += 1;
    }
    SeedIntake { selected, references, issues }
}


// ───────────────────────────── shortfall reports ─────────────────────────────

/// The error when fewer tracks than requested could be chosen.
pub fn infeasible_issue(found: usize, target: usize) -> (r: AuditIssue)
    ensures
        issue_view(r) == error_view(
            "infeasible_selection"@,
            "policy can supply only "@ + decimal(found as nat) + " of "@ + decimal(target as nat)
                + " requested tracks without relaxing hard constraints"@,
        ),
{
    let msg = concat(
        &concat(
            &concat(&concat(&chars_of("policy can supply only "), &decimal_chars(found as u64)), &chars_of(" of ")),
            &decimal_chars(target as u64),
        ),
        &chars_of(" requested tracks without relaxing hard constraints"),
    );
    error_with("infeasible_selection", &msg)
}

/// The rejections among the first `n` whose code is `keep` (all of them
/// when `keep` is `None`).
pub open spec fn kept_upto(rs: Seq<(Seq<char>, Seq<char>)>, keep: Option<Seq<char>>, n: int) -> Seq<(Seq<char>, Seq<char>)>
    decreases n,
{
    if n <= 0 {
        Seq::empty()
    } else {
        let k = kept_upto(rs, keep, n - 1);
        if keep is None || rs[n - 1].0 == keep->0 {
            k.push(rs[n - 1])
        } else {
            k
        }
    }
}

/// The codes of a list of rejections.
pub open spec fn codes_of(rs: Seq<(Seq<char>, Seq<char>)>) -> Seq<Seq<char>> {
    Seq::new(rs.len(), |i: int| rs[i].0)
}

/// The message of the first of the first `n` rejections with `code`.
pub open spec fn first_message_upto(rs: Seq<(Seq<char>, Seq<char>)>, code: Seq<char>, n: int) -> Option<Seq<char>>
    decreases n,
{
    if n <= 0 {
        None
    } else {
        match first_message_upto(rs, code, n - 1) {
            Some(m) => Some(m),
            None => if rs[n - 1].0 == code {
                Some(rs[n - 1].1)
            } else {
                None
            },
        }
    }
}

/// `"<count> candidate(s) rejected: <message>"`, or `"... rejected by seed
/// intent: ..."`.
pub open spec fn rejection_message(count: nat, message: Seq<char>, by_seed_intent: bool) -> Seq<char> {
    decimal(count) + (if by_seed_intent {
        " candidate(s) rejected by seed intent: "@
    } else {
        " candidate(s) rejected: "@
    }) + message
}

/// One error per rejection code (those equal to `keep`, if given), codes
/// ascending, with the number of rejections and the first message for it.
pub open spec fn is_tally(
    r: Seq<(AuditSeverity, Seq<char>, Seq<char>, Seq<usize>)>,
    rs: Seq<(Seq<char>, Seq<char>)>,
    keep: Option<Seq<char>>,
    by_seed_intent: bool,
) -> bool {
    let k = kept_upto(rs, keep, rs.len() as int);
    let d = Seq::new(r.len(), |i: int| r[i].1);
    &&& is_distinct_keys(d, codes_of(k), false)
    &&& forall|i: int| 0 <= i < r.len() ==> #[trigger] r[i] == error_view(
        d[i],
        rejection_message(
            count_of(codes_of(k), d[i]),
            first_message_upto(k, d[i], k.len() as int)->0,
            by_seed_intent,
        ),
    )
}

proof fn lemma_first_message_found(rs: Seq<(Seq<char>, Seq<char>)>, code: Seq<char>, t: int, n: int)
    requires
        0 <= t < n <= rs.len(),
        rs[t].0 == code,
    ensures
        first_message_upto(rs, code, n) is Some,
    decreases n,
{
    if n - 1 > t {
        lemma_first_message_found(rs, code, t, n - 1);
    }
}

/// The errors that sum up rejected candidates (see [`is_tally`]).
pub fn rejection_issues(rejections: &Vec<(String, String)>, keep: Option<&str>, by_seed_intent: bool) -> (r: Vec<
    AuditIssue,
>)
    ensures
        is_tally(
            issues_view(r@),
            pairs_view(rejections@),
            match keep {
                Some(k) => Some(k@),
                None => None,
            },
            by_seed_intent,
        ),
{
    let ghost rs = pairs_view(rejections@);
    let ghost kv: Option<Seq<char>> = match keep {
        Some(k) => Some(k@),
        None => None,
    };
    let mut kept: Vec<(String, String)> = Vec::new();
    let mut codes: Vec<String> = Vec::new();
    assert(pairs_view(kept@) =~= kept_upto(rs, kv, 0));
    let mut i: usize = 0;
    while i < rejections.len()
        invariant
            i <= rejections.len(),
            rs == pairs_view(rejections@),
            kv == match keep {
                Some(k) => Some(k@),
                None => None::<Seq<char>>,
            },
            pairs_view(kept@) == kept_upto(rs, kv, i as int),
            codes.deep_view() == codes_of(pairs_view(kept@)),
        decreases rejections.len() - i,
    {
        let code = chars_of(rejections[i].0.as_str());
        let take = match keep {
            Some(k) => chars_eq(&code, &chars_of(k)),
            None => true,
        };
        if take {
            let ghost k0 = pairs_view(kept@);
            let ghost c0 = codes.deep_view();
            let p = (string_of(&code), string_of(&chars_of(rejections[i].1.as_str())));
            kept.push(p);
            codes.push(string_of(&code));
            assert(rs[i as int] == (rejections@[i as int].0@, rejections@[i as int].1@));
            assert(pairs_view(kept@) =~= k0.push(rs[i as int]));
            assert(codes.deep_view() =~= c0.push(code@));
            assert(codes_of(pairs_view(kept@)) =~= codes_of(k0).push(code@));
        }
        i += 1;
    }
    let ghost k = pairs_view(kept@);
    let d = distinct_keys(&codes, false);
    let ghost dv = d.deep_view();
    let mut out: Vec<AuditIssue> = Vec::new();
    let mut j: usize = 0;
    while j < d.len()
        invariant
            j <= d.len(),
            k == pairs_view(kept@),
            k == kept_upto(rs, kv, rs.len() as int),
            rs == pairs_view(rejections@),
            codes.deep_view() == codes_of(k),
            dv == d.deep_view(),
            is_distinct_keys(dv, codes_of(k), false),
            out.len() == j,
            forall|x: int| 0 <= x < j ==> #[trigger] issues_view(out@)[x] == error_view(
                dv[x],
                rejection_message(
                    count_of(codes_of(k), dv[x]),
                    first_message_upto(k, dv[x], k.len() as int)->0,
                    by_seed_intent,
                ),
            ),
        decreases d.len() - j,
    {
        let dc = chars_of(d[j].as_str());
        let n = count_occurrences(&codes, &dc);
        let mut first: Option<String> = None;
        let mut t: usize = 0;
        while t < kept.len()
            invariant
                t <= kept.len(),
                k == pairs_view(kept@),
                dc@ == dv[j as int],
                match first {
                    Some(m) => first_message_upto(k, dc@, t as int) == Some(m@),
                    None => first_message_upto(k, dc@, t as int) is None,
                },
            decreases kept.len() - t,
        {
            assert(k[t as int] == (kept@[t as int].0@, kept@[t as int].1@));
            if first.is_none() && chars_eq(&chars_of(kept[t].0.as_str()), &dc) {
                first = Some(string_of(&chars_of(kept[t].1.as_str())));
            }
            t += 1;
        }
        proof {
            assert(codes_of(k).contains(dv[j as int]));
            let w = choose|w: int| 0 <= w < codes_of(k).len() && codes_of(k)[w] == dv[j as int];
            lemma_first_message_found(k, dv[j as int], w, k.len() as int);
        }
        let m = match first {
            Some(m) => m,
            None => String::new(),
        };
        let middle = if by_seed_intent {
            chars_of(" candidate(s) rejected by seed intent: ")
        } else {
            chars_of(" candidate(s) rejected: ")
        };
        let msg = concat(&concat(&decimal_chars(n as u64), &middle), &chars_of(m.as_str()));
        let ghost o0 = issues_view(out@);
        out.push(error_with(d[j].as_str(), &msg));
        assert(issues_view(out@) =~= o0.push(issues_view(out@)[j as int]));
        j += 1;
    }
    assert(Seq::new(out@.len(), |x: int| issues_view(out@)[x].1) =~= dv);
    out
}

// ───────────────────────────── sequencing ─────────────────────────────

/// How many of the first `n` positions repeat an artist within the
/// minimum gap.
pub open spec fn gap_violations_upto(ks: Seq<Seq<char>>, gap: nat, n: int) -> nat
    decreases n,
{
    if n <= 0 {
        0
    } else {
        gap_violations_upto(ks, gap, n - 1) + if violates_gap_of(ks.take(n - 1), ks[n - 1], gap) {
            1nat
        } else {
            0nat
        }
    }
}

/// The number of tracks (by artist key, in playlist order) placed within
/// `gap` positions after another track by the same artist.
pub fn gap_violation_count(artist_keys: &Vec<String>, gap: usize) -> (r: usize)
    ensures
        r == gap_violations_upto(artist_keys.deep_view(), gap as nat, artist_keys.len() as int),
{
    let ghost ks = artist_keys.deep_view();
    let mut path: Vec<String> = Vec::new();
    let mut n: usize = 0;
    let mut i: usize = 0;
    while i < artist_keys.len()
        invariant
            i <= artist_keys.len(),
            ks == artist_keys.deep_view(),
            path.deep_view() == ks.take(i as int),
            n == gap_violations_upto(ks, gap as nat, i as int),
            n <= i,
        decreases artist_keys.len() - i,
    {
        if violates_artist_gap(&path, artist_keys[i].as_str(), gap) {
            n += 1;
        }
        let ghost p0 = path.deep_view();
        path.push(string_of(&chars_of(artist_keys[i].as_str())));
        assert(path.deep_view() =~= p0.push(ks[i as int]));
        assert(ks.take(i as int + 1) =~= ks.take(i as int).push(ks[i as int]));
        i += 1;
    }
    n
}

} // verus!
