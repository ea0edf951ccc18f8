//! The counts of a library profile: how many tracks there are, how many are
//! music, canonical and eligible, how many distinct artists, albums, songs
//! and styles, and how the quality tiers and aggression models spread. The
//! statistics over audio numbers are computed by the caller.

use vstd::prelude::*;

use crate::audit::{distinct_keys, is_distinct_keys};
use crate::derive::{count_occurrences, count_of};
use crate::order::{lemma_lex_irreflexive, lex_lt};
use crate::select::{albums_of, artists_of, key_tuples, songs_of, CandidateKeys};
use crate::text::{chars_of, string_of};

verus! {

/// The number of distinct keys of `ks` (the non-empty ones when
/// `skip_empty`).
pub open spec fn distinct_count(ks: Seq<Seq<char>>, skip_empty: bool) -> nat {
    Set::new(|k: Seq<char>| ks.contains(k) && (!skip_empty || k.len() > 0)).len()
}

/// A list of the distinct keys is as long as their number.
pub proof fn lemma_distinct_len(d: Seq<Seq<char>>, ks: Seq<Seq<char>>, skip_empty: bool)
    requires
        is_distinct_keys(d, ks, skip_empty),
    ensures
        d.len() == distinct_count(ks, skip_empty),
{
    assert forall|i: int, j: int| 0 <= i < d.len() && 0 <= j < d.len() && i != j implies d[i] != d[j] by {
        if i < j {
            assert(lex_lt(d[i], d[j]));
            lemma_lex_irreflexive(d[i]);
        } else {
            assert(lex_lt(d[j], d[i]));
            lemma_lex_irreflexive(d[j]);
        }
    }
    assert(d.no_duplicates());
    d.unique_seq_to_set();
    let s = Set::new(|k: Seq<char>| ks.contains(k) && (!skip_empty || k.len() > 0));
    assert forall|k: Seq<char>| d.to_set().contains(k) <==> s.contains(k) by {
        if s.contains(k) {
            let t = choose|t: int| 0 <= t < ks.len() && ks[t] == k;
            assert(d.contains(ks[t]));
        }
        if d.to_set().contains(k) {
            let i = choose|i: int| 0 <= i < d.len() && d[i] == k;
            assert(ks.contains(d[i]));
        }
    }
    assert(d.to_set() =~= s);
}

/// The number of distinct keys among `keys` (see [`distinct_count`]).
pub fn distinct_key_count(keys: &Vec<String>, skip_empty: bool) -> (r: usize)
    ensures
        r == distinct_count(keys.deep_view(), skip_empty),
{
    let d = distinct_keys(keys, skip_empty);
    proof {
        lemma_distinct_len(d.deep_view(), keys.deep_view(), skip_empty);
    }
    d.len()
}

/// The keys of a tally, in order.
pub open spec fn tally_keys(r: Seq<(String, usize)>) -> Seq<Seq<char>> {
    Seq::new(r.len(), |i: int| r[i].0@)
}

/// `r` tallies `ks`: each distinct key once, ascending, with its count.
pub open spec fn is_tally_of(r: Seq<(String, usize)>, ks: Seq<Seq<char>>) -> bool {
    &&& is_distinct_keys(tally_keys(r), ks, false)
    &&& forall|i: int| 0 <= i < r.len() ==> #[trigger] r[i].1 == count_of(ks, r[i].0@)
}

/// Each distinct key of `keys`, ascending, with the number of times it
/// occurs.
pub fn tally(keys: &Vec<String>) -> (r: Vec<(String, usize)>)
    ensures
        is_tally_of(r@, keys.deep_view()),
{
    let d = distinct_keys(keys, false);
    let ghost dv = d.deep_view();
    let mut out: Vec<(String, usize)> = Vec::new();
    let mut i: usize = 0;
    while i < d.len()
        invariant
            i <= d.len(),
            dv == d.deep_view(),
            out.len() == i,
            forall|t: int| 0 <= t < i ==> (#[trigger] out@[t]).0@ == dv[t] && out@[t].1 == count_of(
                keys.deep_view(),
                dv[t],
            ),
        decreases d.len() - i,
    {
        let k = chars_of(d[i].as_str());
        let n = count_occurrences(keys, &k);
        out.push((string_of(&k), n));
        i += 1;
    }
    assert(tally_keys(out@) =~= dv);
    out
}

/// What a library profile counts of a track besides its keys.
pub struct TrackProfileFacts {
    pub is_music: bool,
    pub is_canonical: bool,
    /// Whether the default policy finds no eligibility issue.
    pub eligible_by_default: bool,
    pub quality_tier: Option<String>,
    pub aggression_model: Option<String>,
    pub style_keys: Vec<String>,
}

/// The number of `true` flags.
pub open spec fn count_true(s: Seq<bool>) -> nat
    decreases s.len(),
{
    if s.len() == 0 {
        0
    } else {
        count_true(s.drop_last()) + if s.last() {
            1nat
        } else {
            0nat
        }
    }
}

/// The quality tier of each track (`"unknown"` when it has none).
pub open spec fn tier_keys(fs: Seq<TrackProfileFacts>) -> Seq<Seq<char>> {
    Seq::new(
        fs.len(),
        |i: int|
            match fs[i].quality_tier {
                Some(t) => t@,
                None => "unknown"@,
            },
    )
}

/// The aggression models named by the first `n` tracks, in order.
pub open spec fn models_upto(fs: Seq<TrackProfileFacts>, n: int) -> Seq<Seq<char>>
    decreases n,
{
    if n <= 0 {
        Seq::empty()
    } else {
        match fs[n - 1].aggression_model {
            Some(m) => models_upto(fs, n - 1).push(m@),
            None => models_upto(fs, n - 1),
        }
    }
}

/// The style keys of the first `n` tracks, in order.
pub open spec fn styles_upto(fs: Seq<TrackProfileFacts>, n: int) -> Seq<Seq<char>>
    decreases n,
{
    if n <= 0 {
        Seq::empty()
    } else {
        styles_upto(fs, n - 1) + fs[n - 1].style_keys.deep_view()
    }
}

/// The counts of a library profile.
pub struct LibraryCounts {
    pub tracks: usize,
    pub music_tracks: usize,
    pub canonical_tracks: usize,
    pub eligible_default_tracks: usize,
    pub unique_artists: usize,
    pub unique_albums: usize,
    pub unique_songs: usize,
    pub unique_styles: usize,
    /// Tracks per quality tier, tiers ascending.
    pub quality_tiers: Vec<(String, usize)>,
    /// Tracks per aggression model, models ascending.
    pub aggression_models: Vec<(String, usize)>,
}

/// A list of the keys read off each track.
fn key_column(tracks: &Vec<CandidateKeys>, which: u8) -> (r: Vec<String>)
    requires
        which < 3,
    ensures
        which == 0 ==> r.deep_view() == artists_of(key_tuples(tracks@)),
        which == 1 ==> r.deep_view() == albums_of(key_tuples(tracks@)),
        which == 2 ==> r.deep_view() == songs_of(key_tuples(tracks@)),
{
    let ghost tv = key_tuples(tracks@);
    let ghost col = if which == 0 {
        artists_of(tv)
    } else if which == 1 {
        albums_of(tv)
    } else {
        songs_of(tv)
    };
    let mut out: Vec<String> = Vec::new();
    let mut i: usize = 0;
    while i < tracks.len()
        invariant
            i <= tracks.len(),
            which < 3,
            tv == key_tuples(tracks@),
            col == if which == 0 {
                artists_of(tv)
            } else if which == 1 {
                albums_of(tv)
            } else {
                songs_of(tv)
            },
            out.deep_view() == col.take(i as int),
        decreases tracks.len() - i,
    {
        let t = &tracks[i];
        let k: &str = if which == 0 {
            t.artist_key.as_str()
        } else if which == 1 {
            t.album_key.as_str()
        } else {
            match &t.song_key {
                Some(s) => s.as_str(),
                None => t.id.as_str(),
            }
        };
        let ghost o0 = out.deep_view();
        out.push(string_of(&chars_of(k)));
        assert(out.deep_view() =~= o0.push(col[i as int]));
        assert(col.take(i as int + 1) =~= col.take(i as int).push(col[i as int]));
        i += 1;
    }
    assert(col.take(tracks.len() as int) =~= col);
    out
}

/// The counts of a library profile of `tracks`, whose other facts are
/// `facts`.
pub fn library_counts(tracks: &Vec<CandidateKeys>, facts: &Vec<TrackProfileFacts>) -> (r: LibraryCounts)
    requires
        facts.len() == tracks.len(),
    ensures
        r.tracks == tracks.len(),
        r.music_tracks == count_true(Seq::new(facts.len() as nat, |i: int| facts@[i].is_music)),
        r.canonical_tracks == count_true(Seq::new(facts.len() as nat, |i: int| facts@[i].is_canonical)),
        r.eligible_default_tracks == count_true(
            Seq::new(facts.len() as nat, |i: int| facts@[i].eligible_by_default),
        ),
        r.unique_artists == distinct_count(artists_of(key_tuples(tracks@)), true),
        r.unique_albums == distinct_count(albums_of(key_tuples(tracks@)), true),
        r.unique_songs == distinct_count(songs_of(key_tuples(tracks@)), false),
        r.unique_styles == distinct_count(styles_upto(facts@, facts.len() as int), false),
        is_tally_of(r.quality_tiers@, tier_keys(facts@)),
        is_tally_of(r.aggression_models@, models_upto(facts@, facts.len() as int)),
{
    let ghost fs = facts@;
    let ghost music = Seq::new(facts.len() as nat, |i: int| facts@[i].is_music);
    let ghost canonical = Seq::new(facts.len() as nat, |i: int| facts@[i].is_canonical);
    let ghost eligible = Seq::new(facts.len() as nat, |i: int| facts@[i].eligible_by_default);
    let mut n_music: usize = 0;
    let mut n_canonical: usize = 0;
    let mut n_eligible: usize = 0;
    let mut tiers: Vec<String> = Vec::new();
    let mut models: Vec<String> = Vec::new();
    let mut styles: Vec<String> = Vec::new();
    let mut i: usize = 0;
    while i < facts.len()
        invariant
            i <= facts.len(),
            fs == facts@,
            music == Seq::new(facts.len() as nat, |i: int| facts@[i].is_music),
            canonical == Seq::new(facts.len() as nat, |i: int| facts@[i].is_canonical),
            eligible == Seq::new(facts.len() as nat, |i: int| facts@[i].eligible_by_default),
            n_music == count_true(music.take(i as int)),
            n_canonical == count_true(canonical.take(i as int)),
            n_eligible == count_true(eligible.take(i as int)),
            n_music <= i,
            n_canonical <= i,
            n_eligible <= i,
            tiers.deep_view() == tier_keys(fs).take(i as int),
            models.deep_view() == models_upto(fs, i as int),
            styles.deep_view() == styles_upto(fs, i as int),
        decreases facts.len() - i,
    {
        let f = &facts[i];
        assert(music.take(i as int + 1).drop_last() =~= music.take(i as int));
        assert(canonical.take(i as int + 1).drop_last() =~= canonical.take(i as int));
        assert(eligible.take(i as int + 1).drop_last() =~= eligible.take(i as int));
        if f.is_music {
            n_music += 1;
        }
        if f.is_canonical {
            n_canonical += 1;
        }
        if f.eligible_by_default {
            n_eligible += 1;
        }
        let tier = match &f.quality_tier {
            Some(t) => string_of(&chars_of(t.as_str())),
            None => string_of(&chars_of("unknown")),
        };
        let ghost t0 = tiers.deep_view();
        tiers.push(tier);
        assert(tiers.deep_view() =~= t0.push(tier_keys(fs)[i as int]));
        assert(tier_keys(fs).take(i as int + 1) =~= tier_keys(fs).take(i as int).push(tier_keys(fs)[i as int]));
        match &f.aggression_model {
            Some(m) => {
                let ghost m0 = models.deep_view();
                models.push(string_of(&chars_of(m.as_str())));
                assert(models.deep_view() =~= m0.push(m@));
            },
            None => {},
        }
        let ghost s0 = styles.deep_view();
        let mut j: usize = 0;
        while j < f.style_keys.len()
            invariant
                j <= f.style_keys.len(),
                styles.deep_view() == s0 + f.style_keys.deep_view().take(j as int),
            decreases f.style_keys.len() - j,
        {
            let ghost s1 = styles.deep_view();
            styles.push(string_of(&chars_of(f.style_keys[j].as_str())));
            assert(styles.deep_view() =~= s1.push(f.style_keys.deep_view()[j as int]));
            assert(f.style_keys.deep_view().take(j as int + 1) =~= f.style_keys.deep_view().take(j as int).push(
                f.style_keys.deep_view()[j as int],
            ));
            j += 1;
        }
        assert(f.style_keys.deep_view().take(f.style_keys.len() as int) =~= f.style_keys.deep_view());
        i += 1;
    }
    assert(music.take(facts.len() as int) =~= music);
    assert(canonical.take(facts.len() as int) =~= canonical);
    assert(eligible.take(facts.len() as int) =~= eligible);
    assert(tier_keys(fs).take(facts.len() as int) =~= tier_keys(fs));
    let artists = key_column(tracks, 0);
    let albums = key_column(tracks, 1);
    let songs = key_column(tracks, 2);
    LibraryCounts {
        tracks: tracks.len(),
        music_tracks: n_music,
        canonical_tracks: n_canonical,
        eligible_default_tracks: n_eligible,
        unique_artists: distinct_key_count(&artists, true),
        unique_albums: distinct_key_count(&albums, true),
        unique_songs: distinct_key_count(&songs, false),
        unique_styles: distinct_key_count(&styles, false),
        quality_tiers: tally(&tiers),
        aggression_models: tally(&models),
    }
}

} // verus!
