//! The graph edges that the enrichment cache adds: folksonomy genres of
//! tracks and artists, and crowd similarity between owned tracks and
//! between owned artists. Each edge is planned here by positions; the
//! caller turns the plan into graph edges.

use vstd::hash_map::StringHashMap;
use vstd::prelude::*;

use crate::enrich::{similar_key, similar_key_of};
use crate::normalize::{genre_id, genre_id_of, present_tag, present_tag_exec};
use crate::playlist::contains_chars;
use crate::text::{chars_of, lowercase_chars, string_of, trim, trim_ws, unicode_lowercase};

verus! {

/// What the enrichment edges read of an owned track.
pub struct TrackEnrichInput {
    pub hash: String,
    /// The artist id of the track.
    pub artist: String,
    /// The raw title tag.
    pub title: Option<String>,
    /// The genre id of the file's own genre tag.
    pub base_genre: Option<String>,
    /// The crowd tags of the track (none when it was not enriched).
    pub tags: Vec<String>,
    /// The crowd's similar tracks, as (artist, title).
    pub similar: Vec<(String, String)>,
}

/// What the enrichment edges read of an owned artist.
pub struct ArtistEnrichInput {
    /// The artist id.
    pub key: String,
    pub tags: Vec<String>,
    /// The names of the crowd's similar artists.
    pub similar: Vec<String>,
}

/// The optional string as plain values.
pub open spec fn opt_string(o: Option<String>) -> Option<Seq<char>> {
    match o {
        Some(s) => Some(s@),
        None => None,
    }
}

/// The key a track is found by: its artist and (present) title.
pub open spec fn own_key(t: TrackEnrichInput) -> Option<Seq<char>> {
    match present_tag(opt_string(t.title)) {
        Some(title) => Some(similar_key_of(t.artist@, title)),
        None => None,
    }
}

/// The first of the first `n` tracks found by `key`.
pub open spec fn resolve_track(ts: Seq<TrackEnrichInput>, key: Seq<char>, n: int) -> Option<int>
    decreases n,
{
    if n <= 0 {
        None
    } else {
        match resolve_track(ts, key, n - 1) {
            Some(i) => Some(i),
            None => if own_key(ts[n - 1]) == Some(key) {
                Some(n - 1)
            } else {
                None
            },
        }
    }
}

/// The lookup name of an artist: trimmed and lowercased.
pub open spec fn lower_name(a: Seq<char>) -> Seq<char> {
    unicode_lowercase(trim(a))
}

/// The last of the first `n` artists whose lookup name is `name`.
pub open spec fn resolve_artist(artists: Seq<ArtistEnrichInput>, name: Seq<char>, n: int) -> Option<int>
    decreases n,
{
    if n <= 0 {
        None
    } else if lower_name(artists[n - 1].key@) == name {
        Some(n - 1)
    } else {
        resolve_artist(artists, name, n - 1)
    }
}

/// The folksonomy genres of the first `k` tags, skipping blanks, the
/// file's own genre, and repeats.
pub open spec fn tag_genres(tags: Seq<Seq<char>>, base: Option<Seq<char>>, k: int) -> Seq<Seq<char>>
    decreases k,
{
    if k <= 0 {
        Seq::empty()
    } else {
        let prev = tag_genres(tags, base, k - 1);
        match genre_id_of(Some(tags[k - 1])) {
            Some(g) => if base != Some(g) && !prev.contains(g) {
                prev.push(g)
            } else {
                prev
            },
            None => prev,
        }
    }
}

/// The genre edges of the first `n` tracks, as (track, genre).
pub open spec fn track_genre_edges(ts: Seq<TrackEnrichInput>, n: int) -> Seq<(int, Seq<char>)>
    decreases n,
{
    if n <= 0 {
        Seq::empty()
    } else {
        let t = ts[n - 1];
        let gs = tag_genres(t.tags.deep_view(), opt_string(t.base_genre), t.tags.len() as int);
        track_genre_edges(ts, n - 1) + Seq::new(gs.len(), |j: int| (n - 1, gs[j]))
    }
}

/// The genre edges of the first `n` artists, as (artist, genre).
pub open spec fn artist_genre_edges(artists: Seq<ArtistEnrichInput>, n: int) -> Seq<(int, Seq<char>)>
    decreases n,
{
    if n <= 0 {
        Seq::empty()
    } else {
        let a = artists[n - 1];
        let gs = tag_genres(a.tags.deep_view(), None, a.tags.len() as int);
        artist_genre_edges(artists, n - 1) + Seq::new(gs.len(), |j: int| (n - 1, gs[j]))
    }
}

/// The similar tracks of track `i` among its first `k` similar entries that
/// resolve to another owned track, first time only, as (target, entry).
pub open spec fn track_targets(ts: Seq<TrackEnrichInput>, i: int, k: int) -> Seq<(int, int)>
    decreases k,
{
    if k <= 0 {
        Seq::empty()
    } else {
        let prev = track_targets(ts, i, k - 1);
        let sim = ts[i].similar@[k - 1];
        match resolve_track(ts, similar_key_of(sim.0@, sim.1@), ts.len() as int) {
            Some(t) => if t != i && !Seq::new(prev.len(), |q: int| prev[q].0).contains(t) {
                prev.push((t, k - 1))
            } else {
                prev
            },
            None => prev,
        }
    }
}

/// The crowd edges between the first `n` tracks, as (source, target, entry).
pub open spec fn track_similar_edges(ts: Seq<TrackEnrichInput>, n: int) -> Seq<(int, int, int)>
    decreases n,
{
    if n <= 0 {
        Seq::empty()
    } else {
        let tg = track_targets(ts, n - 1, ts[n - 1].similar.len() as int);
        track_similar_edges(ts, n - 1) + Seq::new(tg.len(), |j: int| (n - 1, tg[j].0, tg[j].1))
    }
}

/// The similar artists of artist `i` among its first `k` names that resolve
/// to another owned artist, first time only.
pub open spec fn artist_targets(artists: Seq<ArtistEnrichInput>, i: int, k: int) -> Seq<int>
    decreases k,
{
    if k <= 0 {
        Seq::empty()
    } else {
        let prev = artist_targets(artists, i, k - 1);
        match resolve_artist(artists, lower_name(artists[i].similar@[k - 1]@), artists.len() as int) {
            Some(t) => if t != i && !prev.contains(t) {
                prev.push(t)
            } else {
                prev
            },
            None => prev,
        }
    }
}

/// The crowd edges between the first `n` artists, as (source, target).
pub open spec fn artist_similar_edges(artists: Seq<ArtistEnrichInput>, n: int) -> Seq<(int, int)>
    decreases n,
{
    if n <= 0 {
        Seq::empty()
    } else {
        let tg = artist_targets(artists, n - 1, artists[n - 1].similar.len() as int);
        artist_similar_edges(artists, n - 1) + Seq::new(tg.len(), |j: int| (n - 1, tg[j]))
    }
}

/// The enrichment edges, by positions.
pub struct EnrichmentEdges {
    /// (track, genre id).
    pub track_genres: Vec<(usize, String)>,
    /// (artist, genre id).
    pub artist_genres: Vec<(usize, String)>,
    /// (source track, target track, position of the similar entry).
    pub track_similar: Vec<(usize, usize, usize)>,
    /// (source artist, target artist).
    pub artist_similar: Vec<(usize, usize)>,
}

pub open spec fn labeled_view(v: Seq<(usize, String)>) -> Seq<(int, Seq<char>)> {
    Seq::new(v.len(), |q: int| (v[q].0 as int, v[q].1@))
}

pub open spec fn triples_view(v: Seq<(usize, usize, usize)>) -> Seq<(int, int, int)> {
    Seq::new(v.len(), |q: int| (v[q].0 as int, v[q].1 as int, v[q].2 as int))
}

pub open spec fn pairs_of(v: Seq<(usize, usize)>) -> Seq<(int, int)> {
    Seq::new(v.len(), |q: int| (v[q].0 as int, v[q].1 as int))
}

/// The genres a list of tags adds (see [`tag_genres`]).
fn genres_from_tags(tags: &Vec<String>, base: &Option<String>) -> (r: Vec<String>)
    ensures
        r.deep_view() == tag_genres(tags.deep_view(), opt_string(*base), tags.len() as int),
{
    let ghost tv = tags.deep_view();
    let mut out: Vec<String> = Vec::new();
    let mut k: usize = 0;
    while k < tags.len()
        invariant
            k <= tags.len(),
            tv == tags.deep_view(),
            out.deep_view() == tag_genres(tv, opt_string(*base), k as int),
        decreases tags.len() - k,
    {
        assert(tv[k as int] == tags@[k as int]@);
        match genre_id(Some(tags[k].as_str())) {
            Some(g) => {
                let gc = chars_of(g.as_str());
                let same_as_base = match base {
                    Some(b) => crate::text::chars_eq(&gc, &chars_of(b.as_str())),
                    None => false,
                };
                if !same_as_base && !contains_chars(&out, &gc) {
                    let ghost o0 = out.deep_view();
                    out.push(g);
                    assert(out.deep_view() =~= o0.push(gc@));
                }
            },
            None => {},
        }
        k += 1;
    }
    out
}

/// The key a track input is found by, if it has a title.
fn own_key_exec(t: &TrackEnrichInput) -> (r: Option<String>)
    ensures
        opt_string(r) == own_key(*t),
{
    let title = match &t.title {
        Some(s) => Some(s.as_str()),
        None => None,
    };
    match present_tag_exec(title) {
        Some(ti) => Some(similar_key(t.artist.as_str(), string_of(&ti).as_str())),
        None => None,
    }
}

/// Plan the edges the enrichment cache adds (see [`track_genre_edges`],
/// [`artist_genre_edges`], [`track_similar_edges`] and
/// [`artist_similar_edges`]); tracks have distinct hashes and artists
/// distinct keys, as the graph's tracks and artists do.
pub fn enrichment_edges(tracks: &Vec<TrackEnrichInput>, artists: &Vec<ArtistEnrichInput>) -> (r: EnrichmentEdges)
    ensures
        labeled_view(r.track_genres@) == track_genre_edges(tracks@, tracks.len() as int),
        labeled_view(r.artist_genres@) == artist_genre_edges(artists@, artists.len() as int),
        triples_view(r.track_similar@) == track_similar_edges(tracks@, tracks.len() as int),
        pairs_of(r.artist_similar@) == artist_similar_edges(artists@, artists.len() as int),
{
    let ghost ts = tracks@;
    let ghost avs = artists@;
    // Track genres.
    let mut track_genres: Vec<(usize, String)> = Vec::new();
    let mut i: usize = 0;
    while i < tracks.len()
        invariant
            i <= tracks.len(),
            ts == tracks@,
            labeled_view(track_genres@) == track_genre_edges(ts, i as int),
        decreases tracks.len() - i,
    {
        let gs = genres_from_tags(&tracks[i].tags, &tracks[i].base_genre);
        let ghost g0 = labeled_view(track_genres@);
        let mut j: usize = 0;
        while j < gs.len()
            invariant
                j <= gs.len(),
                i < tracks.len(),
                labeled_view(track_genres@) == g0 + Seq::new(j as nat, |q: int| (i as int, gs.deep_view()[q])),
            decreases gs.len() - j,
        {
            let ghost l0 = labeled_view(track_genres@);
            track_genres.push((i, string_of(&chars_of(gs[j].as_str()))));
            assert(labeled_view(track_genres@) =~= l0.push((i as int, gs.deep_view()[j as int])));
            assert(g0 + Seq::new(j as nat + 1, |q: int| (i as int, gs.deep_view()[q])) =~= l0.push(
                (i as int, gs.deep_view()[j as int]),
            ));
            j += 1;
        }
        assert(Seq::new(gs.len() as nat, |q: int| (i as int, gs.deep_view()[q])) =~= Seq::new(
            gs.deep_view().len(),
            |q: int| (i as int, gs.deep_view()[q]),
        ));
        i += 1;
    }
    // Artist genres.
    let mut artist_genres: Vec<(usize, String)> = Vec::new();
    let none: Option<String> = None;
    let mut a: usize = 0;
    while a < artists.len()
        invariant
            a <= artists.len(),
            avs == artists@,
            none is None,
            labeled_view(artist_genres@) == artist_genre_edges(avs, a as int),
        decreases artists.len() - a,
    {
        let gs = genres_from_tags(&artists[a].tags, &none);
        let ghost g0 = labeled_view(artist_genres@);
        let mut j: usize = 0;
        while j < gs.len()
            invariant
                j <= gs.len(),
                a < artists.len(),
                labeled_view(artist_genres@) == g0 + Seq::new(j as nat, |q: int| (a as int, gs.deep_view()[q])),
            decreases gs.len() - j,
        {
            let ghost l0 = labeled_view(artist_genres@);
            artist_genres.push((a, string_of(&chars_of(gs[j].as_str()))));
            assert(labeled_view(artist_genres@) =~= l0.push((a as int, gs.deep_view()[j as int])));
            assert(g0 + Seq::new(j as nat + 1, |q: int| (a as int, gs.deep_view()[q])) =~= l0.push(
                (a as int, gs.deep_view()[j as int]),
            ));
            j += 1;
        }
        assert(Seq::new(gs.len() as nat, |q: int| (a as int, gs.deep_view()[q])) =~= Seq::new(
            gs.deep_view().len(),
            |q: int| (a as int, gs.deep_view()[q]),
        ));
        a += 1;
    }
    let track_similar = track_similar_plan(tracks);
    let artist_similar = artist_similar_plan(artists);
    EnrichmentEdges { track_genres, artist_genres, track_similar, artist_similar }
}

/// The index of the owned tracks by key, first one winning.
fn track_index(tracks: &Vec<TrackEnrichInput>) -> (m: StringHashMap<usize>)
    ensures
        forall|key: Seq<char>| #[trigger] m@.contains_key(key) <==> resolve_track(tracks@, key, tracks.len() as int) is Some,
        forall|key: Seq<char>| m@.contains_key(key) ==> resolve_track(tracks@, key, tracks.len() as int) == Some(
            #[trigger] m@[key] as int,
        ),
{
    let ghost ts = tracks@;
    let mut m: StringHashMap<usize> = StringHashMap::new();
    let mut i: usize = 0;
    while i < tracks.len()
        invariant
            i <= tracks.len(),
            ts == tracks@,
            forall|key: Seq<char>| #[trigger] m@.contains_key(key) <==> resolve_track(ts, key, i as int) is Some,
            forall|key: Seq<char>| m@.contains_key(key) ==> resolve_track(ts, key, i as int) == Some(#[trigger] m@[key] as int),
        decreases tracks.len() - i,
    {
        match own_key_exec(&tracks[i]) {
            Some(k) => {
                if !m.contains_key(k.as_str()) {
                    let ghost kv = k@;
                    m.insert(k, i);
                    assert forall|key: Seq<char>| #[trigger] m@.contains_key(key) <==> resolve_track(ts, key, i as int + 1) is Some by {
                        if key != kv {
                        }
                    }
                }
            },
            None => {},
        }
        i += 1;
    }
    m
}

/// The crowd edges between owned tracks (see [`track_similar_edges`]).
fn track_similar_plan(tracks: &Vec<TrackEnrichInput>) -> (r: Vec<(usize, usize, usize)>)
    ensures
        triples_view(r@) == track_similar_edges(tracks@, tracks.len() as int),
{
    let ghost ts = tracks@;
    let index = track_index(tracks);
    let mut out: Vec<(usize, usize, usize)> = Vec::new();
    let mut i: usize = 0;
    while i < tracks.len()
        invariant
            i <= tracks.len(),
            ts == tracks@,
            forall|key: Seq<char>| #[trigger] index@.contains_key(key) <==> resolve_track(ts, key, ts.len() as int) is Some,
            forall|key: Seq<char>| index@.contains_key(key) ==> resolve_track(ts, key, ts.len() as int) == Some(
                #[trigger] index@[key] as int,
            ),
            triples_view(out@) == track_similar_edges(ts, i as int),
        decreases tracks.len() - i,
    {
        let sims = &tracks[i].similar;
        let ghost o_start = triples_view(out@);
        let mut targets: Vec<usize> = Vec::new();
        let ghost mut tg: Seq<(int, int)> = Seq::empty();
        let mut k: usize = 0;
        while k < sims.len()
            invariant
                k <= sims.len(),
                i < tracks.len(),
                ts == tracks@,
                sims@ == ts[i as int].similar@,
                forall|key: Seq<char>| #[trigger] index@.contains_key(key) <==> resolve_track(ts, key, ts.len() as int) is Some,
                forall|key: Seq<char>| index@.contains_key(key) ==> resolve_track(ts, key, ts.len() as int) == Some(
                    #[trigger] index@[key] as int,
                ),
                tg == track_targets(ts, i as int, k as int),
                targets@.len() == tg.len(),
                forall|q: int| 0 <= q < tg.len() ==> #[trigger] targets@[q] as int == tg[q].0,
                triples_view(out@) == o_start + Seq::new(tg.len(), |j: int| (i as int, tg[j].0, tg[j].1)),
            decreases sims.len() - k,
        {
            let key = similar_key(sims[k].0.as_str(), sims[k].1.as_str());
            match index.get(key.as_str()) {
                Some(t) => {
                    let t = *t;
                    let mut dup = false;
                    let mut q: usize = 0;
                    while q < targets.len()
                        invariant
                            q <= targets.len(),
                            dup == exists|x: int| 0 <= x < q && targets@[x] == t,
                        decreases targets.len() - q,
                    {
                        if targets[q] == t {
                            dup = true;
                        }
                        q += 1;
                    }
                    proof {
                        let firsts = Seq::new(tg.len(), |x: int| tg[x].0);
                        if firsts.contains(t as int) {
                            let x = choose|x: int| 0 <= x < firsts.len() && firsts[x] == t as int;
                            assert(targets@[x] as int == tg[x].0);
                        }
                        if dup {
                            let x = choose|x: int| 0 <= x < targets.len() && targets@[x] == t;
                            assert(firsts[x] == t as int);
                        }
                    }
                    if t != i && !dup {
                        let ghost o0 = triples_view(out@);
                        out.push((i, t, k));
                        targets.push(t);
                        proof {
                            assert(triples_view(out@) =~= o0.push((i as int, t as int, k as int)));
                            let tg2 = tg.push((t as int, k as int));
                            assert(o_start + Seq::new(tg2.len(), |j: int| (i as int, tg2[j].0, tg2[j].1)) =~= (o_start
                                + Seq::new(tg.len(), |j: int| (i as int, tg[j].0, tg[j].1))).push((i as int, t as int, k as int)));
                            tg = tg2;
                        }
                    }
                },
                None => {},
            }
            k += 1;
        }
        i += 1;
    }
    out
}

/// The index of the owned artists by lookup name, last one winning.
fn artist_index(artists: &Vec<ArtistEnrichInput>) -> (m: StringHashMap<usize>)
    ensures
        forall|name: Seq<char>| #[trigger] m@.contains_key(name) <==> resolve_artist(artists@, name, artists.len() as int) is Some,
        forall|name: Seq<char>| m@.contains_key(name) ==> resolve_artist(artists@, name, artists.len() as int) == Some(
            #[trigger] m@[name] as int,
        ),
{
    let ghost avs = artists@;
    let mut m: StringHashMap<usize> = StringHashMap::new();
    let mut i: usize = 0;
    while i < artists.len()
        invariant
            i <= artists.len(),
            avs == artists@,
            forall|name: Seq<char>| #[trigger] m@.contains_key(name) <==> resolve_artist(avs, name, i as int) is Some,
            forall|name: Seq<char>| m@.contains_key(name) ==> resolve_artist(avs, name, i as int) == Some(#[trigger] m@[name] as int),
        decreases artists.len() - i,
    {
        let name = string_of(&lowercase_chars(&trim_ws(&chars_of(artists[i].key.as_str()))));
        m.insert(name, i);
        i += 1;
    }
    m
}

/// The crowd edges between owned artists (see [`artist_similar_edges`]).
fn artist_similar_plan(artists: &Vec<ArtistEnrichInput>) -> (r: Vec<(usize, usize)>)
    ensures
        pairs_of(r@) == artist_similar_edges(artists@, artists.len() as int),
{
    let ghost avs = artists@;
    let index = artist_index(artists);
    let mut out: Vec<(usize, usize)> = Vec::new();
    let mut i: usize = 0;
    while i < artists.len()
        invariant
            i <= artists.len(),
            avs == artists@,
            forall|name: Seq<char>| #[trigger] index@.contains_key(name) <==> resolve_artist(avs, name, avs.len() as int) is Some,
            forall|name: Seq<char>| index@.contains_key(name) ==> resolve_artist(avs, name, avs.len() as int) == Some(
                #[trigger] index@[name] as int,
            ),
            pairs_of(out@) == artist_similar_edges(avs, i as int),
        decreases artists.len() - i,
    {
        let sims = &artists[i].similar;
        let ghost o_start = pairs_of(out@);
        let mut targets: Vec<usize> = Vec::new();
        let mut k: usize = 0;
        while k < sims.len()
            invariant
                k <= sims.len(),
                i < artists.len(),
                avs == artists@,
                sims@ == avs[i as int].similar@,
                forall|name: Seq<char>| #[trigger] index@.contains_key(name) <==> resolve_artist(avs, name, avs.len() as int) is Some,
                forall|name: Seq<char>| index@.contains_key(name) ==> resolve_artist(avs, name, avs.len() as int) == Some(
                    #[trigger] index@[name] as int,
                ),
                targets@.map_values(|t: usize| t as int) == artist_targets(avs, i as int, k as int),
                pairs_of(out@) == o_start + Seq::new(targets@.len(), |j: int| (i as int, targets@[j] as int)),
            decreases sims.len() - k,
        {
            let name = string_of(&lowercase_chars(&trim_ws(&chars_of(sims[k].as_str()))));
            match index.get(name.as_str()) {
                Some(t) => {
                    let t = *t;
                    let mut dup = false;
                    let mut q: usize = 0;
                    while q < targets.len()
                        invariant
                            q <= targets.len(),
                            dup == exists|x: int| 0 <= x < q && targets@[x] == t,
                        decreases targets.len() - q,
                    {
                        if targets[q] == t {
                            dup = true;
                        }
                        q += 1;
                    }
                    let ghost tv = targets@.map_values(|x: usize| x as int);
                    proof {
                        if tv.contains(t as int) {
                            let x = choose|x: int| 0 <= x < tv.len() && tv[x] == t as int;
                            assert(targets@[x] == t);
                        }
                        if dup {
                            let x = choose|x: int| 0 <= x < targets.len() && targets@[x] == t;
                            assert(tv[x] == t as int);
                        }
                    }
                    if t != i && !dup {
                        let ghost o0 = pairs_of(out@);
                        let ghost t0 = targets@;
                        out.push((i, t));
                        targets.push(t);
                        proof {
                            assert(pairs_of(out@) =~= o0.push((i as int, t as int)));
                            assert(targets@.map_values(|x: usize| x as int) =~= tv.push(t as int));
                            assert(o_start + Seq::new(targets@.len(), |j: int| (i as int, targets@[j] as int)) =~= (o_start
                                + Seq::new(t0.len(), |j: int| (i as int, t0[j] as int))).push((i as int, t as int)));
                        }
                    }
                },
                None => {},
            }
            k += 1;
        }
        assert(Seq::new(targets@.len(), |j: int| (i as int, targets@[j] as int)) =~= Seq::new(
            artist_targets(avs, i as int, sims.len() as int).len(),
            |j: int| (i as int, artist_targets(avs, i as int, sims.len() as int)[j]),
        ));
        i += 1;
    }
    out
}

} // verus!
