//! Reading Last.fm answers into cache records: which fields are taken, how
//! counts and names are read, and when a fetch counts as failed. An answer is
//! described to the library as a JSON value whose numbers keep their decimal
//! text.

use vstd::prelude::*;

use crate::args::{opt_view, parse_unsigned, unsigned_value};
use crate::derive::{ascii_digits, digits_value};
use crate::enrich::{
    correction_for, correction_of, dedup_keep_order, dedup_seq, merge_top_tags, merge_top_tags_of, strip_html_truncate,
    strip_html_truncate_of, tag_pairs_view, AlbumEnrich, ArtistEnrich, MIN_TAG_COUNT, WIKI_MAX_CHARS,
};
use crate::text::{chars_eq, chars_of, string_of, to_lowercase, trim, trim_ws, unicode_lowercase};

verus! {

/// A JSON value of a Last.fm answer.
pub enum Json {
    Null,
    Bool(bool),
    /// A number, by its decimal text.
    Number(String),
    Text(String),
    Array(Vec<Json>),
    /// An object's members, in order, each key once.
    Object(Vec<(String, Json)>),
}

/// The value a reference points at.
pub open spec fn deref_opt(v: Option<&Json>) -> Option<Json> {
    match v {
        Some(x) => Some(*x),
        None => None,
    }
}

/// The first member named `key` from position `i` on.
pub open spec fn member_from(es: Seq<(String, Json)>, key: Seq<char>, i: int) -> Option<Json>
    decreases es.len() - i,
{
    if i < 0 || i >= es.len() {
        None
    } else if es[i].0@ == key {
        Some(es[i].1)
    } else {
        member_from(es, key, i + 1)
    }
}

/// The member `key` of an object; `None` for anything else.
pub open spec fn member(v: Option<Json>, key: Seq<char>) -> Option<Json> {
    match v {
        Some(Json::Object(es)) => member_from(es@, key, 0),
        _ => None,
    }
}

/// The member `key` of an object.
pub fn get<'a>(v: Option<&'a Json>, key: &str) -> (r: Option<&'a Json>)
    ensures
        deref_opt(r) == member(deref_opt(v), key@),
{
    match v {
        Some(Json::Object(es)) => {
            let k = chars_of(key);
            let mut i: usize = 0;
            while i < es.len()
                invariant
                    i <= es.len(),
                    k@ == key@,
                    member(deref_opt(v), key@) == member_from(es@, key@, 0),
                    member_from(es@, key@, 0) == member_from(es@, key@, i as int),
                decreases es.len() - i,
            {
                if chars_eq(&chars_of(es[i].0.as_str()), &k) {
                    assert(es@[i as int].0@ == key@);
                    return Some(&es[i].1);
                }
                i += 1;
            }
            None
        },
        _ => None,
    }
}

/// A string value, trimmed, when not blank.
pub open spec fn text_of(v: Option<Json>) -> Option<Seq<char>> {
    match v {
        Some(Json::Text(s)) => if trim(s@).len() > 0 {
            Some(trim(s@))
        } else {
            None
        },
        _ => None,
    }
}

/// A non-blank string value, trimmed.
pub fn opt_text(v: Option<&Json>) -> (r: Option<String>)
    ensures
        opt_view(r) == text_of(deref_opt(v)),
{
    match v {
        Some(Json::Text(s)) => {
            let t = trim_ws(&chars_of(s.as_str()));
            if t.len() > 0 {
                Some(string_of(&t))
            } else {
                None
            }
        },
        _ => None,
    }
}

/// What `i64::from_str` gives: an optional sign, at least one ASCII digit,
/// and a value in range.
pub open spec fn i64_value(t: Seq<char>) -> Option<i64> {
    if t.len() > 0 && t[0] == '-' {
        let d = t.drop_first();
        if d.len() > 0 && ascii_digits(d) && digits_value(d) <= 0x8000_0000_0000_0000 {
            Some((0 - digits_value(d)) as i64)
        } else {
            None
        }
    } else {
        match unsigned_value(t, 0x7fff_ffff_ffff_ffff) {
            Some(v) => Some(v as i64),
            None => None,
        }
    }
}

/// Parse a signed 64-bit integer.
pub fn parse_i64(t: &Vec<char>) -> (r: Option<i64>)
    ensures
        r == i64_value(t@),
{
    if t.len() > 0 && t[0] == '-' {
        if t.len() < 2 || t[1] == '+' {
            proof {
                if t.len() >= 2 {
                    assert(t@.drop_first()[0] == '+');
                    assert(!ascii_digits(t@.drop_first()));
                }
            }
            return None;
        }
        let mut d: Vec<char> = Vec::new();
        let mut i: usize = 1;
        while i < t.len()
            invariant
                1 <= i <= t.len(),
                d@ == t@.subrange(1, i as int),
            decreases t.len() - i,
        {
            d.push(t[i]);
            i += 1;
        }
        assert(d@ =~= t@.drop_first());
        let ds = string_of(&d);
        match parse_unsigned(ds.as_str(), 0x8000_0000_0000_0000) {
            Some(v) => {
                if v == 0x8000_0000_0000_0000 {
                    Some(i64::MIN)
                } else {
                    Some(0 - (v as i64))
                }
            },
            None => None,
        }
    } else {
        let ts = string_of(t);
        match parse_unsigned(ts.as_str(), 0x7fff_ffff_ffff_ffff) {
            Some(v) => Some(v as i64),
            None => None,
        }
    }
}

/// A count that may come as a number or as a numeric string.
pub open spec fn int_of(v: Option<Json>) -> Option<i64> {
    match v {
        Some(Json::Number(t)) => i64_value(t@),
        Some(Json::Text(s)) => if trim(s@).len() == 0 {
            None
        } else {
            i64_value(trim(s@))
        },
        _ => None,
    }
}

/// Read a count given as a number or a numeric string.
pub fn opt_int(v: Option<&Json>) -> (r: Option<i64>)
    ensures
        r == int_of(deref_opt(v)),
{
    match v {
        Some(Json::Number(t)) => parse_i64(&chars_of(t.as_str())),
        Some(Json::Text(s)) => {
            let t = trim_ws(&chars_of(s.as_str()));
            if t.len() == 0 {
                None
            } else {
                parse_i64(&t)
            }
        },
        _ => None,
    }
}

/// The entities of a node that is a list, or a single object.
pub open spec fn items_of(v: Option<Json>) -> Seq<Json> {
    match v {
        Some(Json::Array(a)) => a@,
        Some(Json::Object(es)) => seq![Json::Object(es)],
        _ => Seq::empty(),
    }
}

/// A tag entity as `(lowercased name, count)`, when it has a name.
pub open spec fn tag_pair_of(t: Json) -> Option<(Seq<char>, Option<i64>)> {
    match text_of(member(Some(t), "name"@)) {
        Some(n) => Some((unicode_lowercase(n), int_of(member(Some(t), "count"@)))),
        None => None,
    }
}

/// The tag pairs of the named entities, in order.
pub open spec fn tag_pairs_in(items: Seq<Json>) -> Seq<(Seq<char>, Option<i64>)>
    decreases items.len(),
{
    if items.len() == 0 {
        Seq::empty()
    } else {
        let p = tag_pairs_in(items.drop_last());
        match tag_pair_of(items.last()) {
            Some(x) => p.push(x),
            None => p,
        }
    }
}

/// The tag pairs of a `{"tag": ...}` container.
pub open spec fn tag_pairs_of(container: Option<Json>) -> Seq<(Seq<char>, Option<i64>)> {
    tag_pairs_in(items_of(member(container, "tag"@)))
}

/// The names of the named entities, in order.
pub open spec fn names_in(items: Seq<Json>) -> Seq<Seq<char>>
    decreases items.len(),
{
    if items.len() == 0 {
        Seq::empty()
    } else {
        let p = names_in(items.drop_last());
        match text_of(member(Some(items.last()), "name"@)) {
            Some(n) => p.push(n),
            None => p,
        }
    }
}

fn tag_pair(t: &Json) -> (r: Option<(String, Option<i64>)>)
    ensures
        match r {
            Some(p) => tag_pair_of(*t) == Some((p.0@, p.1)),
            None => tag_pair_of(*t) is None,
        },
{
    match opt_text(get(Some(t), "name")) {
        Some(n) => Some((to_lowercase(n.as_str()), opt_int(get(Some(t), "count")))),
        None => None,
    }
}

/// The `(lowercased name, count)` pairs of a `{"tag": ...}` container, in
/// order; entities without a name are skipped.
pub fn tag_pairs(container: Option<&Json>) -> (r: Vec<(String, Option<i64>)>)
    ensures
        tag_pairs_view(r@) == tag_pairs_of(deref_opt(container)),
{
    let tag = get(container, "tag");
    let mut out: Vec<(String, Option<i64>)> = Vec::new();
    match tag {
        Some(Json::Array(a)) => {
            let mut i: usize = 0;
            while i < a.len()
                invariant
                    i <= a.len(),
                    tag_pairs_view(out@) == tag_pairs_in(a@.take(i as int)),
                decreases a.len() - i,
            {
                assert(a@.take(i as int + 1).drop_last() =~= a@.take(i as int));
                match tag_pair(&a[i]) {
                    Some(p) => {
                        out.push(p);
                    },
                    None => {},
                }
                proof {
                    assert(tag_pairs_view(out@) =~= tag_pairs_in(a@.take(i as int + 1)));
                }
                i += 1;
            }
            assert(a@.take(a.len() as int) =~= a@);
        },
        Some(Json::Object(_)) => {
            let t = tag.unwrap();
            assert(items_of(deref_opt(tag)) =~= seq![*t]);
            assert(seq![*t].drop_last() =~= Seq::<Json>::empty());
            match tag_pair(t) {
                Some(p) => {
                    out.push(p);
                },
                None => {},
            }
            proof {
                reveal_with_fuel(tag_pairs_in, 2);
                assert(seq![*t].last() == *t);
            }
            assert(tag_pairs_view(out@) =~= tag_pairs_in(seq![*t]));
        },
        _ => {
            assert(tag_pairs_view(out@) =~= Seq::<(Seq<char>, Option<i64>)>::empty());
        },
    }
    out
}

/// The names of a list-or-single-object node, in order; entities without a
/// name are skipped.
pub fn collect_names(node: Option<&Json>) -> (r: Vec<String>)
    ensures
        r.deep_view() == names_in(items_of(deref_opt(node))),
{
    let mut out: Vec<String> = Vec::new();
    match node {
        Some(Json::Array(a)) => {
            let mut i: usize = 0;
            while i < a.len()
                invariant
                    i <= a.len(),
                    out.deep_view() == names_in(a@.take(i as int)),
                decreases a.len() - i,
            {
                assert(a@.take(i as int + 1).drop_last() =~= a@.take(i as int));
                match opt_text(get(Some(&a[i]), "name")) {
                    Some(n) => {
                        out.push(n);
                    },
                    None => {},
                }
                proof {
                    assert(out.deep_view() =~= names_in(a@.take(i as int + 1)));
                }
                i += 1;
            }
            assert(a@.take(a.len() as int) =~= a@);
        },
        Some(Json::Object(_)) => {
            let t = node.unwrap();
            assert(items_of(deref_opt(node)) =~= seq![*t]);
            assert(seq![*t].drop_last() =~= Seq::<Json>::empty());
            match opt_text(get(Some(t), "name")) {
                Some(n) => {
                    out.push(n);
                },
                None => {},
            }
            proof {
                reveal_with_fuel(names_in, 2);
                assert(seq![*t].last() == *t);
            }
            assert(out.deep_view() =~= names_in(seq![*t]));
        },
        _ => {
            assert(out.deep_view() =~= Seq::<Seq<char>>::empty());
        },
    }
    out
}


/// The names of tag pairs.
pub open spec fn pair_names(ps: Seq<(Seq<char>, Option<i64>)>) -> Seq<Seq<char>> {
    Seq::new(ps.len(), |i: int| ps[i].0)
}

/// The tag names of a container, without a count filter, each once in
/// first-seen order.
pub open spec fn base_tags(container: Option<Json>) -> Seq<Seq<char>> {
    dedup_seq(pair_names(tag_pairs_of(container)))
}

/// The tag names of a container, without a count filter, each once in
/// first-seen order.
pub fn tag_names_unfiltered(container: Option<&Json>) -> (r: Vec<String>)
    ensures
        r.deep_view() == base_tags(deref_opt(container)),
{
    let ps = tag_pairs(container);
    let ghost pv = tag_pairs_view(ps@);
    let mut names: Vec<String> = Vec::new();
    let mut i: usize = 0;
    while i < ps.len()
        invariant
            i <= ps.len(),
            pv == tag_pairs_view(ps@),
            names.deep_view() == pair_names(pv).take(i as int),
        decreases ps.len() - i,
    {
        let x = ps[i].0.clone();
        assert(pv[i as int] == (ps@[i as int].0@, ps@[i as int].1));
        assert(x@ == pair_names(pv)[i as int]);
        let ghost before = names.deep_view();
        names.push(x);
        assert(names.deep_view() =~= before.push(x@));
        assert(names.deep_view() =~= pair_names(pv).take(i as int + 1));
        i += 1;
    }
    assert(pair_names(pv).take(ps.len() as int) =~= pair_names(pv));
    dedup_keep_order(names)
}

/// The reason a fetch failed: `"<method> returned no data"` without an
/// answer, else `"<method> returned no `<entity>`"`.
pub open spec fn failure_reason(method: Seq<char>, entity: Seq<char>, answered: bool) -> Seq<char> {
    if answered {
        method + " returned no `"@ + entity + "`"@
    } else {
        method + " returned no data"@
    }
}

/// The tags of an artist: the `getInfo` tags, then the `getTopTags` tags with
/// a count of at least [`MIN_TAG_COUNT`] not yet listed.
pub open spec fn artist_tags_of(info: Option<Json>, top: Option<Json>) -> Seq<Seq<char>> {
    let base = base_tags(member(member(info, "artist"@), "tags"@));
    match top {
        Some(t) => merge_top_tags_of(base, tag_pairs_of(member(Some(t), "toptags"@)), MIN_TAG_COUNT),
        None => base,
    }
}

/// The cache record of an artist from the answers of `artist.getInfo` and
/// `artist.getTopTags` (`None` where a call gave no data). The record is
/// always marked fetched; it is failed when `getInfo` gave no artist.
pub fn artist_record(name: &str, info: Option<&Json>, top: Option<&Json>) -> (r: ArtistEnrich)
    ensures
        r.queried_name@ == name@,
        r.fetched,
        r.tags.deep_view() == artist_tags_of(deref_opt(info), deref_opt(top)),
        ({
            let a = member(deref_opt(info), "artist"@);
            match a {
                Some(_) => !r.failed && r.reason is None && opt_view(r.url) == text_of(member(a, "url"@))
                    && opt_view(r.mbid) == text_of(member(a, "mbid"@)) && r.listeners == int_of(
                    member(member(a, "stats"@), "listeners"@),
                ) && r.playcount == int_of(member(member(a, "stats"@), "playcount"@)) && opt_view(r.correction)
                    == (match text_of(member(a, "name"@)) {
                    Some(ret) => correction_of(name@, ret),
                    None => None,
                }) && r.similar.deep_view() == names_in(items_of(member(member(a, "similar"@), "artist"@))),
                None => r.failed && opt_view(r.reason) == Some(
                    failure_reason("artist.getInfo"@, "artist"@, deref_opt(info) is Some),
                ) && r.url is None && r.mbid is None && r.listeners is None && r.playcount is None
                    && r.correction is None && r.similar@.len() == 0,
            }
        }),
{
    let mut rec = ArtistEnrich::default();
    rec.queried_name = string_of(&chars_of(name));
    rec.fetched = true;
    let a = get(info, "artist");
    match a {
        Some(_) => {
            rec.url = opt_text(get(a, "url"));
            rec.mbid = opt_text(get(a, "mbid"));
            let stats = get(a, "stats");
            rec.listeners = opt_int(get(stats, "listeners"));
            rec.playcount = opt_int(get(stats, "playcount"));
            match opt_text(get(a, "name")) {
                Some(returned) => {
                    rec.correction = correction_for(name, returned.as_str());
                },
                None => {},
            }
            rec.tags = tag_names_unfiltered(get(a, "tags"));
            rec.similar = collect_names(get(get(a, "similar"), "artist"));
        },
        None => {
            rec.failed = true;
            let m = if info.is_some() {
                "artist.getInfo returned no `artist`"
            } else {
                "artist.getInfo returned no data"
            };
            proof {
                reveal_strlit("artist.getInfo returned no `artist`");
                reveal_strlit("artist.getInfo returned no data");
                reveal_strlit("artist.getInfo");
                reveal_strlit(" returned no `");
                reveal_strlit("artist");
                reveal_strlit("`");
                reveal_strlit(" returned no data");
                assert(m@ =~= failure_reason("artist.getInfo"@, "artist"@, deref_opt(info) is Some));
            }
            rec.reason = Some(string_of(&chars_of(m)));
            assert(rec.tags.deep_view() =~= Seq::<Seq<char>>::empty());
            assert(tag_pairs_of(None) =~= Seq::<(Seq<char>, Option<i64>)>::empty());
            assert(pair_names(Seq::<(Seq<char>, Option<i64>)>::empty()) =~= Seq::<Seq<char>>::empty());
        },
    }
    match top {
        Some(_) => {
            let tp = tag_pairs(get(top, "toptags"));
            merge_top_tags(&mut rec.tags, tp.as_slice(), MIN_TAG_COUNT);
        },
        None => {},
    }
    rec
}

/// The cache record of an album from the answer of `album.getInfo` (`None`
/// when the call gave no data). The record is always marked fetched; it is
/// failed when no album came back.
pub fn album_record(info: Option<&Json>) -> (r: AlbumEnrich)
    ensures
        r.fetched,
        ({
            let al = member(deref_opt(info), "album"@);
            match al {
                Some(_) => !r.failed && r.reason is None && opt_view(r.url) == text_of(member(al, "url"@))
                    && opt_view(r.mbid) == text_of(member(al, "mbid"@)) && r.listeners == int_of(
                    member(al, "listeners"@),
                ) && r.playcount == int_of(member(al, "playcount"@)) && r.tags.deep_view() == base_tags(
                    member(al, "tags"@),
                ) && opt_view(r.wiki_summary) == (match member(member(al, "wiki"@), "summary"@) {
                    Some(Json::Text(s)) => strip_html_truncate_of(s@, WIKI_MAX_CHARS as nat),
                    _ => None,
                }),
                None => r.failed && opt_view(r.reason) == Some(
                    failure_reason("album.getInfo"@, "album"@, deref_opt(info) is Some),
                ) && r.url is None && r.mbid is None && r.listeners is None && r.playcount is None
                    && r.tags@.len() == 0 && r.wiki_summary is None,
            }
        }),
{
    let mut rec = AlbumEnrich::default();
    rec.fetched = true;
    let al = get(info, "album");
    match al {
        Some(_) => {
            rec.mbid = opt_text(get(al, "mbid"));
            rec.url = opt_text(get(al, "url"));
            rec.listeners = opt_int(get(al, "listeners"));
            rec.playcount = opt_int(get(al, "playcount"));
            rec.tags = tag_names_unfiltered(get(al, "tags"));
            rec.wiki_summary = match get(get(al, "wiki"), "summary") {
                Some(Json::Text(s)) => strip_html_truncate(s.as_str(), WIKI_MAX_CHARS),
                _ => None,
            };
        },
        None => {
            rec.failed = true;
            let m = if info.is_some() {
                "album.getInfo returned no `album`"
            } else {
                "album.getInfo returned no data"
            };
            proof {
                reveal_strlit("album.getInfo returned no `album`");
                reveal_strlit("album.getInfo returned no data");
                reveal_strlit("album.getInfo");
                reveal_strlit(" returned no `");
                reveal_strlit("album");
                reveal_strlit("`");
                reveal_strlit(" returned no data");
                assert(m@ =~= failure_reason("album.getInfo"@, "album"@, deref_opt(info) is Some));
            }
            rec.reason = Some(string_of(&chars_of(m)));
        },
    }
    rec
}


/// What a track record holds besides its similar tracks.
pub struct TrackFacts {
    pub mbid: Option<String>,
    pub url: Option<String>,
    /// Duration in milliseconds; only a positive one is kept.
    pub duration_ms: Option<i64>,
    pub listeners: Option<i64>,
    pub playcount: Option<i64>,
    /// Last.fm's (autocorrected) artist name.
    pub lastfm_artist: Option<String>,
    /// Last.fm's (autocorrected) title.
    pub lastfm_title: Option<String>,
    /// The original album, when Last.fm names one.
    pub album_title: Option<String>,
    pub album_mbid: Option<String>,
    pub album_url: Option<String>,
    pub album_position: Option<i64>,
    /// Folksonomy tags, lowercased, each once.
    pub tags: Vec<String>,
    pub fetched: bool,
    pub failed: bool,
    pub reason: Option<String>,
}

/// A positive value, else `None`.
pub open spec fn positive(v: Option<i64>) -> Option<i64> {
    match v {
        Some(d) => if d > 0 {
            Some(d)
        } else {
            None
        },
        None => None,
    }
}

/// The facts of a track from the answer of `track.getInfo` (`None` when the
/// call gave no data). The record is always marked fetched; it is failed
/// when no track came back. The album fields are kept only when the album
/// has a title.
pub fn track_facts(info: Option<&Json>) -> (r: TrackFacts)
    ensures
        r.fetched,
        ({
            let t = member(deref_opt(info), "track"@);
            let al = member(t, "album"@);
            let titled = text_of(member(al, "title"@)) is Some;
            match t {
                Some(_) => !r.failed && r.reason is None && opt_view(r.mbid) == text_of(member(t, "mbid"@))
                    && opt_view(r.url) == text_of(member(t, "url"@)) && opt_view(r.lastfm_title) == text_of(
                    member(t, "name"@),
                ) && r.duration_ms == positive(int_of(member(t, "duration"@))) && r.listeners == int_of(
                    member(t, "listeners"@),
                ) && r.playcount == int_of(member(t, "playcount"@)) && opt_view(r.lastfm_artist) == text_of(
                    member(member(t, "artist"@), "name"@),
                ) && opt_view(r.album_title) == text_of(member(al, "title"@)) && opt_view(r.album_mbid) == (
                if titled {
                    text_of(member(al, "mbid"@))
                } else {
                    None
                }) && opt_view(r.album_url) == (if titled {
                    text_of(member(al, "url"@))
                } else {
                    None
                }) && r.album_position == (if titled {
                    int_of(member(member(al, "@attr"@), "position"@))
                } else {
                    None
                }) && r.tags.deep_view() == base_tags(member(t, "toptags"@)),
                None => r.failed && opt_view(r.reason) == Some(
                    failure_reason("track.getInfo"@, "track"@, deref_opt(info) is Some),
                ) && r.mbid is None && r.url is None && r.duration_ms is None && r.listeners is None
                    && r.playcount is None && r.lastfm_artist is None && r.lastfm_title is None
                    && r.album_title is None && r.album_mbid is None && r.album_url is None
                    && r.album_position is None && r.tags@.len() == 0,
            }
        }),
{
    let mut rec = TrackFacts {
        mbid: None,
        url: None,
        duration_ms: None,
        listeners: None,
        playcount: None,
        lastfm_artist: None,
        lastfm_title: None,
        album_title: None,
        album_mbid: None,
        album_url: None,
        album_position: None,
        tags: Vec::new(),
        fetched: true,
        failed: false,
        reason: None,
    };
    let t = get(info, "track");
    match t {
        Some(_) => {
            rec.mbid = opt_text(get(t, "mbid"));
            rec.url = opt_text(get(t, "url"));
            rec.lastfm_title = opt_text(get(t, "name"));
            rec.duration_ms = match opt_int(get(t, "duration")) {
                Some(d) => if d > 0 {
                    Some(d)
                } else {
                    None
                },
                None => None,
            };
            rec.listeners = opt_int(get(t, "listeners"));
            rec.playcount = opt_int(get(t, "playcount"));
            rec.lastfm_artist = opt_text(get(get(t, "artist"), "name"));
            let al = get(t, "album");
            match opt_text(get(al, "title")) {
                Some(atitle) => {
                    rec.album_title = Some(atitle);
                    rec.album_mbid = opt_text(get(al, "mbid"));
                    rec.album_url = opt_text(get(al, "url"));
                    rec.album_position = opt_int(get(get(al, "@attr"), "position"));
                },
                None => {},
            }
            rec.tags = tag_names_unfiltered(get(t, "toptags"));
        },
        None => {
            rec.failed = true;
            let m = if info.is_some() {
                "track.getInfo returned no `track`"
            } else {
                "track.getInfo returned no data"
            };
            proof {
                reveal_strlit("track.getInfo returned no `track`");
                reveal_strlit("track.getInfo returned no data");
                reveal_strlit("track.getInfo");
                reveal_strlit(" returned no `");
                reveal_strlit("track");
                reveal_strlit("`");
                reveal_strlit(" returned no data");
                assert(m@ =~= failure_reason("track.getInfo"@, "track"@, deref_opt(info) is Some));
            }
            rec.reason = Some(string_of(&chars_of(m)));
        },
    }
    rec
}

/// A similar track as `track.getSimilar` names it, with the text of its
/// `match` weight.
pub struct SimilarCandidate {
    pub artist: String,
    pub title: String,
    /// A numeric weight's decimal text, or a string weight trimmed.
    pub weight_text: Option<String>,
}

/// The text of a weight that is a number or a string.
pub open spec fn weight_text_of(v: Option<Json>) -> Option<Seq<char>> {
    match v {
        Some(Json::Number(t)) => Some(t@),
        Some(Json::Text(s)) => Some(trim(s@)),
        _ => None,
    }
}

/// A similar-track entity as `(artist, title, weight text)`, when it names
/// both its artist and its title.
pub open spec fn similar_of(sim: Json) -> Option<(Seq<char>, Seq<char>, Option<Seq<char>>)> {
    match (text_of(member(member(Some(sim), "artist"@), "name"@)), text_of(member(Some(sim), "name"@))) {
        (Some(a), Some(t)) => Some((a, t, weight_text_of(member(Some(sim), "match"@)))),
        _ => None,
    }
}

/// The similar tracks of the entities, in order.
pub open spec fn similars_in(items: Seq<Json>) -> Seq<(Seq<char>, Seq<char>, Option<Seq<char>>)>
    decreases items.len(),
{
    if items.len() == 0 {
        Seq::empty()
    } else {
        let p = similars_in(items.drop_last());
        match similar_of(items.last()) {
            Some(x) => p.push(x),
            None => p,
        }
    }
}

/// The view of similar candidates.
pub open spec fn candidates_view(v: Seq<SimilarCandidate>) -> Seq<(Seq<char>, Seq<char>, Option<Seq<char>>)> {
    Seq::new(v.len(), |i: int| (v[i].artist@, v[i].title@, opt_view(v[i].weight_text)))
}

fn similar_candidate(sim: &Json) -> (r: Option<SimilarCandidate>)
    ensures
        match r {
            Some(c) => similar_of(*sim) == Some((c.artist@, c.title@, opt_view(c.weight_text))),
            None => similar_of(*sim) is None,
        },
{
    let a = opt_text(get(get(Some(sim), "artist"), "name"));
    let t = opt_text(get(Some(sim), "name"));
    match (a, t) {
        (Some(a), Some(t)) => {
            let weight_text = match get(Some(sim), "match") {
                Some(Json::Number(n)) => Some(n.clone()),
                Some(Json::Text(s)) => Some(string_of(&trim_ws(&chars_of(s.as_str())))),
                _ => None,
            };
            Some(SimilarCandidate { artist: a, title: t, weight_text })
        },
        _ => None,
    }
}

/// The similar tracks of a `track.getSimilar` answer (`None` when the call
/// gave no data), in order; entities lacking an artist or a title are
/// skipped.
pub fn similar_candidates(answer: Option<&Json>) -> (r: Vec<SimilarCandidate>)
    ensures
        candidates_view(r@) == similars_in(items_of(member(member(deref_opt(answer), "similartracks"@), "track"@))),
{
    let node = get(get(answer, "similartracks"), "track");
    let mut out: Vec<SimilarCandidate> = Vec::new();
    match node {
        Some(Json::Array(a)) => {
            let mut i: usize = 0;
            while i < a.len()
                invariant
                    i <= a.len(),
                    candidates_view(out@) == similars_in(a@.take(i as int)),
                decreases a.len() - i,
            {
                assert(a@.take(i as int + 1).drop_last() =~= a@.take(i as int));
                match similar_candidate(&a[i]) {
                    Some(c) => {
                        out.push(c);
                    },
                    None => {},
                }
                proof {
                    assert(candidates_view(out@) =~= similars_in(a@.take(i as int + 1)));
                }
                i += 1;
            }
            assert(a@.take(a.len() as int) =~= a@);
        },
        Some(Json::Object(_)) => {
            let t = node.unwrap();
            assert(items_of(deref_opt(node)) =~= seq![*t]);
            assert(seq![*t].drop_last() =~= Seq::<Json>::empty());
            match similar_candidate(t) {
                Some(c) => {
                    out.push(c);
                },
                None => {},
            }
            proof {
                reveal_with_fuel(similars_in, 2);
                assert(seq![*t].last() == *t);
            }
            assert(candidates_view(out@) =~= similars_in(seq![*t]));
        },
        _ => {
            assert(candidates_view(out@) =~= Seq::<(Seq<char>, Seq<char>, Option<Seq<char>>)>::empty());
        },
    }
    out
}

} // verus!
