//! The Track node of a record and the edges it starts: its properties that
//! come from the file and its tags, and the ids of the artist, source,
//! album, genre and decade it links to. The analysed audio numbers are added
//! by the caller.

use vstd::prelude::*;

use crate::graph::{era_source_file, era_source_original, era_year};
use crate::normalize::{
    album_id, album_id_of, album_name, artist_id, artist_id_of, decade_id, decade_id_of, file_name_of,
    filename_from_path, genre_id, genre_id_of, present_tag, present_tag_exec,
};
use crate::record::{opt_str_view, tag_album, tag_artist, tag_genre, tag_title, RecordMeta};
use crate::text::{chars_of, string_of};

verus! {

/// A Track node with the ids of the nodes its edges reach.
pub struct TrackNode {
    /// The node id: the content hash.
    pub content_hash: String,
    /// The title tag, else the file name.
    pub title: String,
    pub path: String,
    /// The source root the track was scanned from (the `FROM_SOURCE` edge).
    pub source_root: Option<String>,
    pub filename: String,
    /// The artist id (the `BY_ARTIST` edge).
    pub artist_name: String,
    pub album_name: Option<String>,
    pub genre_tag: Option<String>,
    pub format: String,
    pub year: Option<u32>,
    pub original_year: Option<u32>,
    /// Which year tag the era year came from.
    pub era_source: Option<String>,
    pub track_no: Option<u32>,
    pub file_size: u64,
    /// The album id (the `ON_ALBUM` edge).
    pub album_id: Option<String>,
    /// The genre id (the `IN_GENRE` edge).
    pub genre_id: Option<String>,
    /// The decade id of the era year (the `FROM_DECADE` edge).
    pub decade_id: Option<String>,
}

/// The era year of a record: the original release year when tagged, else
/// the file's year.
pub open spec fn era_of(rec: RecordMeta) -> Option<(u32, Seq<char>)> {
    match rec.tags {
        None => None,
        Some(t) => match (t.original_year, t.year) {
            (Some(oy), _) => Some((oy, era_source_original())),
            (None, Some(y)) => Some((y, era_source_file())),
            (None, None) => None,
        },
    }
}

/// The title of a Track: the title tag, trimmed, when not blank; else the
/// file name of its path.
pub open spec fn track_title_of(rec: RecordMeta) -> Seq<char> {
    match present_tag(tag_title(rec)) {
        Some(t) => t,
        None => file_name_of(rec.source.path@),
    }
}

/// The Track node of `rec`, scanned from `source_root` (see [`TrackNode`]).
pub open spec fn is_track_node_of(n: TrackNode, rec: RecordMeta, source_root: Option<Seq<char>>) -> bool {
    let artist = artist_id_of(tag_artist(rec));
    &&& n.content_hash@ == rec.source.content_hash@
    &&& n.title@ == track_title_of(rec)
    &&& n.path@ == rec.source.path@
    &&& opt_str_view(n.source_root) == source_root
    &&& n.filename@ == file_name_of(rec.source.path@)
    &&& n.artist_name@ == artist
    &&& opt_str_view(n.album_name) == present_tag(tag_album(rec))
    &&& opt_str_view(n.genre_tag) == present_tag(tag_genre(rec))
    &&& n.format@ == rec.source.format@
    &&& n.year == (match rec.tags {
        Some(t) => t.year,
        None => None,
    })
    &&& n.original_year == (match rec.tags {
        Some(t) => t.original_year,
        None => None,
    })
    &&& n.track_no == (match rec.tags {
        Some(t) => t.track_no,
        None => None,
    })
    &&& n.file_size == rec.source.file_size
    &&& opt_str_view(n.era_source) == (match era_of(rec) {
        Some(e) => Some(e.1),
        None => None,
    })
    &&& opt_str_view(n.album_id) == album_id_of(artist, tag_album(rec))
    &&& opt_str_view(n.genre_id) == genre_id_of(tag_genre(rec))
    &&& opt_str_view(n.decade_id) == (match era_of(rec) {
        Some(e) => Some(decade_id_of(e.0 as nat)),
        None => None,
    })
}

fn opt_string(s: Option<&str>) -> (r: Option<String>)
    ensures
        opt_str_view(r) == (match s {
            Some(t) => Some(t@),
            None => None,
        }),
{
    match s {
        Some(t) => Some(string_of(&chars_of(t))),
        None => None,
    }
}

fn opt_chars(v: Option<Vec<char>>) -> (r: Option<String>)
    ensures
        opt_str_view(r) == (match v {
            Some(t) => Some(t@),
            None => None,
        }),
{
    match v {
        Some(t) => Some(string_of(&t)),
        None => None,
    }
}

/// The Track node of a record scanned from `source_root` (see
/// [`is_track_node_of`]).
pub fn track_node_of(rec: &RecordMeta, source_root: Option<&str>) -> (n: TrackNode)
    ensures
        is_track_node_of(
            n,
            *rec,
            match source_root {
                Some(t) => Some(t@),
                None => None,
            },
        ),
{
    let title_tag = rec.title();
    let artist_tag = rec.artist();
    let album_tag = rec.album();
    let genre_tag: Option<&str> = match &rec.tags {
        Some(t) => match &t.genre {
            Some(g) => Some(g.as_str()),
            None => None,
        },
        None => None,
    };
    let title = match present_tag_exec(title_tag) {
        Some(t) => string_of(&t),
        None => filename_from_path(rec.source.path.as_str()),
    };
    let artist = artist_id(artist_tag);
    let (year, original_year, track_no) = match &rec.tags {
        Some(t) => (t.year, t.original_year, t.track_no),
        None => (None, None, None),
    };
    let tags_ref = match &rec.tags {
        Some(t) => Some(t),
        None => None,
    };
    let era = era_year(tags_ref);
    let (era_source, decade) = match era {
        Some((y, s)) => (Some(string_of(&chars_of(s))), Some(decade_id(y))),
        None => (None, None),
    };
    TrackNode {
        content_hash: string_of(&chars_of(rec.source.content_hash.as_str())),
        title,
        path: string_of(&chars_of(rec.source.path.as_str())),
        source_root: opt_string(source_root),
        filename: filename_from_path(rec.source.path.as_str()),
        album_id: album_id(artist.as_str(), album_tag),
        artist_name: artist,
        album_name: album_name(album_tag),
        genre_tag: opt_chars(present_tag_exec(genre_tag)),
        format: string_of(&chars_of(rec.source.format.as_str())),
        year,
        original_year,
        era_source,
        track_no,
        file_size: rec.source.file_size,
        genre_id: genre_id(genre_tag),
        decade_id: decade,
    }
}


/// The Track nodes of a merged library: for each `(source, record)` pair of
/// `firsts` (see `merge_sources`), in order, the node of that record scanned
/// from that source's root.
pub fn merged_track_nodes(
    roots: &Vec<String>,
    records: &Vec<Vec<RecordMeta>>,
    firsts: &Vec<(usize, usize)>,
) -> (r: Vec<TrackNode>)
    requires
        roots.len() == records.len(),
        forall|t: int| 0 <= t < firsts.len() ==> (#[trigger] firsts@[t]).0 < records.len() && firsts@[t].1
            < records@[firsts@[t].0 as int].len(),
    ensures
        r.len() == firsts.len(),
        forall|t: int| 0 <= t < firsts.len() ==> is_track_node_of(
            #[trigger] r@[t],
            records@[firsts@[t].0 as int]@[firsts@[t].1 as int],
            Some(roots@[firsts@[t].0 as int]@),
        ),
{
    let mut out: Vec<TrackNode> = Vec::new();
    let mut t: usize = 0;
    while t < firsts.len()
        invariant
            t <= firsts.len(),
            roots.len() == records.len(),
            forall|u: int| 0 <= u < firsts.len() ==> (#[trigger] firsts@[u]).0 < records.len() && firsts@[u].1
                < records@[firsts@[u].0 as int].len(),
            out.len() == t,
            forall|u: int| 0 <= u < t ==> is_track_node_of(
                #[trigger] out@[u],
                records@[firsts@[u].0 as int]@[firsts@[u].1 as int],
                Some(roots@[firsts@[u].0 as int]@),
            ),
        decreases firsts.len() - t,
    {
        let (s, i) = firsts[t];
        assert(firsts@[t as int] == (s, i));
        let n = track_node_of(&records[s][i], Some(roots[s].as_str()));
        out.push(n);
        t += 1;
    }
    out
}

} // verus!
