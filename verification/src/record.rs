//! The identity and tag parts of a persisted analysis record: where the audio
//! came from, the container tags the graph builder reads, and how the
//! analysis was produced.

use vstd::prelude::*;

verus! {

/// Version of the persisted record format.
pub const RECORD_VERSION: u32 = 1;

/// Identity and provenance of the source audio file.
#[derive(Debug, Clone, PartialEq)]
pub struct SourceInfo {
    /// Hex-encoded content hash of the audio.
    pub content_hash: String,
    /// How `content_hash` was computed.
    pub hash_kind: String,
    /// File name only, never a directory.
    pub path: String,
    /// File size in bytes.
    pub file_size: u64,
    /// Container format, e.g. `"mp3"`.
    pub format: String,
}

/// File tags.
#[derive(Debug, Clone, PartialEq)]
pub struct TagsDto {
    pub title: Option<String>,
    pub artist: Option<String>,
    pub album: Option<String>,
    pub genre: Option<String>,
    /// Release year of this file or edition (a reissue carries the reissue
    /// date).
    pub year: Option<u32>,
    /// Original release year, when the file carries one.
    pub original_year: Option<u32>,
    pub track_no: Option<u32>,
}

/// How an analysis result was produced.
#[derive(Debug, Clone, PartialEq)]
pub struct ProvenanceDto {
    pub schema_version: u32,
    pub sample_rate: u32,
    pub hop_length: usize,
    /// Canonical lowercase mode name (`"compact"`, `"playlist"`, `"full"`).
    pub mode: String,
    pub requested_features: Option<Vec<String>>,
    pub genre_model_id: Option<String>,
    pub vocalness_model_id: Option<String>,
    pub aggression_model_id: Option<String>,
}

/// The parts of an analysis record that grouping and enrichment read: where
/// the audio came from and its tags.
#[derive(Debug, Clone, PartialEq)]
pub struct RecordMeta {
    pub source: SourceInfo,
    pub tags: Option<TagsDto>,
}

/// An optional string as plain values.
pub open spec fn opt_str_view(o: Option<String>) -> Option<Seq<char>> {
    match o {
        Some(s) => Some(s@),
        None => None,
    }
}

/// The artist tag of a record.
pub open spec fn tag_artist(r: RecordMeta) -> Option<Seq<char>> {
    match r.tags {
        Some(t) => opt_str_view(t.artist),
        None => None,
    }
}

/// The title tag of a record.
pub open spec fn tag_title(r: RecordMeta) -> Option<Seq<char>> {
    match r.tags {
        Some(t) => opt_str_view(t.title),
        None => None,
    }
}

/// The album tag of a record.
pub open spec fn tag_album(r: RecordMeta) -> Option<Seq<char>> {
    match r.tags {
        Some(t) => opt_str_view(t.album),
        None => None,
    }
}

/// The genre tag of a record.
pub open spec fn tag_genre(r: RecordMeta) -> Option<Seq<char>> {
    match r.tags {
        Some(t) => opt_str_view(t.genre),
        None => None,
    }
}

impl RecordMeta {
    /// The artist tag.
    pub fn artist(&self) -> (r: Option<&str>)
        ensures
            match r {
                Some(a) => tag_artist(*self) == Some(a@),
                None => tag_artist(*self) is None,
            },
    {
        match &self.tags {
            Some(t) => match &t.artist {
                Some(a) => Some(a.as_str()),
                None => None,
            },
            None => None,
        }
    }

    /// The title tag.
    pub fn title(&self) -> (r: Option<&str>)
        ensures
            match r {
                Some(a) => tag_title(*self) == Some(a@),
                None => tag_title(*self) is None,
            },
    {
        match &self.tags {
            Some(t) => match &t.title {
                Some(a) => Some(a.as_str()),
                None => None,
            },
            None => None,
        }
    }

    /// The album tag.
    pub fn album(&self) -> (r: Option<&str>)
        ensures
            match r {
                Some(a) => tag_album(*self) == Some(a@),
                None => tag_album(*self) is None,
            },
    {
        match &self.tags {
            Some(t) => match &t.album {
                Some(a) => Some(a.as_str()),
                None => None,
            },
            None => None,
        }
    }
}

} // verus!
