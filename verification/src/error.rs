//! Error type for sonagram.

use vstd::prelude::*;

use crate::text::{chars_of, concat, string_of};

verus! {

/// The crate-wide error type. Each variant carries its human-readable detail.
#[derive(Debug, Clone)]
pub enum SonagramError {
    /// Filesystem / IO failure while scanning a library or reading a cache.
    Io(String),
    /// An analysis failure surfaced from the audio-analysis upstream.
    Audio(String),
    /// A graph mapping / storage failure.
    Graph(String),
    /// A scan-cache failure.
    Cache(String),
    /// A playlist-materialization failure (empty track set, unresolvable
    /// track ids, or a result with no usable Track id column).
    Playlist(String),
    /// A Last.fm enrichment failure that aborts the whole run.
    Enrich(String),
    /// A configuration / registry failure.
    Config(String),
}


impl SonagramError {
    /// The detail text a variant carries.
    pub open spec fn detail(&self) -> Seq<char> {
        match self {
            SonagramError::Io(d) => d@,
            SonagramError::Audio(d) => d@,
            SonagramError::Graph(d) => d@,
            SonagramError::Cache(d) => d@,
            SonagramError::Playlist(d) => d@,
            SonagramError::Enrich(d) => d@,
            SonagramError::Config(d) => d@,
        }
    }

    /// The kind prefix of the rendered message.
    pub open spec fn prefix(&self) -> Seq<char> {
        match self {
            SonagramError::Io(_) => seq!['i', 'o', ' ', 'e', 'r', 'r', 'o', 'r', ':', ' '],
            SonagramError::Audio(_) => seq!['a', 'u', 'd', 'i', 'o', ' ', 'a', 'n', 'a', 'l', 'y', 's', 'i', 's', ' ', 'e', 'r', 'r', 'o', 'r', ':', ' '],
            SonagramError::Graph(_) => seq!['g', 'r', 'a', 'p', 'h', ' ', 'e', 'r', 'r', 'o', 'r', ':', ' '],
            SonagramError::Cache(_) => seq!['c', 'a', 'c', 'h', 'e', ' ', 'e', 'r', 'r', 'o', 'r', ':', ' '],
            SonagramError::Playlist(_) => seq!['p', 'l', 'a', 'y', 'l', 'i', 's', 't', ' ', 'e', 'r', 'r', 'o', 'r', ':', ' '],
            SonagramError::Enrich(_) => seq!['e', 'n', 'r', 'i', 'c', 'h', ' ', 'e', 'r', 'r', 'o', 'r', ':', ' '],
            SonagramError::Config(_) => seq!['c', 'o', 'n', 'f', 'i', 'g', ' ', 'e', 'r', 'r', 'o', 'r', ':', ' '],
        }
    }

    /// The rendered message: `"<kind> error: <detail>"`.
    pub fn message(&self) -> (r: String)
        ensures
            r@ == self.prefix() + self.detail(),
    {
        let (p, d) = match self {
            SonagramError::Io(d) => (vec!['i', 'o', ' ', 'e', 'r', 'r', 'o', 'r', ':', ' '], d),
            SonagramError::Audio(d) => (vec!['a', 'u', 'd', 'i', 'o', ' ', 'a', 'n', 'a', 'l', 'y', 's', 'i', 's', ' ', 'e', 'r', 'r', 'o', 'r', ':', ' '], d),
            SonagramError::Graph(d) => (vec!['g', 'r', 'a', 'p', 'h', ' ', 'e', 'r', 'r', 'o', 'r', ':', ' '], d),
            SonagramError::Cache(d) => (vec!['c', 'a', 'c', 'h', 'e', ' ', 'e', 'r', 'r', 'o', 'r', ':', ' '], d),
            SonagramError::Playlist(d) => (vec!['p', 'l', 'a', 'y', 'l', 'i', 's', 't', ' ', 'e', 'r', 'r', 'o', 'r', ':', ' '], d),
            SonagramError::Enrich(d) => (vec!['e', 'n', 'r', 'i', 'c', 'h', ' ', 'e', 'r', 'r', 'o', 'r', ':', ' '], d),
            SonagramError::Config(d) => (vec!['c', 'o', 'n', 'f', 'i', 'g', ' ', 'e', 'r', 'r', 'o', 'r', ':', ' '], d),
        };
        let r = concat(&p, &chars_of(d.as_str()));
        proof {
            match self {
                SonagramError::Io(_) => assert(p@ =~= self.prefix()),
                SonagramError::Audio(_) => assert(p@ =~= self.prefix()),
                SonagramError::Graph(_) => assert(p@ =~= self.prefix()),
                SonagramError::Cache(_) => assert(p@ =~= self.prefix()),
                SonagramError::Playlist(_) => assert(p@ =~= self.prefix()),
                SonagramError::Enrich(_) => assert(p@ =~= self.prefix()),
                SonagramError::Config(_) => assert(p@ =~= self.prefix()),
            }
        }
        string_of(&r)
    }
}

} // verus!
