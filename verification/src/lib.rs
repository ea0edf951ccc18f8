//! sonagram: deterministic normalization, playlist materialization and
//! curation rules for a personal music library graph.

pub mod text;
pub mod normalize;
pub mod error;
pub mod playlist;
pub mod enrich;
pub mod order;
pub mod derive;
pub mod record;
pub mod graph;
pub mod config;
pub mod curation;
pub mod mcp;
pub mod mcp_server;
pub mod pipeline;
pub mod progress;
pub mod cli;
pub mod song;
pub mod audit;
pub mod select;
pub mod review;
pub mod profile;
pub mod args;
pub mod sources;
pub mod crowd;
pub mod cypher;
pub mod lastfm;
pub mod track_node;

use vstd::prelude::*;

verus! {

/// The sonagram crate version.
pub const VERSION: &'static str = "0.2.16";

} // verus!
