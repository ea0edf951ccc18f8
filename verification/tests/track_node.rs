use sonagram::record::{RecordMeta, SourceInfo, TagsDto};
use sonagram::sources::merge_sources;
use sonagram::track_node::{merged_track_nodes, track_node_of};

fn record(path: &str, tags: Option<TagsDto>) -> RecordMeta {
    RecordMeta {
        source: SourceInfo {
            content_hash: "h1".to_string(),
            hash_kind: "whole-file-v0".to_string(),
            path: path.to_string(),
            file_size: 4096,
            format: "mp3".to_string(),
        },
        tags,
    }
}

#[test]
fn track_node_takes_tags_ids_and_era() {
    let tags = TagsDto {
        title: Some("  Dancing Queen ".to_string()),
        artist: Some("ABBA".to_string()),
        album: Some("Arrival".to_string()),
        genre: Some("Pop".to_string()),
        year: Some(2001),
        original_year: Some(1976),
        track_no: Some(2),
    };
    let n = track_node_of(&record("abba/02.mp3", Some(tags)), Some("/music"));
    assert_eq!(n.content_hash, "h1");
    assert_eq!(n.title, "Dancing Queen");
    assert_eq!(n.filename, "02.mp3");
    assert_eq!(n.source_root.as_deref(), Some("/music"));
    assert_eq!(n.artist_name, "ABBA");
    assert_eq!(n.album_name.as_deref(), Some("Arrival"));
    assert_eq!(n.album_id.as_deref(), Some("ABBA|Arrival"));
    assert_eq!(n.genre_tag.as_deref(), Some("Pop"));
    assert_eq!(n.genre_id.as_deref(), Some("pop"));
    assert_eq!(n.era_source.as_deref(), Some("original_year"));
    assert_eq!(n.decade_id.as_deref(), Some("1970s"));
    assert_eq!((n.year, n.original_year, n.track_no, n.file_size), (Some(2001), Some(1976), Some(2), 4096));
}

#[test]
fn track_node_falls_back_without_tags() {
    let n = track_node_of(&record("dir/untitled.mp3", None), None);
    assert_eq!(n.title, "untitled.mp3");
    assert_eq!(n.artist_name, "Unknown Artist");
    assert!(n.album_id.is_none() && n.genre_id.is_none() && n.decade_id.is_none() && n.era_source.is_none());
    assert!(n.source_root.is_none());
    let blank = TagsDto {
        title: Some("   ".to_string()),
        artist: None,
        album: None,
        genre: None,
        year: Some(1999),
        original_year: None,
        track_no: None,
    };
    let n = track_node_of(&record("x.flac", Some(blank)), None);
    assert_eq!(n.title, "x.flac");
    assert_eq!(n.era_source.as_deref(), Some("file_year"));
    assert_eq!(n.decade_id.as_deref(), Some("1990s"));
}

#[test]
fn merged_library_takes_each_track_from_its_first_source() {
    let mut a = record("a.mp3", None);
    a.source.content_hash = "ha".to_string();
    let mut b = record("b.mp3", None);
    b.source.content_hash = "hb".to_string();
    let mut a2 = record("copy/a.mp3", None);
    a2.source.content_hash = "ha".to_string();
    let roots = vec!["/z".to_string(), "/m".to_string()];
    let records = vec![vec![a2], vec![a, b]];
    let hashes: Vec<Vec<String>> =
        records.iter().map(|rs| rs.iter().map(|r| r.source.content_hash.clone()).collect()).collect();
    let merged = merge_sources(&roots, &hashes);
    let nodes = merged_track_nodes(&roots, &records, &merged.firsts);
    let got: Vec<(String, String, Option<String>)> =
        nodes.iter().map(|n| (n.content_hash.clone(), n.path.clone(), n.source_root.clone())).collect();
    assert_eq!(
        got,
        vec![
            ("ha".to_string(), "a.mp3".to_string(), Some("/m".to_string())),
            ("hb".to_string(), "b.mp3".to_string(), Some("/m".to_string())),
        ]
    );
}
