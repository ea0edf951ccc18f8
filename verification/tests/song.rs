use sonagram::derive::SimEdge;
use sonagram::record::{RecordMeta, SourceInfo, TagsDto};
use sonagram::song::{
    group_songs, is_better, is_junk_artist, ordered_pair, refine_songs, version_key, SongGroup,
    SongGrouping,
};

fn rec(hash: &str, artist: Option<&str>, title: Option<&str>) -> RecordMeta {
    RecordMeta {
        source: SourceInfo {
            content_hash: hash.to_string(),
            hash_kind: "whole-file-v0".to_string(),
            path: format!("{hash}.mp3"),
            file_size: 0,
            format: "mp3".to_string(),
        },
        tags: Some(TagsDto {
            title: title.map(String::from),
            artist: artist.map(String::from),
            album: None,
            genre: None,
            year: None,
            original_year: None,
            track_no: None,
        }),
    }
}

/// Quality scores in [0, 1] as order-preserving ranks.
fn ranks(quality: &[Option<f64>]) -> Vec<Option<u64>> {
    quality.iter().map(|q| q.map(|v| (v * 1_000_000.0).round() as u64)).collect()
}

fn group(recs: &[RecordMeta], quality: &[Option<f64>]) -> SongGrouping {
    let matches = vec![false; recs.len()];
    group_songs(&recs.to_vec(), &ranks(quality), &matches)
}

fn group_with_matches(recs: &[RecordMeta], quality: &[Option<f64>], matches: &[bool]) -> SongGrouping {
    group_songs(&recs.to_vec(), &ranks(quality), &matches.to_vec())
}

fn sim(src: &str, tgt: &str) -> SimEdge<f64> {
    SimEdge { src: src.to_string(), tgt: tgt.to_string(), score: 0.01 }
}

fn refine(recs: &[RecordMeta], quality: &[Option<f64>], edges: &[SimEdge<f64>]) -> SongGrouping {
    let matches = vec![false; recs.len()];
    let records = recs.to_vec();
    let q = ranks(quality);
    let primary = group_songs(&records, &q, &matches);
    refine_songs(&records, &q, &matches, &primary, edges)
}

fn song<'a>(grouping: &'a SongGrouping, id: &str) -> Option<&'a SongGroup> {
    grouping.songs.iter().find(|song| song.id == id)
}

#[test]
fn singletons_get_no_song_and_stay_canonical() {
    let recs = vec![rec("h1", Some("A"), Some("Alpha")), rec("h2", Some("A"), Some("Beta"))];
    let g = group(&recs, &[Some(0.5), Some(0.9)]);
    assert!(g.songs.is_empty(), "distinct titles form no version group");
    assert_eq!(g.is_canonical, vec![true, true]);
}

#[test]
fn version_group_picks_highest_quality_canonical() {
    let recs = vec![
        rec("h1", Some("The Beatles"), Some("Yesterday")),
        rec("h2", Some("The Beatles"), Some("Yesterday - Live")),
        rec("h3", Some("The Beatles"), Some("Yesterday (Remastered 2009)")),
    ];
    let g = group(&recs, &[Some(0.2), Some(0.9), Some(0.5)]);
    assert_eq!(g.songs.len(), 1);
    let song = &g.songs[0];
    assert_eq!(song.id, "The Beatles|yesterday");
    assert_eq!(song.title, "yesterday");
    assert_eq!(song.artist, "The Beatles");
    assert_eq!(song.members, vec!["h1", "h2", "h3"]);
    assert_eq!(song.canonical_hash, "h2");
    assert_eq!(g.is_canonical, vec![false, true, false]);
}

#[test]
fn null_quality_sorts_lowest_and_ties_break_by_hash() {
    let recs = vec![rec("aaa", Some("X"), Some("Song")), rec("zzz", Some("X"), Some("Song"))];
    let g = group(&recs, &[None, Some(0.1)]);
    assert_eq!(g.songs[0].canonical_hash, "zzz");
    assert_eq!(g.is_canonical, vec![false, true]);

    let g2 = group(&recs, &[None, None]);
    assert_eq!(g2.songs[0].canonical_hash, "aaa");
    assert_eq!(g2.is_canonical, vec![true, false]);

    let g3 = group(&recs, &[Some(0.5), Some(0.5)]);
    assert_eq!(g3.songs[0].canonical_hash, "aaa");
}

#[test]
fn lastfm_match_precedes_quality_then_plain_build_falls_back() {
    let recs = vec![rec("aaa", Some("X"), Some("Song")), rec("zzz", Some("X"), Some("Song"))];
    let enriched = group_with_matches(&recs, &[Some(0.1), Some(0.9)], &[true, false]);
    assert_eq!(enriched.songs[0].canonical_hash, "aaa");
    let plain = group_with_matches(&recs, &[Some(0.1), Some(0.9)], &[false, false]);
    assert_eq!(plain.songs[0].canonical_hash, "zzz");
}

#[test]
fn grouping_is_order_independent() {
    let recs = vec![
        rec("h1", Some("X"), Some("Song")),
        rec("h2", Some("X"), Some("Song - Mono")),
        rec("h3", Some("X"), Some("Other")),
    ];
    let quality = [Some(0.3), Some(0.8), Some(0.5)];
    let base = group(&recs, &quality);

    let mut rev: Vec<RecordMeta> = recs.clone();
    rev.reverse();
    let mut rq: Vec<Option<f64>> = quality.to_vec();
    rq.reverse();
    let mut paired: Vec<(RecordMeta, Option<f64>)> = rev.into_iter().zip(rq).collect();
    paired.sort_by(|a, b| a.0.source.content_hash.cmp(&b.0.source.content_hash));
    let (rr, rrq): (Vec<_>, Vec<_>) = paired.into_iter().unzip();
    let other = group(&rr, &rrq);

    assert_eq!(base.songs.len(), other.songs.len());
    assert_eq!(base.songs[0].id, other.songs[0].id);
    assert_eq!(base.songs[0].canonical_hash, other.songs[0].canonical_hash);
}

#[test]
fn refinement_requires_junk_unique_target_and_accepts_either_direction() {
    let recs = vec![
        rec("k1", Some("Known"), Some("Focus")),
        rec("k2", Some("Known"), Some("Focus - Live")),
        rec("u1", None, Some("Focus")),
        rec("u2", Some("Artiest onbekend"), Some("Focus")),
        rec("cover", Some("Cover Artist"), Some("Focus")),
        rec("noedge", None, Some("Focus")),
    ];
    let grouping = refine(
        &recs,
        &[Some(0.5); 6],
        &[sim("u1", "k1"), sim("k2", "u2"), sim("cover", "k1")],
    );
    let target = song(&grouping, "Known|focus").unwrap();
    assert_eq!(target.members, vec!["k1", "k2", "u1", "u2"]);
    assert!(song(&grouping, "Cover Artist|focus").is_none());
    assert!(grouping.is_canonical[4], "known cover stays a canonical singleton");
    assert!(grouping.is_canonical[5], "junk candidate without an edge stays singleton");
}

#[test]
fn refinement_rejects_ambiguous_title_and_accepts_tjt_prefix() {
    let recs = vec![
        rec("a1", Some("Artist A"), Some("Shared")),
        rec("a2", Some("Artist A"), Some("Shared - Live")),
        rec("b1", Some("Artist B"), Some("Shared")),
        rec("b2", Some("Artist B"), Some("Shared - Demo")),
        rec("amb", None, Some("Shared")),
        rec("t1", Some("Artist A"), Some("Unique")),
        rec("t2", Some("Artist A"), Some("Unique - Live")),
        rec("tjt", Some("tJt110 The Beatles"), Some("Unique")),
    ];
    let grouping = refine(&recs, &[Some(0.5); 8], &[sim("amb", "a1"), sim("tjt", "t1")]);
    assert!(grouping.is_canonical[4], "two non-junk Songs make the title ambiguous");
    assert_eq!(song(&grouping, "Artist A|unique").unwrap().members, vec!["t1", "t2", "tjt"]);
}

#[test]
fn refinement_reassigns_junk_group_without_cascade_and_recomputes_canonical() {
    let recs = vec![
        rec("k1", Some("Known"), Some("Song")),
        rec("k2", Some("Known"), Some("Song - Live")),
        rec("j1", None, Some("Song")),
        rec("j2", None, Some("Song - Demo")),
        rec("j3", None, Some("Song - Mono")),
        rec("j4", None, Some("Song - Stereo")),
    ];
    let grouping = refine(
        &recs,
        &[Some(0.1), Some(0.2), Some(0.3), Some(0.9), Some(0.4), Some(0.5)],
        &[sim("j1", "k1"), sim("k2", "j2"), sim("j3", "j1")],
    );
    let target = song(&grouping, "Known|song").unwrap();
    assert_eq!(target.members, vec!["k1", "k2", "j1", "j2"]);
    assert_eq!(target.canonical_hash, "j2", "assigned member participates in repick");
    assert_eq!(
        song(&grouping, "Unknown Artist|song").unwrap().members,
        vec!["j3", "j4"],
        "edge to a reassigned candidate must not cascade"
    );
    assert_eq!(grouping.is_canonical, vec![false, false, false, true, false, true]);

    let collapsed = refine(
        &recs[..5],
        &[Some(0.1), Some(0.2), Some(0.3), Some(0.9), Some(0.4)],
        &[sim("j1", "k1"), sim("k2", "j2")],
    );
    assert!(song(&collapsed, "Unknown Artist|song").is_none());
    assert!(collapsed.is_canonical[4], "one residual member collapses to singleton");
}

#[test]
fn refinement_is_order_independent_after_builder_sorting() {
    let mut recs = vec![
        rec("k2", Some("Known"), Some("Song - Live")),
        rec("u1", None, Some("Song")),
        rec("k1", Some("Known"), Some("Song")),
    ];
    recs.sort_by(|a, b| a.source.content_hash.cmp(&b.source.content_hash));
    let base = refine(&recs, &[Some(0.2), Some(0.3), Some(0.1)], &[sim("u1", "k1")]);
    recs.reverse();
    recs.sort_by(|a, b| a.source.content_hash.cmp(&b.source.content_hash));
    let other = refine(&recs, &[Some(0.2), Some(0.3), Some(0.1)], &[sim("u1", "k1")]);
    assert_eq!(base.songs[0].members, other.songs[0].members);
    assert_eq!(base.songs[0].canonical_hash, other.songs[0].canonical_hash);
    assert_eq!(base.is_canonical, other.is_canonical);
}

#[test]
fn junk_artists_and_keys() {
    assert!(is_junk_artist("Unknown Artist"));
    assert!(is_junk_artist("Artiest onbekend"));
    assert!(is_junk_artist("TJT110 The Beatles"));
    assert!(!is_junk_artist("TJT"));
    assert!(!is_junk_artist("TJTX"));
    assert_eq!(ordered_pair("b", "a"), ("a", "b"));
    assert_eq!(ordered_pair("a", "b"), ("a", "b"));
    assert!(is_better(true, None, "z", false, Some(9), "a"));
    assert!(!is_better(false, Some(1), "a", false, Some(2), "b"));
    assert!(is_better(false, Some(2), "b", false, Some(2), "c"));
    assert_eq!(version_key(&rec("h", None, Some("Hey Jude (Live)"))), "Unknown Artist|hey jude");
}
