use sonagram::profile::{distinct_key_count, library_counts, tally, TrackProfileFacts};
use sonagram::select::CandidateKeys;

fn strings(v: &[&str]) -> Vec<String> {
    v.iter().map(|s| s.to_string()).collect()
}

fn cand(id: &str, artist: &str, album: &str, song: Option<&str>) -> CandidateKeys {
    CandidateKeys {
        id: id.to_string(),
        artist_key: artist.to_string(),
        album_key: album.to_string(),
        song_key: song.map(|s| s.to_string()),
    }
}

fn facts(
    is_music: bool,
    is_canonical: bool,
    eligible: bool,
    tier: Option<&str>,
    model: Option<&str>,
    styles: &[&str],
) -> TrackProfileFacts {
    TrackProfileFacts {
        is_music,
        is_canonical,
        eligible_by_default: eligible,
        quality_tier: tier.map(|s| s.to_string()),
        aggression_model: model.map(|s| s.to_string()),
        style_keys: strings(styles),
    }
}

#[test]
fn library_counts_of_a_small_library() {
    let tracks = vec![
        cand("a", "x", "p", None),
        cand("b", "x", "", Some("s")),
        cand("c", "", "q", Some("s")),
    ];
    let facts = vec![
        facts(true, true, true, Some("high"), Some("m2"), &["rock", "pop"]),
        facts(false, true, false, None, None, &["rock"]),
        facts(true, false, false, Some("high"), Some("m1"), &[]),
    ];
    let c = library_counts(&tracks, &facts);
    assert_eq!(c.tracks, 3);
    assert_eq!(c.music_tracks, 2);
    assert_eq!(c.canonical_tracks, 2);
    assert_eq!(c.eligible_default_tracks, 1);
    assert_eq!(c.unique_artists, 1);
    assert_eq!(c.unique_albums, 2);
    assert_eq!(c.unique_songs, 2);
    assert_eq!(c.unique_styles, 2);
    assert_eq!(c.quality_tiers, vec![("high".to_string(), 2), ("unknown".to_string(), 1)]);
    assert_eq!(c.aggression_models, vec![("m1".to_string(), 1), ("m2".to_string(), 1)]);
}

#[test]
fn tallies_and_distinct_counts() {
    let keys = strings(&["b", "a", "b", ""]);
    assert_eq!(
        tally(&keys),
        vec![("".to_string(), 1), ("a".to_string(), 1), ("b".to_string(), 2)]
    );
    assert_eq!(distinct_key_count(&keys, false), 3);
    assert_eq!(distinct_key_count(&keys, true), 2);
    assert!(tally(&Vec::new()).is_empty());
}
