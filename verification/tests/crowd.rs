use sonagram::crowd::{enrichment_edges, ArtistEnrichInput, TrackEnrichInput};

fn strings(v: &[&str]) -> Vec<String> {
    v.iter().map(|s| s.to_string()).collect()
}

fn track(
    hash: &str,
    artist: &str,
    title: Option<&str>,
    base: Option<&str>,
    tags: &[&str],
    similar: &[(&str, &str)],
) -> TrackEnrichInput {
    TrackEnrichInput {
        hash: hash.to_string(),
        artist: artist.to_string(),
        title: title.map(|t| t.to_string()),
        base_genre: base.map(|b| b.to_string()),
        tags: strings(tags),
        similar: similar.iter().map(|(a, t)| (a.to_string(), t.to_string())).collect(),
    }
}

fn artist(key: &str, tags: &[&str], similar: &[&str]) -> ArtistEnrichInput {
    ArtistEnrichInput { key: key.to_string(), tags: strings(tags), similar: strings(similar) }
}

#[test]
fn folksonomy_genres_skip_blanks_base_and_repeats() {
    let tracks = vec![
        track("h1", "Band", Some("Song"), Some("rock"), &["Rock", " Jazz ", "jazz", "  "], &[]),
        track("h2", "Band", Some("Other"), None, &["Pop"], &[]),
    ];
    let artists = vec![artist("Band", &["Indie", "indie", "Rock"], &[])];
    let e = enrichment_edges(&tracks, &artists);
    assert_eq!(e.track_genres, vec![(0, "jazz".to_string()), (1, "pop".to_string())]);
    assert_eq!(e.artist_genres, vec![(0, "indie".to_string()), (0, "rock".to_string())]);
}

#[test]
fn crowd_similarity_resolves_owned_tracks_and_artists() {
    let tracks = vec![
        track("h1", "Band", Some("Song"), None, &[], &[("band", " other "), ("Band", "Song"), ("X", "Y"), ("BAND", "OTHER")]),
        track("h2", "Band", Some("Other"), None, &[], &[("Band", "song")]),
        track("h3", "Band", None, None, &[], &[]),
    ];
    let artists = vec![
        artist("Alpha", &[], &["beta", " BETA ", "alpha", "gamma"]),
        artist("Beta", &[], &["Alpha"]),
    ];
    let e = enrichment_edges(&tracks, &artists);
    // Self-loops, unknown tracks and repeats are dropped; the entry position is kept.
    assert_eq!(e.track_similar, vec![(0, 1, 0), (1, 0, 0)]);
    assert_eq!(e.artist_similar, vec![(0, 1), (1, 0)]);
}
