use sonagram::audit::{audit_passed, diversity_audit, duplicate_positions};
use sonagram::curation::{error, issue, AuditSeverity, DiversityPolicy, PlaylistPreset};

fn strings(v: &[&str]) -> Vec<String> {
    v.iter().map(|s| s.to_string()).collect()
}

#[test]
fn diversity_audit_reports_caps_gaps_and_repeats() {
    let artists = strings(&["a", "a", "b", ""]);
    let albums = strings(&["x", "x", "x", ""]);
    let songs = strings(&["s1", "s2", "s1", "t4"]);
    let audit = diversity_audit(&artists, &albums, &songs, DiversityPolicy::default());
    assert_eq!(audit.artists, strings(&["a", "b"]));
    assert_eq!(audit.albums, strings(&["x"]));
    assert_eq!(audit.songs, strings(&["s1", "s2", "t4"]));
    assert!(audit.artist_caps.is_empty());
    assert_eq!(audit.album_caps.len(), 1);
    assert_eq!(audit.album_caps[0].code, "album_cap");
    assert_eq!(audit.album_caps[0].message, "album x occurs 3 times; maximum is 2");
    assert_eq!(audit.album_caps[0].severity, AuditSeverity::Error);
    assert_eq!(audit.artist_gaps.len(), 1);
    assert_eq!(audit.artist_gaps[0].code, "artist_gap");
    assert_eq!(
        audit.artist_gaps[0].message,
        "artist a repeats within the minimum gap of 3 positions"
    );
    assert_eq!(audit.artist_gaps[0].positions, vec![1, 2]);
    assert_eq!(audit.song_repeats.len(), 1);
    assert_eq!(audit.song_repeats[0].code, "song_repetition");
    assert_eq!(audit.song_repeats[0].message, "Song s1 occurs 2 times");
}

#[test]
fn diversity_audit_discovery_caps_each_artist_once() {
    let artists = strings(&["a", "b", "c", "a"]);
    let albums = strings(&["", "", "", ""]);
    let songs = strings(&["1", "2", "3", "4"]);
    let policy = DiversityPolicy::for_preset(PlaylistPreset::Discovery);
    let audit = diversity_audit(&artists, &albums, &songs, policy);
    assert_eq!(audit.artist_caps.len(), 1);
    assert_eq!(audit.artist_caps[0].message, "artist a occurs 2 times; maximum is 1");
    // Positions 1 and 4 are three apart, which meets the gap of 3.
    assert!(audit.artist_gaps.is_empty());
    assert!(audit.albums.is_empty());
    assert!(audit.song_repeats.is_empty());
}

#[test]
fn diversity_audit_skips_gaps_when_the_gap_is_zero() {
    let artists = strings(&["a", "a"]);
    let albums = strings(&["", ""]);
    let songs = strings(&["1", "2"]);
    let policy = DiversityPolicy { max_per_artist: 2, max_per_album: 2, max_per_song: 1, min_artist_gap: 0 };
    let audit = diversity_audit(&artists, &albums, &songs, policy);
    assert!(audit.artist_gaps.is_empty());
    assert!(audit.artist_caps.is_empty());
}

#[test]
fn duplicate_positions_are_one_based_repeats() {
    let ids = strings(&["t1", "t2", "t1", "t3", "t2", "t1"]);
    assert_eq!(duplicate_positions(&ids), vec![3, 5, 6]);
    assert!(duplicate_positions(&strings(&["a", "b"])).is_empty());
}

#[test]
fn audit_passes_only_without_errors() {
    let warning = issue(AuditSeverity::Warning, "w", "soft".to_string(), vec![1]);
    assert!(audit_passed(&vec![warning.clone()]));
    assert!(audit_passed(&Vec::new()));
    assert!(!audit_passed(&vec![warning, error("e", "hard")]));
}
