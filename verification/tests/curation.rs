use sonagram::curation::{
    below_cap, check_categories, circular_distance, default_target_tracks, error, group_key,
    increment, issue, key_compatibility, parse_camelot, sequencing_error_count,
    violates_artist_gap, within_caps, AuditSeverity, DiversityPolicy, KeyCompatibility,
    KeyCounts, preset_arc, preset_familiarity, FamiliarityPreference, PlaylistArc, PlaylistBrief, PlaylistPreset, SeedRole,
};

#[test]
fn brief_defaults_to_general_twenty_five_pinned() {
    let b = PlaylistBrief::default();
    assert_eq!(b.preset, PlaylistPreset::General);
    assert_eq!(b.target_tracks, 25);
    assert_eq!(default_target_tracks(), 25);
    assert_eq!(b.seed_role, SeedRole::Pinned);
    assert!(b.seed_ids.is_empty() && b.unsupported_intents.is_empty());
    assert_eq!(PlaylistArc::default(), PlaylistArc::Flat);
}

#[test]
fn diversity_caps_tighten_for_discovery() {
    let d = DiversityPolicy::default();
    assert_eq!((d.max_per_artist, d.max_per_album, d.max_per_song, d.min_artist_gap), (2, 2, 1, 3));
    let disc = DiversityPolicy::for_preset(PlaylistPreset::Discovery);
    assert_eq!((disc.max_per_artist, disc.max_per_album), (1, 1));
    assert_eq!(DiversityPolicy::for_preset(PlaylistPreset::Party), d);
}

#[test]
fn camelot_compatibility_is_symmetric() {
    assert_eq!(key_compatibility(Some("8A"), Some("8A")), Some(KeyCompatibility::Same));
    assert_eq!(key_compatibility(Some("8A"), Some("8B")), Some(KeyCompatibility::Adjacent));
    assert_eq!(key_compatibility(Some("12A"), Some("1A")), Some(KeyCompatibility::Adjacent));
    assert_eq!(key_compatibility(Some("1A"), Some("12A")), Some(KeyCompatibility::Adjacent));
}

#[test]
fn key_parsing_requires_a_wheel_code() {
    assert_eq!(parse_camelot("8A"), Some((8, 'A')));
    assert_eq!(parse_camelot("+12B"), Some((12, 'B')));
    assert_eq!(parse_camelot("13A"), None);
    assert_eq!(parse_camelot("0B"), None);
    assert_eq!(parse_camelot("8C"), None);
    assert_eq!(parse_camelot("A"), None);
    assert_eq!(parse_camelot("x8A"), None);
    assert_eq!(key_compatibility(Some("3A"), Some("9B")), Some(KeyCompatibility::Distant));
    assert_eq!(key_compatibility(None, Some("9B")), None);
    assert_eq!(circular_distance(1, 12), 1);
    assert_eq!(circular_distance(3, 9), 6);
}

#[test]
fn group_keys_trim_and_lowercase() {
    assert_eq!(group_key(Some("  Pop  ")), "pop");
    assert_eq!(group_key(Some("   ")), "");
    assert_eq!(group_key(None), "");
}

#[test]
fn caps_count_only_non_empty_keys() {
    let mut counts = KeyCounts::new();
    assert!(below_cap("a", &counts, 1));
    increment("a", &mut counts);
    assert_eq!(counts.get("a"), 1);
    assert!(!below_cap("a", &counts, 1));
    increment("", &mut counts);
    assert!(below_cap("", &counts, 0));
    let empty = KeyCounts::new();
    assert!(within_caps("x", "y", None, "id", 1, 1, 1, &counts, &empty, &empty));
    assert!(!within_caps("a", "y", None, "id", 1, 1, 1, &counts, &empty, &empty));
}

#[test]
fn artist_gap_looks_back_fewer_than_gap_positions() {
    let path: Vec<String> = ["a", "b", "c"].iter().map(|s| s.to_string()).collect();
    assert!(violates_artist_gap(&path, "c", 3));
    assert!(violates_artist_gap(&path, "b", 3));
    assert!(!violates_artist_gap(&path, "a", 3));
    assert!(!violates_artist_gap(&path, "c", 0));
    assert!(!violates_artist_gap(&path, "", 3));
}

#[test]
fn category_filters_compare_grouping_keys() {
    let mut issues: Vec<(String, String)> = Vec::new();
    let values: Vec<String> = vec!["Rock".into()];
    let wanted: Vec<String> = vec![" jazz ".into()];
    let unwanted: Vec<String> = vec!["ROCK".into()];
    check_categories(&mut issues, "genre_not_included", "genre_excluded", "genre", &values, &wanted, &unwanted);
    assert_eq!(
        issues,
        vec![
            ("genre_not_included".to_string(), "track does not match an included genre".to_string()),
            ("genre_excluded".to_string(), "track matches an excluded genre".to_string()),
        ]
    );
    let mut none: Vec<(String, String)> = Vec::new();
    check_categories(&mut none, "a", "b", "style", &values, &vec![], &vec![]);
    assert!(none.is_empty());
}

#[test]
fn sequencing_errors_count_repairable_codes() {
    let issues = vec![
        error("artist_gap", "x"),
        error("duplicate_id", "y"),
        issue(AuditSeverity::Warning, "worst_transition", "z".to_string(), vec![3]),
        error("arc_deviation", "w"),
    ];
    assert_eq!(sequencing_error_count(&issues), 3);
    assert_eq!(issues[2].positions, vec![3]);
}

#[test]
fn presets_choose_arc_and_familiarity() {
    assert_eq!(preset_arc(PlaylistPreset::General), PlaylistArc::Flat);
    assert_eq!(preset_arc(PlaylistPreset::Focus), PlaylistArc::RiseAndFall);
    assert_eq!(preset_arc(PlaylistPreset::Party), PlaylistArc::Rise);
    assert_eq!(preset_arc(PlaylistPreset::Workout), PlaylistArc::Rise);
    assert_eq!(preset_arc(PlaylistPreset::Chill), PlaylistArc::Fall);
    assert_eq!(preset_arc(PlaylistPreset::Discovery), PlaylistArc::NoArc);
    assert_eq!(preset_familiarity(PlaylistPreset::Focus), FamiliarityPreference::Avoid);
    assert_eq!(preset_familiarity(PlaylistPreset::Discovery), FamiliarityPreference::Avoid);
    assert_eq!(preset_familiarity(PlaylistPreset::Party), FamiliarityPreference::Prefer);
    assert_eq!(preset_familiarity(PlaylistPreset::Workout), FamiliarityPreference::Neutral);
}
