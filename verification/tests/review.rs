use sonagram::curation::{error, AuditIssue, AuditSeverity, DiversityPolicy, PlaylistPreset, SeedRole};
use sonagram::review::{
    brief_audit_issues, check_track_list, checked_positions, count_issues, intent_issues,
    playlist_audit_issues, preset_issues, reference_issues, review_seeds, summary_lines,
};

fn strings(v: &[&str]) -> Vec<String> {
    v.iter().map(|s| s.to_string()).collect()
}

#[test]
fn track_list_check_places_each_issue() {
    let ids = strings(&["a", "b", "a", "zz"]);
    let known = strings(&["a", "b"]);
    let eligibility = vec![
        Vec::new(),
        vec![("non_music".to_string(), "track is not classified as music".to_string())],
    ];
    let r = check_track_list(&ids, &known, &eligibility);
    assert_eq!(r.selected, vec![0, 1, 0]);
    assert_eq!(r.duplicate_ids, 1);
    let found: Vec<(&str, &str, Vec<usize>)> = r
        .issues
        .iter()
        .map(|i| (i.code.as_str(), i.message.as_str(), i.positions.clone()))
        .collect();
    assert_eq!(
        found,
        vec![
            ("non_music", "track is not classified as music", vec![2]),
            ("duplicate_track", "track id a occurs more than once", vec![3]),
            ("missing_track", "track id zz is not present in the graph", vec![4]),
        ]
    );
}

#[test]
fn brief_level_issues() {
    let intents = intent_issues(&strings(&["mood"]));
    assert_eq!(intents.len(), 1);
    assert_eq!(intents[0].code, "unsupported_intent");
    assert_eq!(intents[0].message, "typed curation contract cannot enforce: mood");
    assert_eq!(count_issues(0, 3)[0].code, "invalid_target");
    let short = count_issues(5, 3);
    assert_eq!(short[0].code, "target_track_count");
    assert_eq!(short[0].message, "playlist has 3 IDs but the brief requires 5");
    assert!(count_issues(3, 3).is_empty());
    let mismatch = preset_issues(PlaylistPreset::Focus, PlaylistPreset::General);
    assert_eq!(mismatch[0].code, "preset_mismatch");
    assert_eq!(
        mismatch[0].message,
        "brief preset Focus does not match resolved policy preset General"
    );
    assert!(preset_issues(PlaylistPreset::Party, PlaylistPreset::Party).is_empty());
    assert_eq!(reference_issues(true, 0)[0].code, "seed_target_without_reference");
    assert!(reference_issues(true, 1).is_empty());
    assert!(reference_issues(false, 0).is_empty());
}

#[test]
fn seed_review_checks_pinned_and_reference_seeds() {
    let seeds = strings(&["s1", "s1", "zz", "s2", "s3"]);
    let known = strings(&["s1", "s2", "s3"]);
    let output = strings(&["s1", "s3"]);
    let pinned = review_seeds(&seeds, &known, &output, SeedRole::Pinned);
    let found: Vec<(&str, &str)> =
        pinned.issues.iter().map(|i| (i.code.as_str(), i.message.as_str())).collect();
    assert_eq!(
        found,
        vec![
            ("duplicate_seed", "seed s1 occurs more than once"),
            ("missing_seed", "seed zz is not in the graph"),
            ("pinned_seed_missing", "pinned seed s2 is absent from the playlist"),
        ]
    );
    assert!(pinned.references.is_empty());
    let reference = review_seeds(&seeds, &known, &output, SeedRole::Reference);
    let codes: Vec<&str> = reference.issues.iter().map(|i| i.code.as_str()).collect();
    assert_eq!(
        codes,
        vec!["reference_seed_exported", "duplicate_seed", "missing_seed", "reference_seed_exported"]
    );
    assert_eq!(reference.issues[0].message, "reference-only seed s1 was exported");
    assert_eq!(reference.references, vec![0, 1, 2]);
}

#[test]
fn checked_positions_skip_seeds_and_unknown_tracks() {
    let ids = strings(&["s1", "x", "s2", "y", "zz"]);
    let known = strings(&["s1", "s2", "x", "y"]);
    let seeds = strings(&["s1", "s2"]);
    assert_eq!(checked_positions(&ids, &known, &seeds), vec![(2, 2), (4, 3)]);
}

#[test]
fn summary_lines_head_then_issues() {
    let issues = vec![error("artist_cap", "artist a occurs 3 times; maximum is 2")];
    assert_eq!(
        summary_lines(12, 9, false, &issues),
        vec![
            "12 tracks, 9 artists, audit failed".to_string(),
            "artist_cap: artist a occurs 3 times; maximum is 2".to_string(),
        ]
    );
    assert_eq!(summary_lines(0, 0, true, &Vec::new()), vec!["0 tracks, 0 artists, audit passed".to_string()]);
}

fn codes(v: &[AuditIssue]) -> Vec<String> {
    v.iter().map(|i| i.code.clone()).collect()
}

fn note(code: &str, severity: AuditSeverity) -> AuditIssue {
    AuditIssue { severity, code: code.to_string(), message: String::new(), positions: Vec::new() }
}

#[test]
fn playlist_audit_orders_its_checks() {
    let known = strings(&["h1", "h2", "h3"]);
    let elig = vec![Vec::new(), vec![("too_short".to_string(), "track is short".to_string())], Vec::new()];
    let artists = strings(&["x", "x", "y"]);
    let albums = strings(&["a1", "a1", "a2"]);
    let songs = strings(&["s1", "s2", "s3"]);
    let policy = DiversityPolicy { max_per_artist: 1, max_per_album: 5, max_per_song: 1, min_artist_gap: 2 };
    let ids = strings(&["h1", "h2", "hx", "h1"]);
    let audit = playlist_audit_issues(
        &ids,
        &known,
        &elig,
        &artists,
        &albums,
        &songs,
        policy,
        vec![note("artist_concentration", AuditSeverity::Error)],
        vec![note("missing_arc_stats", AuditSeverity::Warning)],
    );
    assert_eq!(
        codes(&audit.issues),
        strings(&[
            "too_short",
            "missing_track",
            "duplicate_track",
            "artist_cap",
            "artist_gap",
            "artist_concentration",
            "song_repetition",
            "missing_arc_stats",
        ])
    );
    assert_eq!(audit.issues[1].positions, vec![3]);
    assert_eq!(audit.selected, vec![0, 1, 0]);
    assert_eq!(audit.duplicate_ids, 1);
    assert_eq!(audit.artists, strings(&["x"]));
    assert_eq!(audit.songs, strings(&["s1", "s2"]));
    assert!(!audit.passed);
    let clean = playlist_audit_issues(
        &strings(&["h1", "h3"]),
        &known,
        &elig,
        &artists,
        &albums,
        &songs,
        policy,
        Vec::new(),
        vec![note("missing_arc_stats", AuditSeverity::Warning)],
    );
    assert!(clean.passed);
    assert_eq!(codes(&clean.issues), strings(&["missing_arc_stats"]));
}

#[test]
fn brief_audit_appends_brief_checks_in_order() {
    let known = strings(&["h1", "h2", "h3"]);
    let ids = strings(&["h1", "h2"]);
    let (issues, passed) = brief_audit_issues(
        vec![note("base", AuditSeverity::Warning)],
        &strings(&["mood"]),
        3,
        &ids,
        vec![note("duration_shortfall", AuditSeverity::Error)],
        PlaylistPreset::Focus,
        PlaylistPreset::General,
        &strings(&["h3", "h9"]),
        &known,
        SeedRole::Reference,
        vec![note("invalid_relative_margin", AuditSeverity::Error)],
        true,
        vec![note("seed_relative_not_lower", AuditSeverity::Error)],
    );
    assert_eq!(
        codes(&issues),
        strings(&[
            "base",
            "unsupported_intent",
            "target_track_count",
            "duration_shortfall",
            "preset_mismatch",
            "missing_seed",
            "invalid_relative_margin",
            "seed_relative_not_lower",
        ])
    );
    assert!(!passed);
    // No reference seed: the relative targets are refused and the caller's
    // checks are left out.
    let (issues, _) = brief_audit_issues(
        Vec::new(),
        &Vec::new(),
        2,
        &ids,
        Vec::new(),
        PlaylistPreset::Focus,
        PlaylistPreset::Focus,
        &strings(&["h1"]),
        &known,
        SeedRole::Pinned,
        Vec::new(),
        true,
        vec![note("seed_relative_not_lower", AuditSeverity::Error)],
    );
    assert_eq!(codes(&issues), strings(&["seed_target_without_reference"]));
    let (issues, passed) = brief_audit_issues(
        vec![note("base", AuditSeverity::Warning)],
        &Vec::new(),
        2,
        &ids,
        Vec::new(),
        PlaylistPreset::Focus,
        PlaylistPreset::Focus,
        &Vec::new(),
        &known,
        SeedRole::Pinned,
        Vec::new(),
        false,
        Vec::new(),
    );
    assert_eq!(codes(&issues), strings(&["base"]));
    assert!(passed);
}
