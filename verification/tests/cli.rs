use sonagram::cli::{
    configured_source_paths, flag_value, human_secs, library_label, merge_map_preferring_usable,
    one_line, optional_positional, parse_format_value, parse_ids, parse_output_format,
    parse_preset, playlist_name, slugify, staleness, status_exit_code, status_label,
    FreshnessReport,
};
use sonagram::curation::PlaylistPreset;
use sonagram::enrich::ArtistEnrich;
use sonagram::error::SonagramError;

fn report(has_cache: bool, fresh: usize, stale: usize, missing: usize, deleted: usize) -> FreshnessReport {
    FreshnessReport {
        total_files: fresh + stale + missing,
        fresh,
        stale,
        missing_from_index: missing,
        deleted_in_index: deleted,
        has_cache,
    }
}

#[test]
fn no_cache_is_exit_two() {
    assert_eq!(status_exit_code(&report(false, 0, 0, 0, 0)), 2);
    assert_eq!(status_exit_code(&report(false, 3, 0, 0, 0)), 2);
    assert_eq!(status_label(2), "no_cache");
}

#[test]
fn all_fresh_is_exit_zero() {
    assert_eq!(status_exit_code(&report(true, 10, 0, 0, 0)), 0);
    assert_eq!(status_exit_code(&report(true, 0, 0, 0, 0)), 0);
    assert_eq!(status_label(0), "fresh");
}

#[test]
fn any_drift_is_exit_one() {
    assert_eq!(status_exit_code(&report(true, 5, 1, 0, 0)), 1);
    assert_eq!(status_exit_code(&report(true, 5, 0, 1, 0)), 1);
    assert_eq!(status_exit_code(&report(true, 5, 0, 0, 1)), 1);
    assert_eq!(status_label(1), "needs_scan");
}

#[test]
fn presets_parse_case_insensitively() {
    assert_eq!(parse_preset("Focus").unwrap(), PlaylistPreset::Focus);
    assert_eq!(parse_preset("DISCOVERY").unwrap(), PlaylistPreset::Discovery);
    match parse_preset("loud") {
        Err(SonagramError::Playlist(m)) => assert_eq!(
            m,
            "unknown preset 'loud' (expected general|focus|party|workout|chill|discovery)"
        ),
        other => panic!("{other:?}"),
    }
}

#[test]
fn id_lists_trim_and_drop_blanks() {
    assert_eq!(parse_ids(" a, b ,,c ,"), vec!["a", "b", "c"]);
    assert!(parse_ids("").is_empty());
}

#[test]
fn output_format_flags() {
    let args = |v: &[&str]| v.iter().map(|s| s.to_string()).collect::<Vec<_>>();
    assert_eq!(parse_output_format("audit", &args(&[])).unwrap(), false);
    assert_eq!(parse_output_format("audit", &args(&["--json"])).unwrap(), true);
    assert_eq!(parse_output_format("audit", &args(&["--format", "human"])).unwrap(), false);
    assert!(parse_output_format("audit", &args(&["--format", "xml"])).is_err());
    match parse_output_format("audit", &args(&["--verbose"])) {
        Err(SonagramError::Playlist(m)) => assert_eq!(m, "audit: expected only [--format json|human]"),
        other => panic!("{other:?}"),
    }
    match parse_format_value("explain", "yaml") {
        Err(SonagramError::Playlist(m)) => assert_eq!(m, "explain: --format expects json or human, got yaml"),
        other => panic!("{other:?}"),
    }
}

#[test]
fn positionals_and_flag_values() {
    let args: Vec<String> = ["build", "--out", "x.kgl"].iter().map(|s| s.to_string()).collect();
    assert_eq!(optional_positional(&args, 0), Some("build"));
    assert_eq!(optional_positional(&args, 1), None);
    assert_eq!(optional_positional(&args, 9), None);
    let mut i = 1;
    assert_eq!(flag_value(&args, &mut i, "--out").unwrap(), "x.kgl");
    assert_eq!(i, 2);
    match flag_value(&args, &mut i, "--out") {
        Err(SonagramError::Playlist(m)) => assert_eq!(m, "--out requires a value"),
        other => panic!("{other:?}"),
    }
}

#[test]
fn renderings() {
    assert_eq!(human_secs(5), "5s");
    assert_eq!(human_secs(-3), "-3s");
    assert_eq!(human_secs(200), "3m20s");
    assert_eq!(human_secs(3725), "1h02m");
    assert_eq!(staleness(1000, 800, false), " [STALE — writer gone?]");
    assert_eq!(staleness(1000, 800, true), "");
    assert_eq!(staleness(1000, 900, false), "");
    assert_eq!(one_line("  first line \r\nsecond"), "first line");
    assert_eq!(one_line(""), "");
}

#[test]
fn labels_from_paths() {
    assert_eq!(library_label("/music/Jazz"), "Jazz");
    assert_eq!(library_label("/"), "/");
    assert_eq!(playlist_name(Some("/out/Road Trip.m3u8"), "/dest/x"), "Road Trip");
    assert_eq!(playlist_name(None, "/dest/Summer"), "Summer");
    assert_eq!(playlist_name(None, "/"), "playlist");
}

#[test]
fn slugs_for_fixture_names() {
    assert_eq!(slugify("My Song (Live)!"), "my-song-live");
    assert_eq!(slugify("--__--"), "track");
    assert_eq!(slugify("Ça va"), "ça-va");
}

#[test]
fn sources_must_be_configured() {
    assert!(configured_source_paths(&Vec::new()).is_err());
    let s = vec!["/a".to_string()];
    assert_eq!(configured_source_paths(&s).unwrap(), s);
}

fn artist(fetched: bool, failed: bool, listeners: Option<i64>) -> ArtistEnrich {
    ArtistEnrich { fetched, failed, listeners, ..ArtistEnrich::default() }
}

#[test]
fn enrichment_merge_replaces_failed_duplicate_with_usable_record() {
    let mut dst = vec![("same".to_string(), artist(true, true, None))];
    let src = vec![("same".to_string(), artist(true, false, Some(42)))];
    merge_map_preferring_usable(&mut dst, src);
    assert_eq!(dst.len(), 1);
    assert!(!dst[0].1.failed);
    assert_eq!(dst[0].1.listeners, Some(42));
}

#[test]
fn enrichment_merge_keeps_first_when_both_records_are_usable() {
    let mut dst = vec![("same".to_string(), artist(true, false, Some(1)))];
    let src = vec![
        ("same".to_string(), artist(true, false, Some(2))),
        ("other".to_string(), artist(true, true, None)),
    ];
    merge_map_preferring_usable(&mut dst, src);
    assert_eq!(dst[0].1.listeners, Some(1));
    assert_eq!(dst.len(), 2);
    assert_eq!(dst[1].0, "other");
}
