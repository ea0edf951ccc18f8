use sonagram::enrich::{
    correction_for, dedup_keep_order, enrich_progress_path, kind_name, merge_top_tags,
    parse_env, similar_key, strip_html_truncate, strip_quotes, EnrichKind, EnrichReport,
    EnrichStore,
};

#[test]
fn parse_env_handles_comments_blanks_quotes_export() {
    let text = "\
        # a comment\n\
        \n\
        LASTFM_API_KEY=abc123\n\
        QUOTED=\"hello world\"\n\
        SINGLE='sq'\n\
        export EXPORTED=xyz\n\
        SPACED =  spaced_val  \n\
        # trailing comment\n";
    let m = parse_env(text);
    assert_eq!(m.get("LASTFM_API_KEY").unwrap(), "abc123");
    assert_eq!(m.get("QUOTED").unwrap(), "hello world");
    assert_eq!(m.get("SINGLE").unwrap(), "sq");
    assert_eq!(m.get("EXPORTED").unwrap(), "xyz");
    assert_eq!(m.get("SPACED").unwrap(), "spaced_val");
    assert!(!m.contains_key("# a comment"));
}

#[test]
fn parse_env_last_assignment_wins_and_crlf_is_stripped() {
    let m = parse_env("A=1\r\nB=two\r\nA=3\n=novalue\nnoequals\n");
    assert_eq!(m.get("A").unwrap(), "3");
    assert_eq!(m.get("B").unwrap(), "two");
    assert!(!m.contains_key(""));
    assert!(!m.contains_key("noequals"));
    assert_eq!(m.get("C"), None);
}

#[test]
fn strip_quotes_only_matched_pairs() {
    assert_eq!(strip_quotes("\"x\""), "x");
    assert_eq!(strip_quotes("'x'"), "x");
    assert_eq!(strip_quotes("\"mismatch'"), "\"mismatch'");
    assert_eq!(strip_quotes("plain"), "plain");
}

#[test]
fn strip_html_truncate_cuts_at_first_tag_and_length() {
    let s = "A great album. <a href=\"http://last.fm\">Read more</a>";
    assert_eq!(strip_html_truncate(s, 500).unwrap(), "A great album.");
    let long = "x".repeat(600);
    assert_eq!(strip_html_truncate(&long, 500).unwrap().chars().count(), 500);
    assert!(strip_html_truncate("   <a>", 500).is_none());
}

#[test]
fn similar_key_is_lowercased_and_trimmed() {
    assert_eq!(similar_key("  ABBA ", "On And On"), "abba::on and on");
}

#[test]
fn dedup_keeps_first_seen_order() {
    let items = vec!["pop".to_string(), "disco".into(), "pop".into(), "swedish".into(), "disco".into()];
    assert_eq!(dedup_keep_order(items), vec!["pop", "disco", "swedish"]);
}

#[test]
fn top_tags_apply_count_filter_and_skip_duplicates() {
    let mut tags = vec!["pop".to_string()];
    let top = vec![
        ("swedish".to_string(), Some(100)),
        ("pop".to_string(), Some(90)),
        ("disco".to_string(), Some(40)),
        ("noise".to_string(), Some(5)),
        ("unknown".to_string(), None),
    ];
    merge_top_tags(&mut tags, &top, 10);
    assert_eq!(tags, vec!["pop", "swedish", "disco"]);
}

#[test]
fn correction_only_when_names_differ_beyond_case() {
    assert_eq!(correction_for("  abba ", "ABBA"), None);
    assert_eq!(correction_for("Beatles", "The Beatles"), Some("The Beatles".to_string()));
}

#[test]
fn kind_names_are_stable() {
    assert_eq!(kind_name(EnrichKind::Artist), "artist");
    assert_eq!(kind_name(EnrichKind::Track), "track");
    assert_eq!(kind_name(EnrichKind::Album), "album");
}

#[test]
fn cache_paths_sit_under_dot_sonagram() {
    let store = EnrichStore::new("/music/lib");
    assert_eq!(store.dir(), "/music/lib/.sonagram/lastfm");
    assert_eq!(store.artists_path(), "/music/lib/.sonagram/lastfm/artists.json");
    assert_eq!(store.tracks_path(), "/music/lib/.sonagram/lastfm/tracks.json");
    assert_eq!(store.albums_path(), "/music/lib/.sonagram/lastfm/albums.json");
    assert_eq!(EnrichStore::new("/music/lib/").dir(), "/music/lib/.sonagram/lastfm");
    assert_eq!(enrich_progress_path("lib"), "lib/.sonagram/enrich_progress.json");
}

#[test]
fn default_report_is_all_zero() {
    let r = EnrichReport::default();
    assert_eq!(r.artists_fetched + r.tracks_failed + r.albums_skipped, 0);
    assert_eq!(r.elapsed_ms, 0);
}
