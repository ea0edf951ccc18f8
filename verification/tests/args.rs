use sonagram::args::{
    brief_from_flags, check_policy_preset, curate_expected_preset, order_preset, parse_curate_args,
    parse_order_args, parse_playlist_args, parse_playlists_args, parse_policy_args,
    parse_status_args, parse_unsigned, PlaylistsCommand,
};
use sonagram::args::{
    config_key, parse_config_args, parse_mcp_args, parse_skill_args, parse_sources_args, route,
    ConfigCommand, ConfigKey, Route, SkillCommand, SourcesCommand, Subcommand,
};
use sonagram::args::{
    multi_library_label, parse_build_args, parse_progress_args, parse_scan_args, ProgressRefusal,
};
use sonagram::curation::{PlaylistPreset, SeedRole};
use sonagram::cli::{source_graph_current, summarize_status};
use sonagram::error::SonagramError;

fn strings(v: &[&str]) -> Vec<String> {
    v.iter().map(|s| s.to_string()).collect()
}

fn refusal<T>(r: Result<T, SonagramError>) -> String {
    match r {
        Err(SonagramError::Playlist(m)) => m,
        Err(_) => panic!("another error"),
        Ok(_) => panic!("accepted"),
    }
}

#[test]
fn status_args_root_and_format() {
    let a = parse_status_args(&strings(&["/music", "--format", "json"])).unwrap();
    assert_eq!(a.root.as_deref(), Some("/music"));
    assert!(a.as_json);
    let b = parse_status_args(&strings(&["--json", "--format", "human"])).unwrap();
    assert!(b.root.is_none());
    assert!(!b.as_json);
    assert_eq!(
        parse_status_args(&strings(&["--format"])).err().unwrap(),
        "status: --format requires a value ('json' or 'human')"
    );
    assert_eq!(
        parse_status_args(&strings(&["--format", "xml"])).err().unwrap(),
        "status: --format expects 'json' or 'human', got 'xml'"
    );
    assert_eq!(
        parse_status_args(&strings(&["--verbose"])).err().unwrap(),
        "status: unexpected argument '--verbose'"
    );
    assert_eq!(
        parse_status_args(&strings(&["a", "b"])).err().unwrap(),
        "status: unexpected extra argument 'b'"
    );
}

#[test]
fn playlist_args_forms_and_refusals() {
    let explicit = parse_playlist_args(&strings(&["/lib", "g.kgl", "--ids", "a,b", "--out", "x.m3u8"]))
        .unwrap()
        .unwrap();
    assert_eq!(explicit.root.as_deref(), Some("/lib"));
    assert_eq!(explicit.graph.as_deref(), Some("g.kgl"));
    assert_eq!(explicit.ids.as_deref(), Some("a,b"));
    assert_eq!(explicit.out.as_deref(), Some("x.m3u8"));
    assert!(explicit.cypher.is_none());
    let named = parse_playlist_args(&strings(&["--cypher", "MATCH", "--name", "n", "--name", "m"]))
        .unwrap()
        .unwrap();
    assert!(named.root.is_none());
    assert_eq!(named.name.as_deref(), Some("m"));
    assert!(parse_playlist_args(&strings(&["--ids", "a", "-h"])).unwrap().is_none());
    assert_eq!(
        refusal(parse_playlist_args(&strings(&["/lib", "--ids", "a"]))),
        "playlist: pass `<library_root> <graph.kgl>` (explicit) or neither (config-driven)"
    );
    assert_eq!(
        refusal(parse_playlist_args(&strings(&["--ids", "a", "--cypher", "q", "--out", "o"]))),
        "playlist: pass exactly one of --cypher '<query>' or --ids <hashes>"
    );
    assert_eq!(
        refusal(parse_playlist_args(&strings(&["--ids", "a"]))),
        "playlist: pass --name <name>, --out <file.m3u8>, and/or --copy-to <dir>"
    );
    assert_eq!(
        refusal(parse_playlist_args(&strings(&["--ids", "a", "--bogus"]))),
        "unexpected argument '--bogus' to `playlist`"
    );
    assert_eq!(refusal(parse_playlist_args(&strings(&["--ids"]))), "--ids requires a value");
}

#[test]
fn playlists_subcommands() {
    assert!(matches!(parse_playlists_args(&Vec::new()), Ok(PlaylistsCommand::List)));
    assert!(matches!(parse_playlists_args(&strings(&["list"])), Ok(PlaylistsCommand::List)));
    match parse_playlists_args(&strings(&["show", "my-mix"])) {
        Ok(PlaylistsCommand::Show(s)) => assert_eq!(s, "my-mix"),
        _ => panic!("show"),
    }
    assert_eq!(refusal(parse_playlists_args(&strings(&["show"]))), "playlists show: missing <slug>");
    match parse_playlists_args(&strings(&["update", "s", "--description", "new"])) {
        Ok(PlaylistsCommand::Update(s, d)) => {
            assert_eq!(s, "s");
            assert_eq!(d.as_deref(), Some("new"));
        }
        _ => panic!("update"),
    }
    match parse_playlists_args(&strings(&["update", "s", "--clear-description"])) {
        Ok(PlaylistsCommand::Update(_, d)) => assert!(d.is_none()),
        _ => panic!("clear"),
    }
    assert_eq!(
        refusal(parse_playlists_args(&strings(&["update", "s"]))),
        "playlists update: pass exactly one of --description <text> or --clear-description"
    );
    assert_eq!(
        refusal(parse_playlists_args(&strings(&["update", "s", "--x"]))),
        "playlists update: unexpected argument '--x'"
    );
    match parse_playlists_args(&strings(&["delete", "s"])) {
        Ok(PlaylistsCommand::Delete(s)) => assert_eq!(s, "s"),
        _ => panic!("delete"),
    }
    assert_eq!(
        refusal(parse_playlists_args(&strings(&["delete", "a", "b"]))),
        "playlists delete: expected exactly one <slug>"
    );
    assert_eq!(
        refusal(parse_playlists_args(&strings(&["rename"]))),
        "playlists: unknown subcommand 'rename' — try list|show|update|delete"
    );
}

#[test]
fn status_summary_over_sources() {
    let fresh = summarize_status(&vec![0, 0], true, &vec![Some(true), Some(true)]);
    assert_eq!((fresh.exit_code, fresh.label), (0, "fresh"));
    let stale = summarize_status(&vec![0], true, &vec![Some(false)]);
    assert_eq!((stale.exit_code, stale.label, stale.graph_stale), (1, "needs_build", true));
    let missing = summarize_status(&vec![0], false, &vec![None]);
    assert_eq!((missing.exit_code, missing.label), (1, "needs_build"));
    let no_cache = summarize_status(&vec![1, 2, 0], true, &vec![Some(true)]);
    assert_eq!((no_cache.exit_code, no_cache.label, no_cache.needs_scan), (2, "no_cache", true));
    let scan = summarize_status(&vec![1], false, &Vec::new());
    assert_eq!((scan.exit_code, scan.label), (1, "needs_scan"));
    assert!(source_graph_current(Some(Some("abc")), Some("abc")));
    assert!(!source_graph_current(Some(Some("abc")), Some("abd")));
    assert!(!source_graph_current(Some(None), Some("abc")));
    assert!(!source_graph_current(None, Some("abc")));
}

#[test]
fn unsigned_numbers_parse_like_std() {
    assert_eq!(parse_unsigned("25", u64::MAX), Some(25));
    assert_eq!(parse_unsigned("+7", u64::MAX), Some(7));
    assert_eq!(parse_unsigned("", u64::MAX), None);
    assert_eq!(parse_unsigned("+", u64::MAX), None);
    assert_eq!(parse_unsigned("-1", u64::MAX), None);
    assert_eq!(parse_unsigned("1x", u64::MAX), None);
    assert_eq!(parse_unsigned("18446744073709551615", u64::MAX), Some(u64::MAX));
    assert_eq!(parse_unsigned("18446744073709551616", u64::MAX), None);
    assert_eq!(parse_unsigned("300", 255), None);
    assert_eq!(parse_unsigned("255", 255), Some(255));
}

#[test]
fn policy_args() {
    let a = parse_policy_args(&strings(&["--preset", "FOCUS", "--json"])).unwrap();
    assert_eq!(a.preset, PlaylistPreset::Focus);
    assert!(a.as_json);
    let b = parse_policy_args(&Vec::new()).unwrap();
    assert_eq!(b.preset, PlaylistPreset::General);
    assert!(!b.as_json);
    let c = parse_policy_args(&strings(&["--json", "--format", "human"])).unwrap();
    assert!(!c.as_json);
    assert_eq!(
        refusal(parse_policy_args(&strings(&["--preset", "loud"]))),
        "unknown preset 'loud' (expected general|focus|party|workout|chill|discovery)"
    );
    assert_eq!(
        refusal(parse_policy_args(&strings(&["--format", "xml"]))),
        "policy: --format expects json or human, got xml"
    );
    assert_eq!(refusal(parse_policy_args(&strings(&["--x"]))), "policy: unexpected argument '--x'");
}

#[test]
fn order_args_and_presets() {
    let a = parse_order_args("audit", &strings(&["--ids", " a, ,b ", "--preset", "party"])).unwrap();
    assert_eq!(a.ids, strings(&["a", "b"]));
    assert_eq!(a.preset, Some(PlaylistPreset::Party));
    assert!(a.brief_json.is_none());
    assert_eq!(refusal(parse_order_args("explain", &Vec::new())), "explain: pass --ids <hash1,hash2,...>");
    assert_eq!(
        refusal(parse_order_args("audit", &strings(&["--ids", " , "]))),
        "audit: pass --ids <hash1,hash2,...>"
    );
    assert_eq!(
        refusal(order_preset("audit", Some(PlaylistPreset::Focus), Some(PlaylistPreset::Party))),
        "audit: --preset does not match --brief-json"
    );
    assert_eq!(
        order_preset("audit", Some(PlaylistPreset::Focus), None).ok().unwrap(),
        Some(PlaylistPreset::Focus)
    );
    assert_eq!(
        order_preset("audit", None, Some(PlaylistPreset::Chill)).ok().unwrap(),
        Some(PlaylistPreset::Chill)
    );
    assert_eq!(
        refusal(check_policy_preset("curate", Some(PlaylistPreset::Focus), PlaylistPreset::General)),
        "curate: --preset does not match --policy-json"
    );
    assert!(check_policy_preset("curate", None, PlaylistPreset::General).is_ok());
}

#[test]
fn curate_args_and_brief() {
    let a = parse_curate_args(&strings(&[
        "--preset", "chill", "--tracks", "12", "--duration-sec", "3600", "--seed-ids", "x,y", "--name", "n",
    ]))
    .unwrap();
    assert_eq!(a.preset, Some(PlaylistPreset::Chill));
    assert_eq!(a.target_tracks, Some(12));
    assert_eq!(a.target_duration_sec, Some(3600));
    assert_eq!(a.seed_ids, Some(strings(&["x", "y"])));
    assert_eq!(a.name.as_deref(), Some("n"));
    assert_eq!(
        refusal(parse_curate_args(&strings(&["--tracks", "many"]))),
        "curate: --tracks expects an integer, got many"
    );
    assert_eq!(
        refusal(parse_curate_args(&strings(&["--duration-sec", "-5"]))),
        "curate: --duration-sec expects an integer, got -5"
    );
    assert_eq!(
        refusal(parse_curate_args(&strings(&["--brief-json", "{}", "--tracks", "3"]))),
        "curate: --brief-json cannot be combined with --preset/--tracks/--duration-sec/--seed-ids"
    );
    let brief = brief_from_flags(a.preset, a.target_tracks, a.target_duration_sec, a.seed_ids);
    assert_eq!(brief.preset, PlaylistPreset::Chill);
    assert_eq!(brief.target_tracks, 12);
    assert_eq!(brief.target_duration_sec, Some(3600));
    assert_eq!(brief.seed_ids, strings(&["x", "y"]));
    assert_eq!(brief.seed_role, SeedRole::Pinned);
    let plain = brief_from_flags(None, None, None, None);
    assert_eq!(plain.target_tracks, 25);
    assert_eq!(plain.preset, PlaylistPreset::General);
    assert_eq!(curate_expected_preset(false, None, PlaylistPreset::General), None);
    assert_eq!(curate_expected_preset(true, None, PlaylistPreset::Focus), Some(PlaylistPreset::Focus));
}

fn config_refusal<T>(r: Result<T, SonagramError>) -> String {
    match r {
        Err(SonagramError::Config(m)) => m,
        Err(_) => panic!("another error"),
        Ok(_) => panic!("accepted"),
    }
}

#[test]
fn sources_and_config_subcommands() {
    assert!(matches!(parse_sources_args(&Vec::new()), Ok(SourcesCommand::List)));
    match parse_sources_args(&strings(&["add", "/music"])) {
        Ok(SourcesCommand::Add(d)) => assert_eq!(d, "/music"),
        _ => panic!("add"),
    }
    match parse_sources_args(&strings(&["remove", "/music"])) {
        Ok(SourcesCommand::Remove(d)) => assert_eq!(d, "/music"),
        _ => panic!("remove"),
    }
    assert_eq!(config_refusal(parse_sources_args(&strings(&["add"]))), "sources add: missing <dir>");
    assert_eq!(
        config_refusal(parse_sources_args(&strings(&["drop"]))),
        "sources: unknown subcommand 'drop' — try add/remove/list"
    );
    assert!(matches!(parse_config_args(&strings(&["show"])), Ok(ConfigCommand::Show)));
    match parse_config_args(&strings(&["set", "graph", "/g.kgl"])) {
        Ok(ConfigCommand::Assign(k, v)) => {
            assert_eq!(k, "graph");
            assert_eq!(v, "/g.kgl");
        }
        _ => panic!("set"),
    }
    assert_eq!(
        config_refusal(parse_config_args(&strings(&["set"]))),
        "config set: missing <key> (graph|playlists_dir)"
    );
    assert_eq!(config_refusal(parse_config_args(&strings(&["set", "graph"]))), "config set: missing <path>");
    assert_eq!(config_key("graph").ok(), Some(ConfigKey::Graph));
    assert_eq!(config_key("playlists_dir").ok(), Some(ConfigKey::PlaylistsDir));
    assert_eq!(
        config_refusal(config_key("colour")),
        "config set: unknown key 'colour' (expected graph|playlists_dir)"
    );
}

#[test]
fn mcp_and_skill_subcommands() {
    assert_eq!(parse_mcp_args(&strings(&["install"])).ok(), Some(false));
    assert_eq!(parse_mcp_args(&strings(&["install", "--force"])).ok(), Some(true));
    assert_eq!(config_refusal(parse_mcp_args(&Vec::new())), "mcp: pass `install [--force]`");
    assert_eq!(
        config_refusal(parse_mcp_args(&strings(&["install", "--force", "--dry"]))),
        "mcp install: unexpected argument '--dry' — try [--force]"
    );
    assert_eq!(
        config_refusal(parse_mcp_args(&strings(&["remove"]))),
        "mcp: unknown subcommand 'remove' — try `install`"
    );
    assert!(matches!(parse_skill_args(&strings(&["show"])), Ok(SkillCommand::Show)));
    match parse_skill_args(&strings(&["install", "--dir", "/skills", "--force"])) {
        Ok(SkillCommand::Install(d, f)) => {
            assert_eq!(d.as_deref(), Some("/skills"));
            assert!(f);
        }
        _ => panic!("install"),
    }
    assert_eq!(refusal(parse_skill_args(&strings(&["install", "--dir"]))), "--dir requires a value");
    assert_eq!(
        config_refusal(parse_skill_args(&strings(&["install", "-x"]))),
        "skill install: unexpected argument '-x' — try [--dir <skills_root>] [--force]"
    );
    assert_eq!(
        config_refusal(parse_skill_args(&Vec::new())),
        "skill: pass `show` or `install [--dir <skills_root>] [--force]`"
    );
}

#[test]
fn command_line_routes() {
    assert!(matches!(route(&Vec::new()), Route::Help));
    assert!(matches!(route(&strings(&["audit", "--help"])), Route::Help));
    assert!(matches!(route(&strings(&["playlist", "--help"])), Route::Run(Subcommand::Playlist)));
    assert!(matches!(route(&strings(&["-V"])), Route::Version));
    assert!(matches!(route(&strings(&["status", "/m"])), Route::Run(Subcommand::Status)));
    match route(&strings(&["dance"])) {
        Route::Unknown(w) => assert_eq!(w, "dance"),
        _ => panic!("unknown"),
    }
}

#[test]
fn progress_args() {
    let a = parse_progress_args(&strings(&["/a", "/b", "--json"])).ok().unwrap();
    assert_eq!(a.root.as_deref(), Some("/b"));
    assert!(a.as_json);
    match parse_progress_args(&strings(&["--format", "xml"])) {
        Err(ProgressRefusal::BadFormat(v)) => assert_eq!(v.as_deref(), Some("xml")),
        _ => panic!("format"),
    }
    match parse_progress_args(&strings(&["--format"])) {
        Err(ProgressRefusal::BadFormat(v)) => assert!(v.is_none()),
        _ => panic!("format"),
    }
    match parse_progress_args(&strings(&["--all"])) {
        Err(ProgressRefusal::Unexpected(f)) => assert_eq!(f, "--all"),
        _ => panic!("flag"),
    }
}

#[test]
fn scan_and_build_args() {
    let a = parse_scan_args(&strings(&["/m", "--no-enrich"])).ok().unwrap();
    assert_eq!(a.root.as_deref(), Some("/m"));
    assert!(!a.with_enrich);
    let b = parse_scan_args(&Vec::new()).ok().unwrap();
    assert!(b.root.is_none() && b.with_enrich);
    assert_eq!(
        config_refusal(parse_scan_args(&strings(&["--fast"]))),
        "scan: unexpected argument '--fast' — try [<library_root>] [--no-enrich]"
    );
    assert_eq!(config_refusal(parse_scan_args(&strings(&["/a", "/b"]))), "scan: unexpected extra argument '/b'");
    let two = parse_build_args(&strings(&["/lib", "--x", "out.kgl"])).ok().unwrap();
    assert_eq!(two, Some(("/lib".to_string(), "out.kgl".to_string())));
    assert_eq!(parse_build_args(&strings(&["--verbose"])).ok().unwrap(), None);
    match parse_build_args(&strings(&["/lib"])) {
        Err(SonagramError::Graph(m)) => {
            assert_eq!(m, "build: pass `<library_root> <out.kgl>` (explicit) or no args (config-driven)")
        }
        _ => panic!("refused"),
    }
    assert_eq!(multi_library_label(&strings(&["/only"])), "/only");
    assert_eq!(multi_library_label(&strings(&["/a", "/b"])), "multi-source");
}
