use sonagram::error::SonagramError;
use sonagram::mcp::{
    command_quote, install_paths, launch_command, launch_label, plan_install, AssetState,
    InstallReport,
};
use sonagram::mcp_server::{
    delete_playlist, resolve_policy, startup_graph_arg, startup_error, update_description,
    PlaylistDeleteArgs, PolicyMismatch, StartupError,
};
use sonagram::curation::PlaylistPreset;

#[test]
fn quoting_escapes_per_shell() {
    assert_eq!(command_quote("it's", false), "'it'\\''s'");
    assert_eq!(command_quote("a\"b`c", true), "\"a`\"b``c\"");
    assert_eq!(launch_command("/bin/s", "/g/m.kgl", false), "'/bin/s' --graph '/g/m.kgl'");
    assert_eq!(launch_command("C:\\s.exe", "m.kgl", true), "& \"C:\\s.exe\" --graph \"m.kgl\"");
    assert_eq!(launch_label(true), "RUN (PowerShell)");
    assert_eq!(launch_label(false), "RUN");
}

#[test]
fn install_paths_sit_beside_the_graph() {
    let (m, k, p, e) = install_paths("/music", "work music");
    assert_eq!(m, "/music/work music_mcp.yaml");
    assert_eq!(k, "/music/work music_mcp.skills");
    assert_eq!(p, "/music/.sonagram-mcp-public");
    assert_eq!(e, "/music/sonagram_mcp.env");
}

#[test]
fn differing_assets_need_force() {
    let paths = vec!["/m/a".to_string(), "/m/b".to_string(), "/m/c".to_string()];
    let states = vec![AssetState::Identical, AssetState::Different, AssetState::Missing];
    match plan_install(&paths, &states, false) {
        Err(SonagramError::Config(m)) => {
            assert!(m.starts_with("/m/b differs from Sonagram's bundled MCP asset"));
            assert!(m.contains("--force"));
        }
        other => panic!("expected refusal, got {other:?}"),
    }
    assert_eq!(plan_install(&paths, &states, true).unwrap(), (2, 1));
    let clean = vec![AssetState::Identical; 3];
    assert_eq!(plan_install(&paths, &clean, false).unwrap(), (0, 3));
}

#[test]
fn report_launch_command_needs_a_binary() {
    let mut r = InstallReport {
        graph_path: "/g.kgl".into(),
        manifest_path: String::new(),
        skills_dir: String::new(),
        public_source_dir: String::new(),
        env_path: String::new(),
        env_created: true,
        server_binary: None,
        written: 0,
        unchanged: 0,
        windows: false,
    };
    assert_eq!(r.launch_command(), None);
    r.server_binary = Some("/bin/srv".into());
    assert_eq!(r.launch_command(), Some("'/bin/srv' --graph '/g.kgl'".to_string()));
}

#[test]
fn delete_requires_exact_confirmation_before_config_access() {
    let error = delete_playlist(PlaylistDeleteArgs {
        slug: "focus".into(),
        confirm_slug: "other".into(),
    })
    .unwrap_err();
    assert!(error.message().contains("exactly match"));
    let ok = delete_playlist(PlaylistDeleteArgs {
        slug: "focus".into(),
        confirm_slug: "focus".into(),
    });
    assert_eq!(ok.unwrap(), "focus");
}

#[test]
fn update_needs_exactly_one_description_choice() {
    assert!(update_description(Some("x".into()), true).is_err());
    assert!(update_description(None, false).is_err());
    assert_eq!(update_description(Some("x".into()), false).unwrap(), Some("x".into()));
    assert_eq!(update_description(None, true).unwrap(), None);
}

fn argv(v: &[&str]) -> Vec<String> {
    v.iter().map(|s| s.to_string()).collect()
}

#[test]
fn startup_requires_one_graph_and_refuses_writable() {
    assert_eq!(startup_graph_arg(&argv(&["srv", "--graph", "a.kgl"])).unwrap(), "a.kgl");
    assert_eq!(startup_graph_arg(&argv(&["srv", "--graph=b.kgl", "--x"])).unwrap(), "b.kgl");
    assert_eq!(startup_graph_arg(&argv(&["srv"])), Err(StartupError::NoGraph));
    assert_eq!(startup_graph_arg(&argv(&["srv", "--graph"])), Err(StartupError::MissingPath));
    assert_eq!(startup_graph_arg(&argv(&["srv", "--graph="])), Err(StartupError::MissingPath));
    assert_eq!(
        startup_graph_arg(&argv(&["srv", "--graph=a.kgl", "--graph=b.kgl"])),
        Err(StartupError::Duplicate)
    );
    assert_eq!(
        startup_graph_arg(&argv(&["srv", "--writable", "--graph", "a"])),
        Err(StartupError::Writable)
    );
    assert!(startup_error(StartupError::Duplicate).message().contains("exactly one --graph"));
}

#[test]
fn policy_resolution_rejects_version_and_preset_drift() {
    let policy = resolve_policy(Some(PlaylistPreset::Focus), None, None).unwrap();
    assert_eq!(policy, PlaylistPreset::Focus);
    assert_eq!(
        resolve_policy(Some(PlaylistPreset::Focus), None, Some((2, PlaylistPreset::Focus))),
        Err(PolicyMismatch::Version)
    );
    assert!(resolve_policy(
        Some(PlaylistPreset::Focus),
        Some(PlaylistPreset::Party),
        Some((1, PlaylistPreset::Focus))
    )
    .is_err());
    assert_eq!(
        resolve_policy(None, Some(PlaylistPreset::Chill), Some((1, PlaylistPreset::Party))),
        Err(PolicyMismatch::ResolvedPreset)
    );
    assert_eq!(resolve_policy(None, None, None), Ok(PlaylistPreset::General));
}

#[test]
fn symlinked_assets_are_refused_even_with_force() {
    let paths = vec!["/m/a".to_string(), "/m/b".to_string(), "/m/c".to_string()];
    let states = vec![AssetState::Identical, AssetState::Symlink, AssetState::Different];
    for force in [false, true] {
        match plan_install(&paths, &states, force) {
            Err(SonagramError::Config(m)) => assert_eq!(m, "refusing symlinked MCP asset path /m/b"),
            other => panic!("expected refusal, got {other:?}"),
        }
    }
    // A differing asset before the link stops the install first without force.
    let states = vec![AssetState::Different, AssetState::Symlink];
    match plan_install(&paths[..2].to_vec(), &states, false) {
        Err(SonagramError::Config(m)) => assert!(m.starts_with("/m/a differs")),
        other => panic!("expected refusal, got {other:?}"),
    }
}
