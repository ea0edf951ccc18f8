use sonagram::config::{config_path, sonagram_home, Config, CONFIG_VERSION};
use sonagram::error::SonagramError;

#[test]
fn home_prefers_trimmed_override_then_home_dir() {
    assert_eq!(sonagram_home(Some("  /srv/sg  "), Some("/home/u")).unwrap(), "/srv/sg");
    assert_eq!(sonagram_home(Some("   "), Some("/home/u")).unwrap(), "/home/u/.sonagram");
    assert_eq!(sonagram_home(None, Some("/home/u/")).unwrap(), "/home/u/.sonagram");
    match sonagram_home(None, None) {
        Err(SonagramError::Config(m)) => assert!(m.contains("neither SONAGRAM_HOME nor HOME")),
        other => panic!("expected a config error, got {other:?}"),
    }
}

#[test]
fn round_trip_and_defaults() {
    let cfg = Config::new();
    assert_eq!(cfg.config_version, CONFIG_VERSION);
    assert!(cfg.sources.is_empty());
    assert!(cfg.graph.is_none());
    assert_eq!(config_path("/h"), "/h/config.json");
    assert_eq!(cfg.resolved_graph("/h"), "/h/music.kgl");
    assert_eq!(cfg.resolved_playlists_dir("/h"), "/h/playlists");

    let mut cfg = Config::new();
    cfg.graph = Some("/abs/g.kgl".to_string());
    cfg.playlists_dir = Some("/abs/pl".to_string());
    assert_eq!(cfg.resolved_graph("/h"), "/abs/g.kgl");
    assert_eq!(cfg.resolved_playlists_dir("/h"), "/abs/pl");
}

#[test]
fn add_dedup_sort_and_remove() {
    let mut cfg = Config::new();
    assert!(cfg.register_source("/lib/b"));
    assert!(cfg.register_source("/lib/a"));
    assert_eq!(cfg.sources, vec!["/lib/a".to_string(), "/lib/b".to_string()]);
    assert!(!cfg.register_source("/lib/a"));
    assert_eq!(cfg.sources.len(), 2);

    assert!(cfg.unregister_source("/raw/a", Some("/lib/a")));
    assert_eq!(cfg.sources, vec!["/lib/b".to_string()]);
    assert!(!cfg.unregister_source("/lib/a", None), "second remove is a no-op");
    assert!(cfg.unregister_source("/lib/b", None));
    assert!(cfg.sources.is_empty());
}

#[test]
fn registration_order_does_not_matter() {
    let mut one = Config::new();
    let mut two = Config::new();
    for s in ["/z", "/m", "/a"] {
        one.register_source(s);
    }
    for s in ["/a", "/z", "/m"] {
        two.register_source(s);
    }
    assert_eq!(one.sources, two.sources);
}

#[test]
fn register_then_unregister_restores_the_registry() {
    let mut cfg = Config::new();
    cfg.register_source("/music/b");
    cfg.register_source("/music/d");
    let before = cfg.sources.clone();
    assert!(cfg.register_source("/music/c"));
    assert_eq!(cfg.sources, vec!["/music/b", "/music/c", "/music/d"]);
    assert!(cfg.unregister_source("/music/c", Some("/music/c")));
    assert_eq!(cfg.sources, before);
}
