use std::collections::HashMap;

use kglite::api::session::{execute_mut, ExecuteOptions};
use kglite::api::{DirGraph, Value};
use sonagram::cypher::{choose_id_column, comma_joined, extract_track_ids, missing_ids_error, require_found, track_ids_from_cypher, Cell};
use sonagram::error::SonagramError;

fn strings(v: &[&str]) -> Vec<String> {
    v.iter().map(|s| s.to_string()).collect()
}

fn text(s: &str) -> Cell {
    Cell::Text(s.to_string())
}

#[test]
fn id_column_by_name_then_by_first_row() {
    let row = vec![text("x"), Cell::Node(Some("h1".to_string()))];
    assert_eq!(choose_id_column(&strings(&["title", "T.CONTENT_HASH"]), &row, &vec![false, false]), Some(1));
    assert_eq!(choose_id_column(&strings(&["a", "id"]), &row, &vec![false, false]), Some(1));
    assert_eq!(choose_id_column(&strings(&["a", "b"]), &row, &vec![false, false]), Some(1));
    assert_eq!(choose_id_column(&strings(&["a", "b"]), &row, &vec![true, false]), Some(0));
    assert_eq!(choose_id_column(&strings(&["a"]), &vec![Cell::Other], &vec![false]), None);
    assert_eq!(choose_id_column(&strings(&["a"]), &vec![Cell::Node(None)], &vec![false]), None);
}

#[test]
fn ids_in_row_order_or_the_first_bad_row() {
    let names = strings(&["t.content_hash"]);
    let rows = vec![vec![text("h2")], vec![Cell::Node(Some("h1".to_string()))]];
    match extract_track_ids(&names, &rows, &vec![false]) {
        Ok(ids) => assert_eq!(ids, strings(&["h2", "h1"])),
        Err(_) => panic!("ids"),
    }
    let bad = vec![vec![text("h2")], vec![Cell::Other]];
    match extract_track_ids(&names, &bad, &vec![false]) {
        Err(SonagramError::Playlist(m)) => assert_eq!(
            m,
            "Cypher result row 1 has no Track id in the 't.content_hash' column (expected a Track node or a content-hash string)"
        ),
        _ => panic!("refusal"),
    }
    match extract_track_ids(&strings(&["x", "y\"z"]), &vec![vec![Cell::Other, Cell::Other]], &vec![false, false]) {
        Err(SonagramError::Playlist(m)) => assert_eq!(
            m,
            "no Track id column in Cypher result (columns: [\"x\", \"y\\\"z\"]); \
             RETURN a Track node (e.g. `RETURN t`) or its `t.content_hash`"
        ),
        _ => panic!("no id column"),
    }
    assert!(extract_track_ids(&names, &Vec::new(), &Vec::new()).ok().unwrap().is_empty());
}

#[test]
fn missing_ids_are_listed() {
    match missing_ids_error(&strings(&["a", "b"])) {
        SonagramError::Playlist(m) => assert_eq!(m, "2 track id(s) not found in graph: [a, b]"),
        _ => panic!("kind"),
    }
}

#[test]
fn comma_joined_separates_with_comma_space() {
    assert_eq!(comma_joined(&strings(&[])), Vec::<char>::new());
    assert_eq!(comma_joined(&strings(&["a"])).into_iter().collect::<String>(), "a");
    assert_eq!(comma_joined(&strings(&["a", "b", "c"])).into_iter().collect::<String>(), "a, b, c");
}

fn small_graph() -> DirGraph {
    let mut g = DirGraph::new();
    let params: HashMap<String, Value> = HashMap::new();
    let opts = ExecuteOptions::eager(&params);
    execute_mut(&mut g, "CREATE (:Track {content_hash: 'h1', title: 'A'})", &opts).unwrap();
    execute_mut(&mut g, "CREATE (:Track {content_hash: 'h2', title: 'B'})", &opts).unwrap();
    g
}

#[test]
fn cypher_ids_follow_the_query_order() {
    let g = small_graph();
    let ids = track_ids_from_cypher(&g, "MATCH (t:Track) RETURN t.content_hash ORDER BY t.title DESC").unwrap();
    assert_eq!(ids, strings(&["h2", "h1"]));
    let ids = track_ids_from_cypher(&g, "MATCH (t:Track) RETURN t ORDER BY t.title").unwrap();
    assert_eq!(ids, strings(&["h1", "h2"]));
    assert!(track_ids_from_cypher(&g, "MATCH (t:Track) WHERE t.title = 'Z' RETURN t").unwrap().is_empty());
}

#[test]
fn cypher_failures_are_graph_or_playlist_errors() {
    let g = small_graph();
    match track_ids_from_cypher(&g, "THIS IS NOT CYPHER") {
        Err(SonagramError::Graph(m)) => assert!(m.starts_with("cypher query failed: ")),
        other => panic!("expected a graph error, got {other:?}"),
    }
    match track_ids_from_cypher(&g, "MATCH (t:Track) RETURN t.title AS name ORDER BY t.title") {
        Err(SonagramError::Playlist(m)) => assert!(m.starts_with("no Track id column in Cypher result")),
        other => panic!("expected a playlist error, got {other:?}"),
    }
}

#[test]
fn unknown_ids_are_all_refused_in_order() {
    assert!(require_found(&strings(&["a", "b"]), &vec![true, true]).is_ok());
    match require_found(&strings(&["a", "b", "c"]), &vec![false, true, false]) {
        Err(SonagramError::Playlist(m)) => assert_eq!(m, "2 track id(s) not found in graph: [a, c]"),
        other => panic!("expected a refusal, got {other:?}"),
    }
}
