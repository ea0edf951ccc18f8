use sonagram::derive::{
    camelot_neighbours, mutual_pairs, parse_camelot, style_components, style_id, style_label,
    top_counts, unique_names, SimEdge, UnionFind,
};

#[test]
fn camelot_parses_number_and_letter() {
    assert_eq!(parse_camelot("8A"), (8, 'A'));
    assert_eq!(parse_camelot("12B"), (12, 'B'));
    assert_eq!(parse_camelot("1A"), (1, 'A'));
}

#[test]
fn camelot_neighbours_wrap_around_the_wheel() {
    assert_eq!(camelot_neighbours(12, 'A'), ((1, 'A'), (11, 'A'), (12, 'B')));
    assert_eq!(camelot_neighbours(1, 'B'), ((2, 'B'), (12, 'B'), (1, 'A')));
    // Up then down returns to the start.
    let (up, _, _) = camelot_neighbours(7, 'A');
    let (_, back, _) = camelot_neighbours(up.0, up.1);
    assert_eq!(back, (7, 'A'));
}

#[test]
fn unique_names_suffixes_collisions_in_order() {
    let got = unique_names(&[
        "house-acoustic-pop",
        "house-acoustic-pop",
        "downtempo-folk",
        "house-acoustic-pop",
    ]);
    assert_eq!(
        got,
        vec![
            "house-acoustic-pop".to_string(),
            "house-acoustic-pop-2".to_string(),
            "downtempo-folk".to_string(),
            "house-acoustic-pop-3".to_string(),
        ]
    );
}

#[test]
fn unique_names_avoids_aliasing_a_pre_numbered_base() {
    let got = unique_names(&["mid-pop", "mid-pop-2", "mid-pop"]);
    assert_eq!(
        got,
        vec![
            "mid-pop".to_string(),
            "mid-pop-2".to_string(),
            "mid-pop-3".to_string(),
        ]
    );
}

#[test]
fn top_counts_orders_by_count_then_name() {
    let items: Vec<String> = ["pop", "rock", "pop", "jazz", "rock", "pop"]
        .into_iter()
        .map(String::from)
        .collect();
    assert_eq!(top_counts(&items, 3), vec!["pop", "rock", "jazz"]);

    let tie: Vec<String> = ["b", "a", "c"].into_iter().map(String::from).collect();
    assert_eq!(top_counts(&tie, 2), vec!["a", "b"]);
}

#[test]
fn top_counts_with_k_zero_or_no_items_is_empty() {
    let items: Vec<String> = vec!["x".to_string()];
    assert!(top_counts(&items, 0).is_empty());
    assert!(top_counts(&Vec::new(), 3).is_empty());
}

#[test]
fn union_find_groups_connected_nodes() {
    let mut uf = UnionFind::new(5);
    uf.union(0, 1);
    uf.union(1, 2);
    uf.union(3, 4);
    assert_eq!(uf.find(0), uf.find(2));
    assert_ne!(uf.find(0), uf.find(3));
    assert_eq!(uf.find(3), uf.find(4));
}

#[test]
fn union_find_join_is_transitive_and_idempotent() {
    let mut uf = UnionFind::new(4);
    assert_eq!(uf.len(), 4);
    uf.union(2, 3);
    uf.union(3, 2);
    uf.union(0, 3);
    assert_eq!(uf.find(0), uf.find(2));
    assert_ne!(uf.find(1), uf.find(0));
}

#[test]
fn mutual_pairs_keep_only_reciprocated_edges() {
    let edges = vec![
        SimEdge { src: "a".into(), tgt: "b".into(), score: 0.9 },
        SimEdge { src: "b".into(), tgt: "a".into(), score: 0.9 },
        SimEdge { src: "a".into(), tgt: "c".into(), score: 0.8 },
        SimEdge { src: "b".into(), tgt: "d".into(), score: 0.7 },
        SimEdge { src: "d".into(), tgt: "b".into(), score: 0.7 },
    ];
    let got = mutual_pairs(&edges);
    assert_eq!(got, vec![("a", "b", 0.9), ("b", "d", 0.7)]);
}

#[test]
fn style_label_follows_the_three_way_template() {
    assert_eq!(style_label("house", Some("acoustic"), Some("folk")), "house-acoustic-folk");
    assert_eq!(style_label("upbeat", Some("electric"), None), "upbeat-electric-mixed");
    assert_eq!(style_label("mid", None, Some("pop")), "mid-pop");
}

#[test]
fn style_ids_are_zero_padded_to_the_count_width() {
    assert_eq!(style_id(7, 12), "style-007");
    assert_eq!(style_id(42, 1500), "style-0042");
    assert_eq!(style_id(1234, 1500), "style-1234");
}

fn strings(v: &[&str]) -> Vec<String> {
    v.iter().map(|s| s.to_string()).collect()
}

fn pair(a: &str, b: &str) -> (String, String) {
    (a.to_string(), b.to_string())
}

#[test]
fn style_components_keep_large_classes_largest_first() {
    let hashes = strings(&["a", "b", "c", "d", "e", "f", "g"]);
    // {a, b, c} and {e, f} and {d} and {g}; pairs naming an unknown hash are skipped.
    let pairs = vec![pair("a", "b"), pair("c", "b"), pair("e", "f"), pair("zz", "g")];
    let comps = style_components(&hashes, &pairs, 2);
    assert_eq!(comps, vec![vec![0, 1, 2], vec![4, 5]]);
}

#[test]
fn style_components_break_size_ties_by_first_hash() {
    let hashes = strings(&["a", "b", "c", "d"]);
    let pairs = vec![pair("c", "d"), pair("b", "a")];
    let comps = style_components(&hashes, &pairs, 2);
    assert_eq!(comps, vec![vec![0, 1], vec![2, 3]]);
}

#[test]
fn style_components_degenerate_cases() {
    let hashes = strings(&["a", "b", "c"]);
    // Every track its own component: nothing survives a minimum of two.
    assert!(style_components(&hashes, &Vec::new(), 2).is_empty());
    // All tracks one component: a single community.
    let pairs = vec![pair("a", "b"), pair("b", "c")];
    assert_eq!(style_components(&hashes, &pairs, 2), vec![vec![0, 1, 2]]);
    // With no minimum every singleton is kept, in hash order.
    assert_eq!(style_components(&hashes, &Vec::new(), 1), vec![vec![0], vec![1], vec![2]]);
}

#[test]
fn style_components_ignore_pair_order_and_repeats() {
    let hashes = strings(&["a", "b", "c", "d", "e"]);
    let forward = vec![pair("a", "b"), pair("b", "c"), pair("d", "e")];
    let shuffled = vec![pair("d", "e"), pair("b", "c"), pair("a", "b"), pair("b", "c")];
    assert_eq!(style_components(&hashes, &forward, 2), style_components(&hashes, &shuffled, 2));
    assert_eq!(style_components(&hashes, &shuffled, 2), vec![vec![0, 1, 2], vec![3, 4]]);
}

#[test]
fn unique_names_never_repeat_a_generated_name() {
    let got = unique_names(&["a", "a", "a-2"]);
    assert_eq!(got, vec!["a".to_string(), "a-2".to_string(), "a-2-2".to_string()]);
}

#[test]
fn union_find_size_tie_goes_to_the_smaller_root() {
    let mut uf = UnionFind::new(2);
    uf.union(1, 0);
    assert_eq!(uf.find(0), 0);
    assert_eq!(uf.find(1), 0);
    let mut uf = UnionFind::new(4);
    uf.union(2, 3);
    uf.union(1, 2);
    // The larger class keeps its root.
    assert_eq!(uf.find(1), 2);
}
