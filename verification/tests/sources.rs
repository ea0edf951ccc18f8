use sonagram::sources::{merge_sources, source_order};

fn strings(v: &[&str]) -> Vec<String> {
    v.iter().map(|s| s.to_string()).collect()
}

#[test]
fn sources_are_ordered_by_root_keeping_ties_stable() {
    assert_eq!(source_order(&strings(&["/b", "/a", "/c", "/a"])), vec![1, 3, 0, 2]);
    assert!(source_order(&Vec::new()).is_empty());
}

#[test]
fn merge_takes_each_hash_from_the_first_source_in_root_order() {
    let roots = strings(&["/b", "/a", "/c"]);
    let hashes = vec![strings(&["h2", "h1"]), strings(&["h1", "h3"]), strings(&["h4", "h3"])];
    let m = merge_sources(&roots, &hashes);
    assert_eq!(m.order, vec![1, 0, 2]);
    assert_eq!(m.firsts, vec![(1, 0), (1, 1), (0, 0), (2, 0)]);
    assert_eq!(m.counts, vec![1, 2, 1]);
    assert_eq!(m.sorted_hashes, strings(&["h1", "h2", "h3", "h4"]));
}

#[test]
fn a_source_that_wins_nothing_still_counts_zero() {
    let roots = strings(&["/a", "/b"]);
    let hashes = vec![strings(&["x", "y"]), strings(&["y", "x"])];
    let m = merge_sources(&roots, &hashes);
    assert_eq!(m.counts, vec![2, 0]);
    assert_eq!(m.sorted_hashes, strings(&["x", "y"]));
}
