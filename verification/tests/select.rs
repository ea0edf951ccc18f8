use sonagram::curation::{
    AuditSeverity, DiversityPolicy, RelativeDirection, SeedRole, SeedSimilarityPreference,
};
use sonagram::select::{
    brief_issues, duration_first_fill, eligibility_issues, gap_violation_count, infeasible_issue,
    rejection_issues, seed_directives_active, take_in_seeds, CandidateKeys, EligibilityRules,
    TrackFacts,
};

fn cand(id: &str, artist: &str, album: &str, song: Option<&str>) -> CandidateKeys {
    CandidateKeys {
        id: id.to_string(),
        artist_key: artist.to_string(),
        album_key: album.to_string(),
        song_key: song.map(|s| s.to_string()),
    }
}

fn strings(v: &[&str]) -> Vec<String> {
    v.iter().map(|s| s.to_string()).collect()
}

fn pairs(v: &[(&str, &str)]) -> Vec<(String, String)> {
    v.iter().map(|(a, b)| (a.to_string(), b.to_string())).collect()
}

#[test]
fn duration_fill_takes_candidates_that_keep_every_cap() {
    let seeds = vec![cand("a", "x", "p", None)];
    let candidates = vec![
        cand("b", "x", "q", None),
        cand("c", "x", "r", None),
        cand("a", "z", "s", None),
        cand("e", "y", "t", None),
        cand("f", "w", "u", None),
    ];
    // "c" would be the third track by "x"; "a" is already in; the target stops "f".
    assert_eq!(duration_first_fill(&seeds, &candidates, 3, 2, 2, 1), vec![0, 3]);
}

#[test]
fn duration_fill_reads_song_keys_and_their_fallback_to_the_id() {
    let seeds = vec![cand("a", "", "", Some("song1"))];
    let candidates = vec![
        cand("b", "", "", Some("song1")),
        cand("c", "", "", None),
        cand("d", "", "", Some("c")),
    ];
    // "b" repeats song1; "d" names the song that "c" stands for by its id.
    assert_eq!(duration_first_fill(&seeds, &candidates, 10, 1, 1, 1), vec![1]);
}

fn intake_tracks() -> (Vec<CandidateKeys>, Vec<Vec<(String, String)>>) {
    let tracks = vec![cand("t1", "x", "", None), cand("t2", "x", "", None), cand("t3", "y", "", None)];
    let eligibility = vec![
        Vec::new(),
        Vec::new(),
        pairs(&[("non_music", "track is not classified as music"), ("low_quality", "later")]),
    ];
    (tracks, eligibility)
}

#[test]
fn seed_intake_reports_each_kind_of_bad_seed() {
    let (tracks, eligibility) = intake_tracks();
    let seeds = strings(&["t1", "t1", "zz", "t3", "t2"]);
    let r = take_in_seeds(&seeds, &tracks, &eligibility, SeedRole::Pinned, 1, 2, 1);
    assert_eq!(r.selected, vec![0]);
    assert!(r.references.is_empty());
    let found: Vec<(&str, &str)> = r.issues.iter().map(|i| (i.code.as_str(), i.message.as_str())).collect();
    assert_eq!(
        found,
        vec![
            ("duplicate_seed", "seed t1 occurs more than once"),
            ("missing_seed", "seed zz is not in the graph"),
            ("ineligible_seed", "seed t3 violates policy: track is not classified as music"),
            ("seed_diversity_conflict", "seed t2 exceeds a diversity cap"),
        ]
    );
    assert!(r.issues.iter().all(|i| i.severity == AuditSeverity::Error && i.positions.is_empty()));
}

#[test]
fn seed_intake_keeps_references_by_role() {
    let (tracks, eligibility) = intake_tracks();
    let seeds = strings(&["t1", "t1", "zz", "t3", "t2"]);
    let both = take_in_seeds(&seeds, &tracks, &eligibility, SeedRole::PinnedAndReference, 1, 2, 1);
    assert_eq!(both.references, vec![0, 2, 1]);
    assert_eq!(both.selected, vec![0]);
    let refs = take_in_seeds(&seeds, &tracks, &eligibility, SeedRole::Reference, 1, 2, 1);
    assert_eq!(refs.references, vec![0, 2, 1]);
    assert!(refs.selected.is_empty());
    let codes: Vec<&str> = refs.issues.iter().map(|i| i.code.as_str()).collect();
    assert_eq!(codes, vec!["duplicate_seed", "missing_seed"]);
}

#[test]
fn brief_issues_cover_every_invalid_brief() {
    let policy = DiversityPolicy { max_per_artist: 2, max_per_album: 2, max_per_song: 0, min_artist_gap: 3 };
    let issues = brief_issues(0, 2, SeedRole::Pinned, true, policy);
    let found: Vec<(&str, &str)> = issues.iter().map(|i| (i.code.as_str(), i.message.as_str())).collect();
    assert_eq!(
        found,
        vec![
            ("invalid_target", "target_tracks must be greater than zero"),
            ("too_many_seeds", "2 seeds exceed the target of 0 tracks"),
            (
                "seed_target_without_reference",
                "seed-relative targets require seed_role reference or pinned_and_reference"
            ),
            ("invalid_policy", "diversity caps must be greater than zero"),
        ]
    );
    // Reference seeds are never entries, so they cannot exceed the target.
    let ok = brief_issues(1, 5, SeedRole::Reference, true, DiversityPolicy::default());
    assert!(ok.is_empty());
}

#[test]
fn seed_directives_follow_any_relative_target() {
    let any = RelativeDirection::Any;
    assert!(!seed_directives_active(SeedSimilarityPreference::Neutral, false, any, any, any, any));
    assert!(seed_directives_active(SeedSimilarityPreference::Neutral, true, any, any, any, any));
    assert!(seed_directives_active(
        SeedSimilarityPreference::Neutral,
        false,
        any,
        any,
        RelativeDirection::Higher,
        any
    ));
}

fn rules() -> EligibilityRules {
    EligibilityRules {
        require_music: true,
        require_canonical: true,
        allow_low_quality: false,
        include_artists: Vec::new(),
        exclude_artists: strings(&["Bad Band"]),
        include_genres: strings(&["rock"]),
        exclude_genres: Vec::new(),
        include_styles: Vec::new(),
        exclude_styles: Vec::new(),
        include_decades: Vec::new(),
        exclude_decades: Vec::new(),
        min_year: Some(1990),
        max_year: None,
    }
}

#[test]
fn eligibility_issues_keep_the_order_of_the_checks() {
    let track = TrackFacts {
        is_music: false,
        is_canonical: true,
        quality_tier: Some("low".to_string()),
        artist: Some(" bad band ".to_string()),
        genre_keys: strings(&["jazz"]),
        style_keys: Vec::new(),
        decade_keys: Vec::new(),
        year: Some(1985),
    };
    let measured = pairs(&[("energy_too_low", "energy is below the minimum")]);
    let issues = eligibility_issues(&rules(), &track, measured);
    assert_eq!(
        issues,
        pairs(&[
            ("non_music", "track is not classified as music"),
            ("low_quality", "track is in the low quality tier"),
            ("energy_too_low", "energy is below the minimum"),
            ("artist_excluded", "track matches an excluded artist"),
            ("genre_not_included", "track does not match an included genre"),
            ("year_too_early", "year 1985 is before the minimum"),
        ])
    );
}

#[test]
fn eligibility_issues_of_a_clean_track_and_a_yearless_one() {
    let clean = TrackFacts {
        is_music: true,
        is_canonical: true,
        quality_tier: Some("high".to_string()),
        artist: Some("Good".to_string()),
        genre_keys: strings(&["Rock"]),
        style_keys: Vec::new(),
        decade_keys: Vec::new(),
        year: Some(2001),
    };
    assert!(eligibility_issues(&rules(), &clean, Vec::new()).is_empty());
    let yearless = TrackFacts { year: None, ..clean };
    assert_eq!(
        eligibility_issues(&rules(), &yearless, Vec::new()),
        pairs(&[("year_missing", "track has no usable original/file year")])
    );
}

#[test]
fn rejection_issues_tally_codes_in_order() {
    let rejections = pairs(&[("b_code", "m1"), ("a_code", "m2"), ("b_code", "m3")]);
    let all = rejection_issues(&rejections, None, true);
    let found: Vec<(&str, &str)> = all.iter().map(|i| (i.code.as_str(), i.message.as_str())).collect();
    assert_eq!(
        found,
        vec![
            ("a_code", "1 candidate(s) rejected by seed intent: m2"),
            ("b_code", "2 candidate(s) rejected by seed intent: m1"),
        ]
    );
    let kept = rejection_issues(&rejections, Some("b_code"), false);
    assert_eq!(kept.len(), 1);
    assert_eq!(kept[0].message, "2 candidate(s) rejected: m1");
    assert!(rejection_issues(&rejections, Some("none"), false).is_empty());
}

#[test]
fn infeasible_issue_names_the_shortfall() {
    let issue = infeasible_issue(3, 5);
    assert_eq!(issue.code, "infeasible_selection");
    assert_eq!(
        issue.message,
        "policy can supply only 3 of 5 requested tracks without relaxing hard constraints"
    );
}

#[test]
fn gap_violations_count_close_repeats() {
    let keys = strings(&["a", "b", "a", "a", ""]);
    assert_eq!(gap_violation_count(&keys, 3), 2);
    assert_eq!(gap_violation_count(&keys, 2), 1);
    assert_eq!(gap_violation_count(&keys, 1), 0);
    assert_eq!(gap_violation_count(&keys, 0), 0);
}
