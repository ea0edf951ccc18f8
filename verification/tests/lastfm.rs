use sonagram::lastfm::{
    album_record, artist_record, collect_names, get, opt_int, opt_text, parse_i64, similar_candidates,
    tag_names_unfiltered, tag_pairs, track_facts, Json,
};

fn obj(members: Vec<(&str, Json)>) -> Json {
    Json::Object(members.into_iter().map(|(k, v)| (k.to_string(), v)).collect())
}

fn text(s: &str) -> Json {
    Json::Text(s.to_string())
}

fn num(s: &str) -> Json {
    Json::Number(s.to_string())
}

fn named(name: &str) -> Json {
    obj(vec![("name", text(name))])
}

fn weight(w: &Option<String>) -> f32 {
    w.as_deref().and_then(|t| t.parse::<f64>().ok()).unwrap_or(0.0) as f32
}

#[test]
fn artist_top_tags_apply_count_filter() {
    let info = obj(vec![(
        "artist",
        obj(vec![
            ("name", text("ABBA")),
            ("url", text("https://last.fm/abba")),
            ("mbid", text("mbid-abba")),
            ("stats", obj(vec![("listeners", text("1000")), ("playcount", text("5000"))])),
            ("tags", obj(vec![("tag", Json::Array(vec![named("Pop")]))])),
            ("similar", obj(vec![("artist", Json::Array(vec![named("Bee Gees"), named("A-ha")]))])),
        ]),
    )]);
    let top = obj(vec![(
        "toptags",
        obj(vec![(
            "tag",
            Json::Array(vec![
                obj(vec![("name", text("swedish")), ("count", num("100"))]),
                obj(vec![("name", text("disco")), ("count", num("40"))]),
                obj(vec![("name", text("noise")), ("count", num("3"))]),
            ]),
        )]),
    )]);
    let rec = artist_record("ABBA", Some(&info), Some(&top));
    assert!(rec.fetched && !rec.failed);
    assert_eq!(rec.listeners, Some(1000));
    assert_eq!(rec.playcount, Some(5000));
    assert_eq!(rec.mbid.as_deref(), Some("mbid-abba"));
    // "pop" from getInfo (lowercased), then swedish + disco (count >= 10);
    // "noise" (count 3) is filtered out.
    assert_eq!(rec.tags, vec!["pop", "swedish", "disco"]);
    assert_eq!(rec.similar, vec!["Bee Gees", "A-ha"]);
    assert_eq!(rec.correction, None);
}

#[test]
fn track_similar_keeps_match_weight() {
    let info = obj(vec![(
        "track",
        obj(vec![
            ("name", text("On and on and on")),
            ("mbid", text("t-mbid")),
            ("url", text("https://last.fm/t")),
            ("duration", text("270000")),
            ("listeners", text("800")),
            ("playcount", text("9000")),
            ("artist", named("ABBA")),
            (
                "album",
                obj(vec![
                    ("title", text("Super Trouper")),
                    ("mbid", text("al-mbid")),
                    ("url", text("https://last.fm/al")),
                    ("@attr", obj(vec![("position", text("7"))])),
                ]),
            ),
            ("toptags", obj(vec![("tag", Json::Array(vec![named("Pop"), named("Classic")]))])),
        ]),
    )]);
    let similar = obj(vec![(
        "similartracks",
        obj(vec![(
            "track",
            Json::Array(vec![
                obj(vec![("name", text("Jive Talkin'")), ("artist", named("Bee Gees")), ("match", num("0.87"))]),
                obj(vec![("name", text("Marry You")), ("artist", named("Bruno Mars")), ("match", text("0.42"))]),
            ]),
        )]),
    )]);
    let rec = track_facts(Some(&info));
    assert!(rec.fetched && !rec.failed);
    assert_eq!(rec.duration_ms, Some(270000));
    assert_eq!(rec.album_title.as_deref(), Some("Super Trouper"));
    assert_eq!(rec.album_position, Some(7));
    assert_eq!(rec.tags, vec!["pop", "classic"]);
    let sims = similar_candidates(Some(&similar));
    assert_eq!(sims.len(), 2);
    assert_eq!(weight(&sims[0].weight_text), 0.87);
    assert_eq!(weight(&sims[1].weight_text), 0.42);
    assert_eq!(sims[0].artist, "Bee Gees");
    assert_eq!(sims[1].title, "Marry You");
}

#[test]
fn fetch_soft_fails_on_no_data() {
    let a = artist_record("Nobody", None, None);
    assert!(a.fetched && a.failed);
    assert!(a.reason.is_some());
    let t = track_facts(None);
    assert!(t.fetched && t.failed);
    let al = album_record(None);
    assert!(al.fetched && al.failed);
}

#[test]
fn album_wiki_is_stripped_and_truncated() {
    let info = obj(vec![(
        "album",
        obj(vec![
            ("mbid", text("al")),
            ("url", text("u")),
            ("listeners", text("10")),
            ("playcount", text("20")),
            ("tags", obj(vec![("tag", Json::Array(vec![named("Disco")]))])),
            ("wiki", obj(vec![("summary", text("A classic. <a href=\"x\">more</a>"))])),
        ]),
    )]);
    let rec = album_record(Some(&info));
    assert_eq!(rec.wiki_summary.as_deref(), Some("A classic."));
    assert_eq!(rec.tags, vec!["disco"]);
    assert_eq!(rec.listeners, Some(10));
}

#[test]
fn failure_reasons_tell_no_data_from_no_entity() {
    let empty = obj(vec![]);
    assert_eq!(artist_record("X", None, None).reason.as_deref(), Some("artist.getInfo returned no data"));
    assert_eq!(
        artist_record("X", Some(&empty), None).reason.as_deref(),
        Some("artist.getInfo returned no `artist`")
    );
    assert_eq!(track_facts(Some(&empty)).reason.as_deref(), Some("track.getInfo returned no `track`"));
    assert_eq!(album_record(Some(&empty)).reason.as_deref(), Some("album.getInfo returned no `album`"));
    // A failed artist still takes the top tags.
    let top = obj(vec![("toptags", obj(vec![("tag", obj(vec![("name", text("Rock")), ("count", num("50"))]))]))]);
    assert_eq!(artist_record("X", None, Some(&top)).tags, vec!["rock"]);
}

#[test]
fn artist_correction_only_when_names_differ() {
    let info = obj(vec![("artist", obj(vec![("name", text("The Beatles"))]))]);
    assert_eq!(artist_record("beatles", Some(&info), None).correction.as_deref(), Some("The Beatles"));
    assert_eq!(artist_record(" the beatles ", Some(&info), None).correction, None);
}

#[test]
fn counts_read_numbers_and_numeric_strings() {
    assert_eq!(opt_int(Some(&num("42"))), Some(42));
    assert_eq!(opt_int(Some(&text(" 17 "))), Some(17));
    assert_eq!(opt_int(Some(&text("+5"))), Some(5));
    assert_eq!(opt_int(Some(&text("-3"))), Some(-3));
    assert_eq!(opt_int(Some(&text(""))), None);
    assert_eq!(opt_int(Some(&text("12a"))), None);
    assert_eq!(opt_int(Some(&num("1.5"))), None);
    assert_eq!(opt_int(Some(&Json::Bool(true))), None);
    assert_eq!(opt_int(None), None);
    let chars = |s: &str| s.chars().collect::<Vec<char>>();
    assert_eq!(parse_i64(&chars("-9223372036854775808")), Some(i64::MIN));
    assert_eq!(parse_i64(&chars("9223372036854775807")), Some(i64::MAX));
    assert_eq!(parse_i64(&chars("9223372036854775808")), None);
    assert_eq!(parse_i64(&chars("-")), None);
    assert_eq!(parse_i64(&chars("-+1")), None);
}

#[test]
fn text_values_are_trimmed_and_blank_is_absent() {
    assert_eq!(opt_text(Some(&text("  x  "))), Some("x".to_string()));
    assert_eq!(opt_text(Some(&text("   "))), None);
    assert_eq!(opt_text(Some(&num("3"))), None);
}

#[test]
fn tag_containers_accept_a_list_or_a_single_object() {
    let list = obj(vec![("tag", Json::Array(vec![named("Pop"), obj(vec![("count", num("3"))]), named("pop")]))]);
    let pairs = tag_pairs(Some(&list));
    assert_eq!(pairs, vec![("pop".to_string(), None), ("pop".to_string(), None)]);
    assert_eq!(tag_names_unfiltered(Some(&list)), vec!["pop"]);
    let single = obj(vec![("tag", obj(vec![("name", text("Jazz")), ("count", text("12"))]))]);
    assert_eq!(tag_pairs(Some(&single)), vec![("jazz".to_string(), Some(12))]);
    assert!(tag_pairs(Some(&obj(vec![("tag", text("x"))]))).is_empty());
    assert!(tag_pairs(None).is_empty());
}

#[test]
fn names_and_members_follow_the_answer() {
    let node = Json::Array(vec![named("A"), obj(vec![]), named(" B ")]);
    assert_eq!(collect_names(Some(&node)), vec!["A", "B"]);
    assert_eq!(collect_names(Some(&named("Solo"))), vec!["Solo"]);
    let o = obj(vec![("k", text("first")), ("z", text("other"))]);
    assert!(matches!(get(Some(&o), "k"), Some(Json::Text(t)) if t == "first"));
    assert!(get(Some(&o), "missing").is_none());
    assert!(get(Some(&text("k")), "k").is_none());
}
