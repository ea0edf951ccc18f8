use sonagram::normalize::{
    album_id, artist_id, decade_id, filename_from_path, genre_id, keys, normalized_title,
};

#[test]
fn artist_missing_and_blank_fall_back() {
    assert_eq!(artist_id(None), "Unknown Artist");
    assert_eq!(artist_id(Some("   ")), "Unknown Artist");
    assert_eq!(artist_id(Some("  ABBA ")), "ABBA");
}

#[test]
fn album_id_is_artist_qualified() {
    assert_eq!(
        album_id("Bruno Mars", Some("Doo-Wops & Hooligans")),
        Some("Bruno Mars|Doo-Wops & Hooligans".to_string())
    );
    assert_eq!(album_id("X", None), None);
    assert_eq!(album_id("X", Some("  ")), None);
}

#[test]
fn genre_casing_is_normalized() {
    assert_eq!(genre_id(Some("Pop")), Some("pop".to_string()));
    assert_eq!(genre_id(Some(" R&B ")), Some("r&b".to_string()));
    assert_eq!(genre_id(None), None);
    assert_eq!(genre_id(Some("")), None);
}

#[test]
fn decade_floors_to_ten() {
    assert_eq!(decade_id(1974), "1970s");
    assert_eq!(decade_id(1970), "1970s");
    assert_eq!(decade_id(1979), "1970s");
    assert_eq!(decade_id(2009), "2000s");
    assert_eq!(decade_id(1967), "1960s");
}

#[test]
fn normalized_title_folds_editions_and_case() {
    assert_eq!(normalized_title("Yesterday"), "yesterday");
    assert_eq!(normalized_title("  Let It Be  "), "let it be");
    assert_eq!(normalized_title("Yesterday (Remastered)"), "yesterday");
    assert_eq!(normalized_title("Yesterday (2009)"), "yesterday");
    assert_eq!(normalized_title("Come Together [Mono]"), "come together");
    assert_eq!(normalized_title("Help! (feat. Someone)"), "help!");
    assert_eq!(normalized_title("Yesterday - Live"), "yesterday");
    assert_eq!(normalized_title("Yesterday - Live at the BBC"), "yesterday");
    assert_eq!(normalized_title("Yesterday - Remastered 2009"), "yesterday");
    assert_eq!(normalized_title("Yesterday - 2009 Remaster"), "yesterday");
    assert_eq!(normalized_title("Yesterday - Mono"), "yesterday");
    assert_eq!(normalized_title("Yesterday - Stereo"), "yesterday");
    assert_eq!(normalized_title("Yesterday - Take 5"), "yesterday");
    assert_eq!(normalized_title("Yesterday - Demo"), "yesterday");
    assert_eq!(normalized_title("Yesterday - Single Version"), "yesterday");
    assert_eq!(normalized_title("Yesterday - Album Version"), "yesterday");
    assert_eq!(normalized_title("Yesterday - 2009"), "yesterday");
    assert_eq!(
        normalized_title("Yesterday (Remastered) - Live - Mono"),
        "yesterday"
    );
}

#[test]
fn normalized_title_normalizes_unicode_apostrophes() {
    let curly = normalized_title("I\u{2019}d Much Rather Be With the Boys");
    let straight = normalized_title("I'd Much Rather Be With the Boys");
    assert_eq!(curly, "i'd much rather be with the boys");
    assert_eq!(curly, straight, "apostrophe variants must key identically");
    assert_eq!(
        normalized_title("Don\u{2018}t Stop"),
        normalized_title("Don't Stop")
    );
}

#[test]
fn normalized_title_preserves_non_marker_dash_phrases() {
    assert_eq!(
        normalized_title("Marie - A Little Cajun Waltz"),
        "marie - a little cajun waltz"
    );
    assert_eq!(normalized_title("Give and Take"), "give and take");
    assert_eq!(normalized_title("Live and Let Die"), "live and let die");
}

#[test]
fn normalized_title_trims_separator_punctuation() {
    assert_eq!(normalized_title("Song."), "song");
    assert_eq!(normalized_title("_Intro_"), "intro");
    assert_eq!(
        normalized_title("(Live)"),
        "",
        "all-decoration title collapses"
    );
}

#[test]
fn filename_strips_directories() {
    assert_eq!(
        filename_from_path("a/b/10 Jive Talkin'.mp3"),
        "10 Jive Talkin'.mp3"
    );
    assert_eq!(filename_from_path("track.mp3"), "track.mp3");
}

#[test]
fn keys_seed_is_24_and_matches_sonara_strings() {
    let table = keys();
    assert_eq!(table.len(), 24);
    let find = |name: &str| table.iter().find(|k| k.name == name).cloned();
    let a_minor = find("A minor").expect("A minor present");
    assert_eq!(a_minor.camelot, "8A");
    assert_eq!(a_minor.mode, "minor");
    let c_major = find("C major").expect("C major present");
    assert_eq!(c_major.camelot, "8B");
    let f_major = find("F major").expect("F major present");
    assert_eq!(f_major.camelot, "7B");
    assert_eq!(f_major.mode, "major");
    let mut names: Vec<&str> = table.iter().map(|k| k.name.as_str()).collect();
    names.sort_unstable();
    names.dedup();
    assert_eq!(names.len(), 24);
}

#[test]
fn take_without_number_and_trailing_dash_are_kept() {
    assert_eq!(normalized_title("Song - Take"), "song - take");
    assert_eq!(normalized_title("Song - Take Five"), "song - take five");
    assert_eq!(normalized_title("Song - Edited"), "song - edited");
    assert_eq!(normalized_title("Song - Edit 2011"), "song");
    assert_eq!(normalized_title("Song (Live"), "song");
}
