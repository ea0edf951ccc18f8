use sonagram::graph::{
    build_input_fingerprint, combined_build_input_fingerprint, embedding_model_id, era_year,
};
use sonagram::record::TagsDto;

fn tags_with(year: Option<u32>, original_year: Option<u32>) -> TagsDto {
    TagsDto {
        title: None,
        artist: None,
        album: None,
        genre: None,
        year,
        original_year,
        track_no: None,
    }
}

#[test]
fn era_year_prefers_original_year_then_falls_back() {
    assert_eq!(
        era_year(Some(&tags_with(Some(2015), Some(1972)))),
        Some((1972, "original_year"))
    );
    assert_eq!(era_year(Some(&tags_with(Some(2015), None))), Some((2015, "file_year")));
    assert_eq!(era_year(Some(&tags_with(None, None))), None);
    assert_eq!(era_year(None), None);
    assert_eq!(
        era_year(Some(&tags_with(None, Some(1969)))),
        Some((1969, "original_year"))
    );
}

#[test]
fn embedding_model_id_derives_from_similarity_version() {
    assert_eq!(
        embedding_model_id(),
        format!("sonara-similarity-v{}", sonagram::graph::SIMILARITY_VERSION)
    );
    assert_eq!(embedding_model_id(), "sonara-similarity-v2");
}

fn pairs(v: &[(&str, &str)]) -> Vec<(String, String)> {
    v.iter().map(|(a, b)| (a.to_string(), b.to_string())).collect()
}

#[test]
fn build_input_fingerprint_ignores_record_order() {
    let a = pairs(&[("h2", "{\"b\":1}"), ("h1", "{\"a\":1}"), ("h3", "{}")]);
    let b = pairs(&[("h3", "{}"), ("h1", "{\"a\":1}"), ("h2", "{\"b\":1}")]);
    let fa = build_input_fingerprint(&a, 3);
    assert_eq!(fa, build_input_fingerprint(&b, 3));
    assert_eq!(fa.len(), 64);
    assert!(fa.chars().all(|c| c.is_ascii_hexdigit() && !c.is_ascii_uppercase()));
}

#[test]
fn build_input_fingerprint_moves_with_content_and_schema() {
    let a = pairs(&[("h1", "{\"a\":1}")]);
    let b = pairs(&[("h1", "{\"a\":2}")]);
    assert_ne!(build_input_fingerprint(&a, 3), build_input_fingerprint(&b, 3));
    assert_ne!(build_input_fingerprint(&a, 3), build_input_fingerprint(&a, 4));
}

#[test]
fn build_input_fingerprint_frames_fields_with_lengths() {
    // The framing keeps ("ab","c") and ("a","bc") apart.
    let a = pairs(&[("ab", "c")]);
    let b = pairs(&[("a", "bc")]);
    assert_ne!(build_input_fingerprint(&a, 1), build_input_fingerprint(&b, 1));
}

#[test]
fn build_input_fingerprint_matches_the_framed_blake3_digest() {
    let entries = pairs(&[("h1", "j1")]);
    let mut msg: Vec<u8> = Vec::new();
    for field in ["sonagram-build-input-v1", "7", "2", "3", "1", "h1", "j1"] {
        msg.extend_from_slice(&(field.len() as u64).to_le_bytes());
        msg.extend_from_slice(field.as_bytes());
    }
    let expected = blake3::hash(&msg).to_hex().to_string();
    assert_eq!(build_input_fingerprint(&entries, 7), expected);
}

#[test]
fn combined_fingerprint_depends_on_every_source() {
    let one = pairs(&[("/a", "f1"), ("/b", "f2")]);
    let two = pairs(&[("/a", "f1"), ("/b", "f3")]);
    assert_ne!(
        combined_build_input_fingerprint(&one),
        combined_build_input_fingerprint(&two)
    );
    assert_eq!(combined_build_input_fingerprint(&one).len(), 64);
}
