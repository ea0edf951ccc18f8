use sonagram::playlist::{
    copy_filename, dedupe_name, extinf_line, folder_report, label, m3u8_body, playlist_file_name,
    refuse_empty_folder, refuse_empty_playlist, sanitize_component, truncate_on_char_boundary,
    with_dedupe_suffix, M3uEntry, MAX_FILENAME_BYTES,
};

#[test]
fn sanitize_replaces_forbidden_and_control_chars() {
    assert_eq!(sanitize_component("AC/DC"), "AC_DC");
    assert_eq!(sanitize_component(r#"a:b*c?"d<e>f|g\h"#), "a_b_c__d_e_f_g_h");
    assert_eq!(sanitize_component("a\tb\nc"), "a_b_c");
    assert_eq!(sanitize_component("  . hello . world .  "), "hello . world");
}

#[test]
fn sanitize_preserves_cjk_verbatim() {
    assert_eq!(sanitize_component("薔薇と雨"), "薔薇と雨");
    assert_eq!(sanitize_component("布袋寅泰"), "布袋寅泰");
    assert_eq!(sanitize_component("東京/大阪"), "東京_大阪");
}

#[test]
fn truncate_respects_multibyte_boundaries() {
    let s = "薔薇と雨";
    let t = truncate_on_char_boundary(s, 7);
    assert_eq!(t, "薔薇");
    assert_eq!(t.len(), 6);
    assert_eq!(truncate_on_char_boundary(s, 100), s);
    assert_eq!(truncate_on_char_boundary("abcdef", 3), "abc");
}

#[test]
fn dedupe_appends_numeric_suffix_before_extension() {
    let mut used = Vec::new();
    assert_eq!(dedupe_name("01 - A - T.mp3", &mut used), "01 - A - T.mp3");
    assert_eq!(dedupe_name("01 - A - T.mp3", &mut used), "01 - A - T (2).mp3");
    assert_eq!(dedupe_name("01 - A - T.mp3", &mut used), "01 - A - T (3).mp3");
    assert_eq!(dedupe_name("01 - a - t.MP3", &mut used), "01 - a - t (4).MP3");
    let mut used2 = Vec::new();
    assert_eq!(dedupe_name("noext", &mut used2), "noext");
    assert_eq!(dedupe_name("noext", &mut used2), "noext (2)");
}

#[test]
fn dedupe_suffix_ignores_leading_and_trailing_dots() {
    assert_eq!(with_dedupe_suffix(".hidden", 2), ".hidden (2)");
    assert_eq!(with_dedupe_suffix("name.", 3), "name. (3)");
    assert_eq!(with_dedupe_suffix("a.b.flac", 12), "a.b (12).flac");
}

#[test]
fn extinf_rounds_duration_to_nearest_second() {
    let l = label(Some("America"), Some("Tin Man"), Some("a.mp3"));
    assert_eq!(extinf_line(Some(183), &l), "#EXTINF:183,America - Tin Man");
    assert_eq!(extinf_line(Some(184), &l), "#EXTINF:184,America - Tin Man");
}

#[test]
fn extinf_unknown_duration_is_minus_one() {
    let l = label(Some("A"), Some("T"), Some("a.mp3"));
    assert_eq!(extinf_line(None, &l), "#EXTINF:-1,A - T");
}

#[test]
fn label_missing_artist_is_title_only() {
    assert_eq!(label(None, Some("Just the Title"), Some("song.mp3")), "Just the Title");
    assert_eq!(label(Some("   "), Some("Just the Title"), Some("song.mp3")), "Just the Title");
}

#[test]
fn label_missing_both_falls_back_to_filename() {
    assert_eq!(label(None, None, Some("song file.mp3")), "song file.mp3");
    assert_eq!(label(Some("Some Artist"), Some(""), Some("only.mp3")), "only.mp3");
    assert_eq!(label(None, None, None), "unknown");
}

#[test]
fn copy_filename_position_artist_title_ext() {
    assert_eq!(
        copy_filename(4, Some("Bruno Mars"), Some("Marry You"), Some("04 Marry You"), Some("mp3")),
        "04 - Bruno Mars - Marry You.mp3"
    );
}

#[test]
fn copy_filename_cjk_intact() {
    assert_eq!(
        copy_filename(2, Some("布袋寅泰"), Some("薔薇と雨"), Some("08 薔薇と雨"), Some("mp3")),
        "02 - 布袋寅泰 - 薔薇と雨.mp3"
    );
}

#[test]
fn copy_filename_sanitizes_slashes() {
    assert_eq!(
        copy_filename(1, Some("AC/DC"), Some("Back in Black"), Some("x"), Some("mp3")),
        "01 - AC_DC - Back in Black.mp3"
    );
}

#[test]
fn copy_filename_missing_tags_falls_back_to_source_stem() {
    assert_eq!(
        copy_filename(7, None, None, Some("mystery track"), Some("mp3")),
        "07 - mystery track.mp3"
    );
    assert_eq!(
        copy_filename(3, Some("   "), Some("Just Title"), Some("z"), Some("flac")),
        "03 - Just Title.flac"
    );
}

#[test]
fn copy_filename_truncates_long_stem_at_200_bytes() {
    let long_title = "é".repeat(300);
    let name = copy_filename(1, None, Some(&long_title), Some("x"), Some("mp3"));
    assert!(name.len() <= MAX_FILENAME_BYTES, "capped: {} bytes", name.len());
    assert!(name.starts_with("01 - "));
    assert!(name.ends_with(".mp3"));
    assert!(name.chars().count() > 5);
}

#[test]
fn copy_filename_positions_past_ninety_nine_keep_all_digits() {
    assert_eq!(copy_filename(123, None, Some("T"), None, None), "123 - T");
    assert_eq!(copy_filename(5, None, None, None, None), "05 - track");
}

#[test]
fn m3u8_body_has_header_then_line_pairs() {
    let entries = vec![
        M3uEntry { secs: Some(211), label: "America - Tin Man".into(), path_line: "/music/tin man.mp3".into() },
        M3uEntry { secs: None, label: "mystery.mp3".into(), path_line: "/music/mystery.mp3".into() },
    ];
    let body = m3u8_body(&entries);
    assert!(!body.starts_with('\u{feff}'));
    let lines: Vec<&str> = body.lines().collect();
    assert_eq!(lines[0], "#EXTM3U");
    assert_eq!(lines[1], "#EXTINF:211,America - Tin Man");
    assert_eq!(lines[2], "/music/tin man.mp3");
    assert_eq!(lines[3], "#EXTINF:-1,mystery.mp3");
    assert_eq!(lines[4], "/music/mystery.mp3");
    assert_eq!(m3u8_body(&[]), "#EXTM3U\n");
}

#[test]
fn playlist_file_name_falls_back_to_playlist() {
    assert_eq!(playlist_file_name("My Set"), "My Set.m3u8");
    assert_eq!(playlist_file_name(" .. "), "playlist.m3u8");
    assert_eq!(playlist_file_name("a/b"), "a_b.m3u8");
}

#[test]
fn empty_playlists_are_refused() {
    assert!(refuse_empty_playlist(0).is_err());
    assert!(refuse_empty_playlist(2).is_ok());
    assert!(refuse_empty_folder(0).is_err());
    assert!(refuse_empty_folder(1).is_ok());
    let msg = refuse_empty_playlist(0).unwrap_err().message();
    assert!(msg.starts_with("playlist error: refusing"));
}

#[test]
fn folder_report_counts_successful_copies() {
    let results: Vec<Result<u64, String>> = vec![Ok(100), Ok(250), Ok(0)];
    let rep = folder_report("/out", "/out/Mix.m3u8".to_string(), &results).unwrap();
    assert_eq!(rep.copied, 3);
    assert_eq!(rep.bytes, 350);
    assert_eq!(rep.playlist_path, "/out/Mix.m3u8");
}

#[test]
fn folder_report_lists_every_failed_copy() {
    let results: Vec<Result<u64, String>> =
        vec![Ok(10), Err("/m/a.mp3: missing".to_string()), Err("/m/b.mp3: denied".to_string())];
    let err = folder_report("/out", "/out/Mix.m3u8".to_string(), &results).err().unwrap();
    assert_eq!(
        err.message(),
        "playlist error: 2 file(s) failed to copy into /out (partial copies left in place): \
         [/m/a.mp3: missing, /m/b.mp3: denied]"
    );
}
