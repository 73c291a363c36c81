use midnite_archive::rename::{
    conflict_candidate, dry_run_summary, has_extension, planned_rename, rename_summary,
    rename_target, sanitize, sanitize_filename,
};

#[test]
fn sanitize_keeps_id_suffix_and_extension() {
    assert_eq!(
        sanitize_filename("Midnite - Live @ Club (2005)-dQw4w9WgXcQ.mkv"),
        "Midnite_Live_Club_2005-dQw4w9WgXcQ.mkv"
    );
    assert_eq!(sanitize_filename("no dots here"), "no_dots_here");
    assert_eq!(sanitize_filename("a：b⧸c-x.mp4"), "a_b_c-x.mp4");
    assert_eq!(sanitize_filename("__a__b__.mp4"), "a_b.mp4");
    assert_eq!(sanitize_filename(".hidden"), ".hidden");
}

#[test]
fn planned_rename_skips_clean_names() {
    assert_eq!(planned_rename("clean_name-abc.mp4"), None);
    assert_eq!(planned_rename("a b-abc.mp4"), Some("a_b-abc.mp4".to_string()));
    let once = sanitize_filename("(x) y, z-ID.description");
    assert_eq!(planned_rename(&once), None);
}

#[test]
fn extension_and_conflict_names() {
    assert!(has_extension("a.mkv", "mkv"));
    assert!(!has_extension("a.mkv.part", "mkv"));
    assert!(!has_extension(".mkv", "mkv"));
    assert_eq!(conflict_candidate("dir", "a_b-x.mp4", 2), "dir/a_b-x_2.mp4");
    assert_eq!(conflict_candidate("dir", "plain", 1), "dir/plain_1.");
}

#[test]
fn sanitizing_twice_changes_nothing() {
    for name in [
        "Midnite - Live @ Club (2005)-dQw4w9WgXcQ.mkv",
        "__a__ b -- c__-x-y.webm",
        "no dots -- here",
        "-lead.mp4",
        "a.b c-id.tar.gz",
    ] {
        let once = sanitize_filename(name);
        assert_eq!(sanitize_filename(&once), once);
        assert_eq!(planned_rename(&once), None);
    }
}

#[test]
fn sanitize_title_replaces_unsafe_chars_and_cuts_at_80() {
    assert_eq!(sanitize(r#"a/b\c:d*e?f"g<h>i|j - k"#), "a_b_c_d_e_f_g_h_i_j - k");
    let long: String = "é".repeat(100);
    assert_eq!(sanitize(&long), "é".repeat(80));
    assert_eq!(sanitize(""), "");
}

#[test]
fn rename_targets_and_summaries() {
    assert_eq!(rename_target("dir", "a_b-x.mp4", 0), "dir/a_b-x.mp4");
    assert_eq!(rename_target("dir", "a_b-x.mp4", 1), "dir/a_b-x_1.mp4");
    assert_eq!(rename_target("dir/", "a.mkv", 12), "dir/a_12.mkv");
    assert_eq!(rename_summary(3), "✓ Renamed 3 files.");
    assert_eq!(dry_run_summary(0), "✓ Dry run complete. Would rename 0 files.");
}
