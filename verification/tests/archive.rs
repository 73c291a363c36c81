use midnite_archive::archive::{
    archive_files_in_read_order, archive_line_id, archive_needs_write, canonical_archive_body,
    channel_archive_path, count_ids_in_archive, list_archive_path, materialize_write,
    union_archive_lines, url_archive_path,
};

fn strings(v: &[&str]) -> Vec<String> {
    v.iter().map(|s| s.to_string()).collect()
}

#[test]
fn list_archive_path_strips_to_stem() {
    let path = list_archive_path("/out", "foo.bar.txt");
    assert_eq!(path, "/out/.archive/foo.archive");
}

#[test]
fn list_archive_path_single_extension() {
    let path = list_archive_path("/out", "channel-list.txt");
    assert_eq!(path, "/out/.archive/channel-list.archive");
}

#[test]
fn url_archive_path_is_downloads_archive() {
    let path = url_archive_path("/out");
    assert_eq!(path, "/out/.archive/downloads.archive");
}

#[test]
fn channel_archive_path_is_videos_archive() {
    let path = channel_archive_path("/out");
    assert_eq!(path, "/out/.archive/videos.archive");
}

#[test]
fn archive_line_id_is_last_field() {
    assert_eq!(archive_line_id("youtube dQw4w9WgXcQ"), "dQw4w9WgXcQ");
    assert_eq!(archive_line_id("dQw4w9WgXcQ"), "dQw4w9WgXcQ");
}

#[test]
fn count_ids_ignores_archive_ids_outside_the_list() {
    let lines = vec![
        "youtube aaaaaaaaaaa".to_string(),
        "youtube bbbbbbbbbbb".to_string(),
        "youtube ccccccccccc".to_string(),
        "youtube ddddddddddd".to_string(),
        "youtube eeeeeeeeeee".to_string(),
    ];
    let list = ["aaaaaaaaaaa", "bbbbbbbbbbb", "fffffffffff"];
    assert_eq!(count_ids_in_archive(&list, &lines), 2);
}

#[test]
fn read_archive_lines_prefers_videos_archive_and_dedupes() {
    // Directory holds c.archive, a.archive, videos.archive and notes.txt.
    let order = archive_files_in_read_order(strings(&[
        "c.archive",
        "a.archive",
        "videos.archive",
        "notes.txt",
    ]));
    assert_eq!(order, strings(&["videos.archive", "a.archive", "c.archive"]));
    let body = |name: &str| match name {
        "c.archive" => "youtube ccc\nyoutube aaa\n",
        "a.archive" => "youtube aaa\nyoutube bbb\n",
        "videos.archive" => "youtube bbb\n",
        _ => unreachable!(),
    };
    let bodies: Vec<String> = order.iter().map(|n| body(n).to_string()).collect();
    let lines = union_archive_lines(&bodies);
    assert_eq!(
        lines,
        vec![
            "youtube bbb".to_string(),
            "youtube aaa".to_string(),
            "youtube ccc".to_string(),
        ]
    );
}

#[test]
fn read_archive_lines_missing_dir_is_empty() {
    assert!(archive_files_in_read_order(Vec::new()).is_empty());
    assert!(union_archive_lines(&[]).is_empty());
}

#[test]
fn materialize_folds_legacy_files_without_deleting_them() {
    let order = archive_files_in_read_order(strings(&["b.archive", "a.archive"]));
    assert_eq!(order, strings(&["a.archive", "b.archive"]));
    let union = union_archive_lines(&strings(&["youtube aaa\n", "youtube bbb\nyoutube aaa\n"]));
    assert_eq!(
        materialize_write(&union, None),
        Some("youtube aaa\nyoutube bbb\n".to_string())
    );
}

#[test]
fn materialize_folds_a_missing_legacy_line_after_existing_ids() {
    let order = archive_files_in_read_order(strings(&["videos.archive", "old.archive"]));
    assert_eq!(order, strings(&["videos.archive", "old.archive"]));
    let union = union_archive_lines(&strings(&["youtube bbb\n", "youtube aaa\n"]));
    assert_eq!(
        materialize_write(&union, Some("youtube bbb\n")),
        Some("youtube bbb\nyoutube aaa\n".to_string())
    );
}

#[test]
fn materialize_skips_rewrite_when_union_already_present() {
    let union = union_archive_lines(&strings(&["youtube bbb\nyoutube aaa\n", "youtube aaa\n"]));
    assert_eq!(materialize_write(&union, Some("youtube bbb\nyoutube aaa\n")), None);
}

#[test]
fn materialize_rewrites_when_missing_trailing_newline() {
    let union = union_archive_lines(&strings(&["youtube aaa"]));
    assert_eq!(
        materialize_write(&union, Some("youtube aaa")),
        Some("youtube aaa\n".to_string())
    );
}

#[test]
fn materialize_empty_does_not_create_archive_file() {
    let union = union_archive_lines(&[]);
    assert_eq!(materialize_write(&union, None), None);
}

#[test]
fn canonical_body_joins_lines() {
    assert_eq!(canonical_archive_body(&strings(&["a", "b"])), "a\nb\n");
    assert_eq!(canonical_archive_body(&[]), "\n");
    assert!(!archive_needs_write("a\nb\n", &strings(&["a", "b"])));
    assert!(archive_needs_write("a\n", &strings(&["a", "b"])));
    assert!(archive_needs_write("  a \r\n\n b", &strings(&["a", "b"])));
    assert!(!archive_needs_write("  a \r\n\n b\n", &strings(&["a", "b"])));
}

#[test]
fn list_archive_path_edge_cases() {
    assert_eq!(list_archive_path("out", "/"), "out/.archive/archive.archive");
    assert_eq!(list_archive_path("out/", "dir/.hidden.txt"), "out/.archive/.hidden.archive");
    assert_eq!(list_archive_path("", "x"), ".archive/x.archive");
}

#[test]
fn archive_line_id_of_blank_line_is_the_line() {
    assert_eq!(archive_line_id("   "), "   ");
    assert_eq!(archive_line_id(" youtube  abc \t"), "abc");
}

#[test]
fn materializing_again_writes_nothing() {
    let canonical = "youtube bbb\n";
    let legacy = "youtube aaa\n \nyoutube bbb\r\nyoutube ccc";
    let union = union_archive_lines(&strings(&[canonical, legacy]));
    let written = materialize_write(&union, Some(canonical)).unwrap();
    assert_eq!(written, "youtube bbb\nyoutube aaa\nyoutube ccc\n");
    let again = union_archive_lines(&strings(&[written.as_str(), legacy]));
    assert_eq!(again, union);
    assert_eq!(materialize_write(&again, Some(written.as_str())), None);
}
