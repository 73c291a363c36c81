use midnite_archive::report::{
    archive_dir_of_entry, id_noun, order_archive_rows, relative_path, render_list, render_show,
    show_target, ArchiveRow,
};
use midnite_archive::archive::{archive_files_in_read_order, union_archive_lines};

#[test]
fn render_list_names_channels_then_counts() {
    let rows = [
        ArchiveRow {
            name: "severo12".into(),
            path: "severo12/videos/.archive".into(),
            count: 120,
        },
        ArchiveRow {
            name: "downloads".into(),
            path: "downloads/.archive".into(),
            count: 1,
        },
    ];
    let mut out = String::new();
    render_list(&mut out, &rows);
    assert_eq!(
        out,
        "\
✓ 2 archives
  severo12: severo12/videos/.archive (120 ids)
  downloads: downloads/.archive (1 id)
"
    );
}

#[test]
fn render_list_empty() {
    let mut out = String::new();
    render_list(&mut out, &[]);
    assert_eq!(out, "✓ 0 archives\n");
}

#[test]
fn render_show_prints_archive_lines() {
    let lines = vec!["youtube aaa".to_string(), "youtube bbb".to_string()];
    let mut out = String::new();
    render_show(&mut out, "severo12", &lines);
    assert_eq!(
        out,
        "\
✓ 2 ids in severo12
  youtube aaa
  youtube bbb
"
    );
}

fn row(name: &str, path: &str, count: usize) -> ArchiveRow {
    ArchiveRow { name: name.into(), path: path.into(), count }
}

#[test]
fn discover_lists_channels_then_downloads() {
    // Entries of the root: severo12, beta, downloads, noise (noise has no archive directory).
    assert_eq!(archive_dir_of_entry(".", "severo12"), "./severo12/videos/.archive");
    assert_eq!(archive_dir_of_entry(".", "downloads"), "./downloads/.archive");
    assert_eq!(relative_path(".", "./severo12/videos/.archive"), "severo12/videos/.archive");
    let rows = order_archive_rows(
        vec![row("severo12", "severo12/videos/.archive", 3), row("beta", "beta/videos/.archive", 1)],
        Some(row("downloads", "downloads/.archive", 1)),
    );
    assert_eq!(rows.len(), 3);
    assert_eq!(rows[0].name, "beta");
    assert_eq!(rows[0].count, 1);
    assert_eq!(rows[0].path, "beta/videos/.archive");
    assert_eq!(rows[1].name, "severo12");
    assert_eq!(rows[1].count, 3);
    assert_eq!(rows[1].path, "severo12/videos/.archive");
    assert_eq!(rows[2].name, "downloads");
    assert_eq!(rows[2].count, 1);
    assert_eq!(rows[2].path, "downloads/.archive");
}

#[test]
fn show_missing_channel_errors() {
    let target = show_target("/tmp/root", "severo12");
    assert_eq!(target.required_dir, "/tmp/root/severo12");
    assert!(target.missing_error.contains("channel directory 'severo12' not found"));
    assert_eq!(target.archive_dir, "/tmp/root/severo12/videos/.archive");
}

#[test]
fn show_missing_downloads_errors() {
    let target = show_target("/tmp/root", "downloads");
    assert_eq!(target.required_dir, "/tmp/root/downloads");
    assert!(target.missing_error.contains("downloads directory not found"));
    assert_eq!(target.archive_dir, "/tmp/root/downloads/.archive");
}

#[test]
fn relative_path_edge_cases() {
    assert_eq!(relative_path("/a", "/a"), "");
    assert_eq!(relative_path("/a/", "/a/b"), "b");
    assert_eq!(relative_path("/a", "/ab"), "/ab");
    assert_eq!(relative_path("/a", "/x/y"), "/x/y");
    assert_eq!(id_noun(1), "id");
    assert_eq!(id_noun(0), "ids");
}

#[test]
fn show_unions_legacy_archives_without_writing() {
    let target = show_target("/tmp/root", "severo12");
    assert_eq!(target.archive_dir, "/tmp/root/severo12/videos/.archive");
    let order = archive_files_in_read_order(vec!["old.archive".to_string()]);
    assert_eq!(order, vec!["old.archive".to_string()]);
    let lines = union_archive_lines(&["youtube aaa\n".to_string()]);
    assert_eq!(lines, vec!["youtube aaa".to_string()]);
}

#[test]
fn rows_of_one_name_keep_their_order() {
    let rows = order_archive_rows(
        vec![row("b", "first", 1), row("a", "x", 2), row("b", "second", 3), row("b", "third", 4)],
        None,
    );
    let got: Vec<(&str, &str)> = rows.iter().map(|r| (r.name.as_str(), r.path.as_str())).collect();
    assert_eq!(got, vec![("a", "x"), ("b", "first"), ("b", "second"), ("b", "third")]);
}
