use midnite_archive::args::{
    channel_list_args, comments_for_video_args, comments_from_file_args, download_args,
    download_outcome,
};
use midnite_archive::process::RunOutcome;
use midnite_archive::types::{Channel, ChannelName, Video, VideoId};

#[test]
fn download_args_includes_newline_and_preserves_os_paths() {
    let args = download_args("/opt/deno", "/tmp/archives/foo.archive", "/tmp/out dir");
    assert!(args.iter().any(|a| a == "--newline"), "missing --newline: {args:?}");
    assert!(args.iter().any(|a| a == "deno:/opt/deno"), "lossy or missing js-runtime: {args:?}");
    assert!(args.iter().any(|a| a == "/tmp/archives/foo.archive"), "archive path: {args:?}");
    assert!(args.iter().any(|a| a == "/tmp/out dir"), "output dir: {args:?}");
    assert!(!args.iter().any(|a| a.contains('\u{FFFD}')));
}

#[test]
fn comments_from_file_args_include_comment_and_playlist_flags() {
    let args = comments_from_file_args("/tmp/channel-list.txt", "/tmp/comments");

    assert!(
        args.windows(2)
            .any(|w| w[0] == "-o" && w[1] == "%(id)s.comments.json"),
        "missing comments output template: {args:?}"
    );
    assert!(
        args.windows(2)
            .any(|w| w[0] == "-P" && w[1] == "/tmp/comments"),
        "missing -P output dir: {args:?}"
    );
    assert!(
        args.windows(2)
            .any(|w| w[0] == "-a" && w[1] == "/tmp/channel-list.txt"),
        "missing playlist -a list file: {args:?}"
    );
    for flag in ["--write-comments", "--skip-download", "--no-colors"] {
        assert!(args.iter().any(|a| a == flag), "missing {flag}: {args:?}");
    }
    assert!(
        !args.iter().any(|a| a.contains("youtube.com/watch")),
        "batch path must not take a watch URL: {args:?}"
    );
}

#[test]
fn comments_for_video_args_include_comment_flags_and_video_url() {
    let video = Video::new(
        VideoId::new("dQw4w9WgXcQ").unwrap(),
        "Never Gonna Give You Up",
        Channel::new(ChannelName::new("testchannel").unwrap()),
    );
    let args = comments_for_video_args(&video, "/tmp/comments");

    assert!(
        args.windows(2)
            .any(|w| w[0] == "-o" && w[1] == "%(id)s.comments.json"),
        "missing comments output template: {args:?}"
    );
    assert!(
        args.windows(2)
            .any(|w| w[0] == "-P" && w[1] == "/tmp/comments"),
        "missing -P output dir: {args:?}"
    );
    for flag in ["--write-comments", "--skip-download", "--no-colors"] {
        assert!(args.iter().any(|a| a == flag), "missing {flag}: {args:?}");
    }
    assert_eq!(
        args.last().map(String::as_str),
        Some("https://www.youtube.com/watch?v=dQw4w9WgXcQ"),
        "video URL must be last: {args:?}"
    );
    assert!(
        !args.iter().any(|a| a == "-a"),
        "per-video path must not use playlist -a: {args:?}"
    );
}

#[test]
fn channel_list_args_add_title_filter() {
    assert_eq!(channel_list_args(None), vec!["--flat-playlist", "--print", "%(title)s-%(id)s"]);
    assert_eq!(
        channel_list_args(Some("live")),
        vec!["--flat-playlist", "--print", "%(title)s-%(id)s", "--match-title", "live"]
    );
}

#[test]
fn run_download_cancel_returns_err() {
    assert_eq!(download_outcome(RunOutcome::Success), Ok(()));
    let err = download_outcome(RunOutcome::Cancelled).unwrap_err();
    assert!(err.contains("download cancelled"), "production mapping missing: {err}");
}
