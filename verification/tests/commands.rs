use midnite_archive::commands::{
    classify_download_input, doctor_check_lines, doctor_failed, download_statistics,
    generate_summary, list_file_paths, log_level, session_summary, url_file_body, DownloadInput,
    Severity,
};
use midnite_archive::types::{Channel, ListFile, Video, VideoId};
use midnite_archive::yt_dlp::{check_probe, ProbeOutcome, ToolProbe};

#[test]
fn download_input_kinds() {
    assert_eq!(classify_download_input("https://youtu.be/x", false), Ok(DownloadInput::Url));
    assert_eq!(classify_download_input("http://x", true), Ok(DownloadInput::Url));
    assert_eq!(classify_download_input("list.txt", true), Ok(DownloadInput::ListFile));
    assert_eq!(
        classify_download_input("nope", false),
        Err("Input 'nope' is neither a valid URL nor an existing file.".to_string())
    );
}

#[test]
fn statistics_and_session_lines() {
    assert_eq!(
        download_statistics(233, 10),
        vec![
            "📊 Download Statistics:",
            "   Total videos: 233",
            "   Already downloaded: 10",
            "   Remaining to download: 223",
            "",
        ]
    );
    assert_eq!(download_statistics(2, 2).len(), 4);
    assert_eq!(
        session_summary(233, 10, 15),
        vec!["✓ Downloaded 5 new video(s) this session", "   Progress: 15/233 videos complete"]
    );
    assert!(session_summary(233, 10, 10).is_empty());
}

#[test]
fn generate_paths_and_summary() {
    let (t, u) = list_file_paths("severo12/lists", "severo12", false, "20260403023745");
    assert_eq!(t, "severo12/lists/severo12-list-title-20260403023745.txt");
    assert_eq!(u, "severo12/lists/severo12-list-url-20260403023745.txt");
    let (t, _) = list_file_paths("n/lists", "n", true, "1");
    assert_eq!(t, "n/lists/n-list-title-filtered-1.txt");
    assert_eq!(
        generate_summary(Some("midnite"), 233, "t.txt", "u.txt"),
        vec!["✓ Filter 'midnite' applied - 233 videos", "  Title: t.txt", "  URLs: u.txt"]
    );
    assert_eq!(generate_summary(None, 412, "t", "u")[0], "✓ 412 videos");
    let v = Video::new(VideoId::new("dQw4w9WgXcQ").unwrap(), "x", Channel::default());
    assert_eq!(
        url_file_body(&[v.clone(), v]),
        "https://www.youtube.com/watch?v=dQw4w9WgXcQ\nhttps://www.youtube.com/watch?v=dQw4w9WgXcQ\n"
    );
}

#[test]
fn print_check_formats_ok_probe() {
    let probe = ToolProbe {
        name: "yt-dlp".into(),
        ok: true,
        version: Some("2026.01.01".into()),
        path: Some("/usr/bin/yt-dlp".into()),
        error: None,
    };
    assert_eq!(
        doctor_check_lines(&probe, Severity::Required, "unused"),
        vec!["  yt-dlp   ok    2026.01.01  (/usr/bin/yt-dlp)"]
    );
    let failing = ToolProbe::from_outcome("deno", ProbeOutcome::NotOnPath);
    assert_eq!(
        doctor_check_lines(&failing, Severity::RequiredForDownload, "Install deno"),
        vec!["  deno     FAIL  -  (-)  (needed for download)", "           Install deno"]
    );
    assert!(doctor_failed(&[probe.clone(), failing.clone()]));
    assert!(!doctor_failed(&[probe]));
}

#[test]
fn probes_and_availability() {
    let p = ToolProbe::from_outcome(
        "ffmpeg",
        ProbeOutcome::Exited {
            path: "/usr/bin/ffmpeg".into(),
            success: true,
            code: Some(0),
            stdout: String::new(),
            stderr: "ffmpeg version 6.1.1 Copyright\n".into(),
        },
    );
    assert!(p.ok);
    assert_eq!(p.version.as_deref(), Some("6.1.1"));
    assert_eq!(check_probe(&p), Ok(()));
    let q = ToolProbe::from_outcome(
        "yt-dlp",
        ProbeOutcome::Exited {
            path: "/x".into(),
            success: false,
            code: Some(2),
            stdout: String::new(),
            stderr: "  \n".into(),
        },
    );
    assert_eq!(q.error.as_deref(), Some("yt-dlp exited with status Some(2)"));
    assert_eq!(
        check_probe(&q),
        Err("yt-dlp not found. Please install it first. (yt-dlp exited with status Some(2))".into())
    );
    let r = ToolProbe::from_outcome("yt-dlp", ProbeOutcome::NotOnPath);
    assert_eq!(r.error.as_deref(), Some("yt-dlp not found on PATH"));
}

#[test]
fn log_levels() {
    assert_eq!(log_level(0), "off");
    assert_eq!(log_level(1), "info");
    assert_eq!(log_level(2), "debug");
    assert_eq!(log_level(9), "trace");
}

#[test]
fn generated_list_files_name_their_channel() {
    for channel in ["severo12", "foo-bar", "a_b-c"] {
        for filtered in [false, true] {
            let (title, url) = list_file_paths(&format!("{channel}/lists"), channel, filtered, "20260403023745");
            for path in [title, url] {
                let c = ListFile::extract_channel_from_path(&path).unwrap();
                assert_eq!(c.name.as_str(), channel);
            }
        }
    }
    // A channel whose name holds `-list` reads back cut at that marker.
    let (title, _) = list_file_paths("lists", "a-listener", false, "1");
    assert_eq!(ListFile::extract_channel_from_path(&title).unwrap().name.as_str(), "a");
}

#[test]
fn url_list_reads_back_every_video() {
    let channel = Channel::new(midnite_archive::types::ChannelName::new("severo12").unwrap());
    let videos = vec![
        Video::new(VideoId::new("dQw4w9WgXcQ").unwrap(), "A", channel.clone()),
        Video::new(VideoId::new("abcdefghijk").unwrap(), "B", channel.clone()),
    ];
    let body = url_file_body(&videos);
    let list = ListFile::from_path("severo12/lists/severo12-list-url-1.txt", true).unwrap();
    assert_eq!(body.lines().count(), videos.len());
    let read = list.read_videos(&body);
    let ids: Vec<&str> = read.iter().map(|v| v.id.as_str()).collect();
    assert_eq!(ids, vec!["dQw4w9WgXcQ", "abcdefghijk"]);
    assert!(read.iter().all(|v| v.title.is_empty()));
    assert!(read.iter().all(|v| v.channel.name.as_str() == "severo12"));
}
