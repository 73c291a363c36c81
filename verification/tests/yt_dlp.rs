use midnite_archive::types::{parse_video_from_url, Channel, ChannelName, Video, VideoId};
use midnite_archive::yt_dlp::{extract_version_line, parse_channel_list_output};

fn test_channel() -> Channel {
    Channel::new(ChannelName::new("testchannel").unwrap())
}

#[test]
fn extract_version_line_plain() {
    assert_eq!(
        extract_version_line("2026.01.01\n"),
        Some("2026.01.01".into())
    );
}

#[test]
fn extract_version_line_deno() {
    assert_eq!(
        extract_version_line("deno 2.1.4 (stable, release, x86_64-unknown-linux-gnu)\n"),
        Some("2.1.4".into())
    );
}

#[test]
fn extract_version_line_ffmpeg() {
    assert_eq!(
        extract_version_line("ffmpeg version 6.1.1 Copyright (c) 2000-2023\n"),
        Some("6.1.1".into())
    );
}

#[test]
fn parse_channel_list_normal_hyphenated_titles() {
    let channel = test_channel();
    let stdout = "\
My Cool Video-dQw4w9WgXcQ
Foo-Bar-Baz-abcdefghijk
Simple Title-xxxxxxxxxxx
";
    let videos = parse_channel_list_output(stdout, &channel);
    assert_eq!(videos.len(), 3);
    assert_eq!(videos[0].title, "My Cool Video");
    assert_eq!(videos[0].id.to_string(), "dQw4w9WgXcQ");
    assert_eq!(videos[1].title, "Foo-Bar-Baz");
    assert_eq!(videos[1].id.to_string(), "abcdefghijk");
    assert_eq!(videos[2].title, "Simple Title");
    assert_eq!(videos[2].id.to_string(), "xxxxxxxxxxx");
    assert_eq!(videos[0].channel, channel);
}

#[test]
fn parse_channel_list_short_lines_are_skipped() {
    let channel = test_channel();
    // Fewer than 12 chars total (need title + hyphen + 11-char ID).
    let stdout = "\
short
a-bcdefghij
title-only
ok-dQw4w9WgXcQ
";
    let videos = parse_channel_list_output(stdout, &channel);
    assert_eq!(videos.len(), 1);
    assert_eq!(videos[0].title, "ok");
    assert_eq!(videos[0].id.to_string(), "dQw4w9WgXcQ");
}

#[test]
fn parse_channel_list_invalid_video_ids_are_skipped() {
    let channel = test_channel();
    // 11 trailing chars but not a valid YouTube ID (invalid characters).
    let stdout = "\
Bad Chars-!!!!!!!!!!!
Spaces ID-aaaa bbbbb
Good One-dQw4w9WgXcQ
";
    let videos = parse_channel_list_output(stdout, &channel);
    assert_eq!(videos.len(), 1);
    assert_eq!(videos[0].title, "Good One");
    assert_eq!(videos[0].id.to_string(), "dQw4w9WgXcQ");
}

#[test]
fn parse_channel_list_empty_input() {
    let channel = test_channel();
    assert!(parse_channel_list_output("", &channel).is_empty());
    assert!(parse_channel_list_output("\n\n\n", &channel).is_empty());
}

#[test]
fn parse_channel_list_whitespace_lines() {
    let channel = test_channel();
    let stdout = "\
   \t  
  Spaced Title-dQw4w9WgXcQ  
\tAnother-abcdefghijk\t
   \n
";
    let videos = parse_channel_list_output(stdout, &channel);
    assert_eq!(videos.len(), 2);
    assert_eq!(videos[0].title, "Spaced Title");
    assert_eq!(videos[0].id.to_string(), "dQw4w9WgXcQ");
    assert_eq!(videos[1].title, "Another");
    assert_eq!(videos[1].id.to_string(), "abcdefghijk");
}

#[test]
fn parse_channel_list_keeps_only_one_dash_and_crlf_lines() {
    let channel = test_channel();
    let videos = parse_channel_list_output("Live--dQw4w9WgXcQ\r\nÉté-abcdefghijk", &channel);
    assert_eq!(videos.len(), 2);
    assert_eq!(videos[0].title, "Live-");
    assert_eq!(videos[1].title, "Été");
}

#[test]
fn extract_version_line_edge_cases() {
    assert_eq!(extract_version_line(""), None);
    assert_eq!(extract_version_line("\n  \n yt-dlp 2026.01.01,\n"), Some("2026.01.01".into()));
    assert_eq!(extract_version_line("tool  \n"), Some("tool".into()));
}

#[test]
fn title_id_line_reads_back_as_the_video() {
    let channel = test_channel();
    for (title, id) in [("Live @ Club - 2005", "dQw4w9WgXcQ"), ("", "a-b_c-d_e-f"), ("Dash-", "xxxxxxxxxxx")] {
        let video = Video::new(VideoId::new(id).unwrap(), title, channel.clone());
        let line = format!("{}\n", video.to_title_id_string());
        let parsed = parse_channel_list_output(&line, &channel);
        assert_eq!(parsed.len(), 1);
        assert_eq!(parsed[0].id.as_str(), id);
        assert_eq!(parsed[0].title, title);
    }
}

#[test]
fn watch_url_names_its_video() {
    let channel = test_channel();
    let video = Video::new(VideoId::new("dQw4w9WgXcQ").unwrap(), "t", channel.clone());
    let parsed = parse_video_from_url(&video.url(), &channel).unwrap();
    assert_eq!(parsed.id.as_str(), "dQw4w9WgXcQ");
    assert_eq!(parsed.title, "");
}

#[test]
fn version_comes_from_the_first_non_blank_line_only() {
    for text in ["  \n\t\r\n", "", "\n\n"] {
        assert_eq!(extract_version_line(text), None);
    }
    for text in ["\n  deno 2.1.4 (stable)\r", "yt-dlp 2026.01.01", "ffmpeg version 6.1 x\n"] {
        let v = extract_version_line(text);
        assert!(v.is_some());
        for more in ["", "other 9.9", "\n\nffmpeg version 1"] {
            assert_eq!(extract_version_line(&format!("{}\n{}", text, more)), v);
        }
    }
}
