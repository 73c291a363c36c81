use midnite_archive::types::{Channel, ChannelName, ListFile, Video, VideoId, ValidationError};

#[test]
fn test_video_id_valid() {
    let id = VideoId::new("dQw4w9WgXcQ").unwrap();
    assert_eq!(id.to_string(), "dQw4w9WgXcQ");
}

#[test]
fn test_video_id_invalid() {
    assert!(VideoId::new("too-short").is_err());
    assert!(VideoId::new("way-too-long-for-youtube").is_err());
    assert!(VideoId::new("invalid-chars!!!").is_err());
}

#[test]
fn test_channel_name_valid() {
    let name = ChannelName::new("test-channel_123").unwrap();
    assert_eq!(name.to_string(), "test-channel_123");
}

#[test]
fn test_channel_name_invalid() {
    assert!(ChannelName::new("invalid@chars").is_err());
    assert!(ChannelName::new("no spaces").is_err());
}

#[test]
fn test_channel_name_parse() {
    let from_url = ChannelName::parse("https://youtube.com/@testchannel").unwrap();
    assert_eq!(from_url.to_string(), "testchannel");

    let from_at = ChannelName::parse("@testchannel").unwrap();
    assert_eq!(from_at.to_string(), "testchannel");

    let plain = ChannelName::parse("testchannel").unwrap();
    assert_eq!(plain.to_string(), "testchannel");
}

#[test]
fn test_video_from_title_id() {
    // YouTube video IDs are exactly 11 characters
    let video = Video::from_title_id_string("My Video Title-abc123xyz78").unwrap();
    assert_eq!(video.title, "My Video Title");
    assert_eq!(video.id.to_string(), "abc123xyz78");
}

#[test]
fn test_video_url() {
    let id = VideoId::new("dQw4w9WgXcQ").unwrap();
    let video = Video::new(id, "Test", Channel::default());
    assert_eq!(video.url(), "https://www.youtube.com/watch?v=dQw4w9WgXcQ");
}

#[test]
fn test_channel_directories() {
    let channel = Channel::new(ChannelName::new("testchannel").unwrap());
    assert_eq!(channel.lists_dir(), "testchannel/lists");
    assert_eq!(channel.videos_dir(), "testchannel/videos");
    assert_eq!(channel.comments_dir(), "testchannel/comments");
}

#[test]
fn video_id_error_carries_the_text() {
    assert_eq!(
        VideoId::new("abc").unwrap_err(),
        ValidationError::InvalidVideoId("abc".to_string())
    );
    assert!(VideoId::new("aaaaaaaaaa_").is_ok());
    assert!(VideoId::new("aaaaaaaaaé_").is_err());
}

#[test]
fn channel_name_parse_takes_first_handle_up_to_slash() {
    let name = ChannelName::parse("https://www.youtube.com/@severo12/videos").unwrap();
    assert_eq!(name.to_string(), "severo12");
    assert_eq!(
        ChannelName::parse("https://www.youtube.com/channel/UCabc").unwrap().to_string(),
        "UCabc"
    );
    assert_eq!(
        ChannelName::parse("@").unwrap_err(),
        ValidationError::InvalidChannelName(String::new())
    );
}

#[test]
fn channel_url_and_base_dir() {
    let channel = Channel::new(ChannelName::new("severo12").unwrap());
    assert_eq!(channel.url(), "https://www.youtube.com/@severo12");
    assert_eq!(channel.base_dir(), "severo12");
    assert_eq!(Channel::default().lists_dir(), "lists");
}

#[test]
fn video_filename_sanitizes_title() {
    let id = VideoId::new("dQw4w9WgXcQ").unwrap();
    let video = Video::new(id, "a/b:c?", Channel::default());
    assert_eq!(video.filename(), "a_b_c_-dQw4w9WgXcQ");
    assert_eq!(video.to_title_id_string(), "a/b:c?-dQw4w9WgXcQ");
}

#[test]
fn title_id_string_strips_every_trailing_dash() {
    let video = Video::from_title_id_string("Live--dQw4w9WgXcQ").unwrap();
    assert_eq!(video.title, "Live");
    assert!(Video::from_title_id_string("short").is_none());
    assert!(Video::from_title_id_string("bad-dQw4w9WgXc!").is_none());
}

#[test]
fn list_file_channel_comes_before_list_marker() {
    let lf = ListFile::from_path("foo-bar/lists/foo-bar-list-url-20260403023745.txt", true).unwrap();
    assert_eq!(lf.channel.name.to_string(), "foo-bar");
    assert_eq!(lf.path, "foo-bar/lists/foo-bar-list-url-20260403023745.txt");
    assert_eq!(
        ListFile::from_path("x.txt", false).unwrap_err(),
        ValidationError::MissingListFile("x.txt".to_string())
    );
    assert_eq!(ListFile::from_path("/", true).unwrap_err(), ValidationError::NoFileName);
    assert_eq!(
        ListFile::from_path("notes.txt", true).unwrap_err(),
        ValidationError::InvalidChannelName("notes.txt".to_string())
    );
}

#[test]
fn extract_channel_name_falls_back_to_unknown() {
    assert_eq!(midnite_archive::types::extract_channel_name("/a/severo12-list-url-1.txt"), "severo12");
    assert_eq!(midnite_archive::types::extract_channel_name(".."), "unknown");
}

#[test]
fn parse_videos_reads_urls_and_title_ids() {
    let lf = ListFile::from_path("severo12-list-url-1.txt", true).unwrap();
    let text = "https://www.youtube.com/watch?v=dQw4w9WgXcQ\n\n  https://youtu.be/abcdefghijk  \nSome Title-xxxxxxxxxxx\n";
    let videos = lf.read_videos(text);
    let got: Vec<(String, String)> = videos
        .iter()
        .map(|v| (v.title.clone(), v.id.to_string()))
        .collect();
    assert_eq!(
        got,
        vec![
            ("".to_string(), "dQw4w9WgXcQ".to_string()),
            ("".to_string(), "abcdefghijk".to_string()),
            ("Some Title".to_string(), "xxxxxxxxxxx".to_string()),
        ]
    );
    assert!(videos.iter().all(|v| v.channel.name.to_string() == "severo12"));
}

#[test]
fn validation_errors_have_messages() {
    assert_eq!(
        ChannelName::new("bad name").unwrap_err().message(),
        "Invalid channel name 'bad name': must contain only alphanumeric characters, underscores, or hyphens"
    );
    assert_eq!(
        VideoId::new("short").unwrap_err().message(),
        "Invalid YouTube video ID: short. Must be 11 alphanumeric characters."
    );
    assert_eq!(
        ValidationError::MissingListFile("x.txt".to_string()).message(),
        "List file does not exist: \"x.txt\""
    );
    assert_eq!(ValidationError::NoFileName.message(), "Failed to extract filename from path");
}

#[test]
fn channel_forms_name_the_same_channel() {
    for name in ["severo12", "foo-bar", "A_1"] {
        let channel = Channel::new(ChannelName::new(name).unwrap());
        for input in [
            name.to_string(),
            format!("@{name}"),
            channel.url(),
            format!("https://www.youtube.com/channel/{name}"),
        ] {
            assert_eq!(ChannelName::parse(&input).unwrap().as_str(), name);
        }
    }
}

#[test]
fn title_id_string_reads_back() {
    let channel = Channel::new(ChannelName::new("c").unwrap());
    for (title, expected) in [("My Video", "My Video"), ("", ""), ("Ends-", "Ends")] {
        let video = Video::new(VideoId::new("dQw4w9WgXcQ").unwrap(), title, channel.clone());
        let back = Video::from_title_id_string(&video.to_title_id_string()).unwrap();
        assert_eq!(back.title, expected);
        assert_eq!(back.id.as_str(), "dQw4w9WgXcQ");
    }
}

#[test]
fn list_file_with_one_url_line_names_one_video() {
    let lf = ListFile::from_path("severo12-list-url-1.txt", true).unwrap();
    let videos = lf.read_videos("https://www.youtube.com/watch?v=dQw4w9WgXcQ\n");
    assert_eq!(videos.len(), 1);
    assert_eq!(videos[0].id.to_string(), "dQw4w9WgXcQ");
    assert_eq!(videos[0].channel, lf.channel);
    // A line of exactly eleven id characters reads as an untitled video.
    let videos = lf.read_videos("dQw4w9WgXcQ\n");
    assert_eq!(videos.len(), 1);
    assert_eq!(videos[0].title, "");
}

#[test]
fn channel_id_url_names_the_id() {
    let r = ChannelName::parse("https://www.youtube.com/channel/UCabc123");
    assert_eq!(r.unwrap().to_string(), "UCabc123");
    let r = ChannelName::parse("https://www.youtube.com/channel/UCabc123/videos");
    assert_eq!(r.unwrap().to_string(), "UCabc123");
    assert!(ChannelName::parse("https://www.youtube.com/channel/").is_err());
}

#[test]
fn missing_list_file_message_escapes_like_debug() {
    for path in ["x.txt", "a\"b\\c.txt", "tab\there\n", "bell\u{7}\u{7f}\u{9b}", "é ü 'q'"] {
        assert_eq!(
            ValidationError::MissingListFile(path.to_string()).message(),
            format!("List file does not exist: {:?}", std::path::Path::new(path))
        );
    }
}
