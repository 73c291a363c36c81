use midnite_archive::events::{classify_yt_dlp_line, YtDlpEvent};

fn percent_of(event: &YtDlpEvent) -> Option<f32> {
    match event {
        YtDlpEvent::Progress { percent, .. } => percent.as_ref().map(|p| p.parse().unwrap()),
        YtDlpEvent::Error { .. } | YtDlpEvent::Log { .. } => None,
    }
}

#[test]
fn download_percent_is_progress() {
    let line = "[download]  12.3% of 50.00MiB at 1.00MiB/s ETA 00:50";
    let event = classify_yt_dlp_line(line);
    assert!(matches!(&event, YtDlpEvent::Progress { raw, .. } if raw == line));
    let percent = percent_of(&event).expect("percent");
    assert!((percent - 12.3).abs() < 1e-4, "percent={percent}");
}

#[test]
fn download_destination_is_log() {
    let line = "[download] Destination: foo.mp4";
    assert_eq!(
        classify_yt_dlp_line(line),
        YtDlpEvent::Log {
            raw: line.to_string()
        }
    );
}

#[test]
fn archive_skip_is_log() {
    let line = "[download] foo has already been recorded in the archive";
    assert_eq!(
        classify_yt_dlp_line(line),
        YtDlpEvent::Log {
            raw: line.to_string()
        }
    );
}

#[test]
fn merger_is_log() {
    let line = "[Merger] Merging formats into \"foo.mp4\"";
    assert_eq!(
        classify_yt_dlp_line(line),
        YtDlpEvent::Log {
            raw: line.to_string()
        }
    );
}

#[test]
fn percent_needs_a_number_before_the_sign() {
    let e = classify_yt_dlp_line("[download] %");
    assert_eq!(e, YtDlpEvent::Progress { raw: "[download] %".into(), percent: None });
    let e = classify_yt_dlp_line("[download] 1.2.3% x");
    assert_eq!(percent_of(&e), None);
    let e = classify_yt_dlp_line("[download] 100% of 3MiB, 50%");
    assert_eq!(percent_of(&e), Some(100.0));
}
