use midnite_archive::events::YtDlpEvent;
use midnite_archive::process::{
    exit_error, push_tail, RunOutcome, StreamInput, StreamState, StreamStep,
};
use std::collections::VecDeque;

#[test]
fn nonzero_exit_attaches_last_20_stderr_lines() {
    let mut state = StreamState::new();
    for n in 1..=25 {
        let step = state.step(StreamInput::StderrLine(format!("line {n}")));
        assert!(matches!(step, StreamStep::Event(YtDlpEvent::Log { .. })));
    }
    assert_eq!(state.step(StreamInput::StdoutClosed), StreamStep::Continue);
    assert_eq!(state.step(StreamInput::StderrClosed), StreamStep::Drained);
    let msg = state.finish(false, Some(7)).expect_err("nonzero exit");
    assert!(msg.contains("status Some(7)"), "status missing: {msg}");
    assert!(msg.contains("line 6"), "expected first kept line: {msg}");
    assert!(msg.contains("line 25"), "expected last line: {msg}");
    assert!(!msg.contains("line 5\n"), "line 5 should have aged out: {msg}");
}

#[test]
fn success_streams_stdout_and_stderr() {
    let mut state = StreamState::new();
    let step = state.step(StreamInput::StdoutLine(
        "[download]  12.3% of 50.00MiB at 1.00MiB/s ETA 00:50".into(),
    ));
    assert!(matches!(step, StreamStep::Event(YtDlpEvent::Progress { percent: Some(ref p), .. }) if p == "12.3"));
    let step = state.step(StreamInput::StderrLine("WARNING: x".into()));
    assert!(matches!(step, StreamStep::Event(YtDlpEvent::Log { ref raw }) if raw.contains("WARNING: x")));
    assert_eq!(state.step(StreamInput::StderrClosed), StreamStep::Continue);
    assert_eq!(state.step(StreamInput::StdoutClosed), StreamStep::Drained);
    assert_eq!(state.finish(true, Some(0)), Ok(RunOutcome::Success));
}

#[test]
fn cancel_before_first_line() {
    let mut state = StreamState::new();
    assert_eq!(state.step(StreamInput::CancelRequested), StreamStep::Cancel);
}

#[test]
fn exit_error_formats_status_and_tail() {
    let mut tail = VecDeque::new();
    push_tail(&mut tail, "a".to_string());
    push_tail(&mut tail, "b".to_string());
    assert_eq!(exit_error(Some(-3), &tail), "process exited with status Some(-3)\na\nb");
    assert_eq!(exit_error(None, &VecDeque::new()), "process exited with status None\n");
}

#[test]
fn stderr_error_line_is_error_event() {
    let mut state = StreamState::new();
    let step = state.step(StreamInput::StderrLine("ERROR: boom".into()));
    assert!(matches!(step, StreamStep::Event(YtDlpEvent::Error { ref raw }) if raw == "ERROR: boom"));
    let step = state.step(StreamInput::StdoutLine("ERROR: on stdout".into()));
    assert!(matches!(step, StreamStep::Event(YtDlpEvent::Log { .. })));
    assert_eq!(state.step(StreamInput::StdoutClosed), StreamStep::Continue);
    assert_eq!(state.step(StreamInput::StderrClosed), StreamStep::Drained);
    let msg = state.finish(false, Some(2)).expect_err("nonzero");
    assert!(msg.contains("ERROR: boom"), "{msg}");
}
