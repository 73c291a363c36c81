use midnite_archive::backend::{CommandBackend, YtdRsBackend};

#[test]
fn command_backend_default_constructs() {
    let _b = CommandBackend;
    assert_eq!(CommandBackend::default(), CommandBackend);
}

#[test]
fn backend_ytdrs_backend_default_constructs() {
    let _b = YtdRsBackend;
    assert_eq!(YtdRsBackend::default(), YtdRsBackend::new());
}

#[test]
fn mod_ytdrs_backend_default_constructs() {
    let _b = YtdRsBackend::new();
}
