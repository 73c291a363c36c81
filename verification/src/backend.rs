//! The yt-dlp backends the command line can run downloads through.
use vstd::prelude::*;

verus! {

/// Backend that runs yt-dlp through the `ytd-rs` wrapper and a streaming runner.
#[derive(Debug, Default, Clone, Copy, PartialEq, Eq)]
pub struct YtdRsBackend;

impl YtdRsBackend {
    pub fn new() -> (r: YtdRsBackend)
        ensures
            r == YtdRsBackend,
    {
        YtdRsBackend
    }
}

/// Backend that runs yt-dlp as a plain child process and waits for it.
#[derive(Debug, Default, Clone, Copy, PartialEq, Eq)]
pub struct CommandBackend;

} // verus!
