//! The command line the tool accepts.
use vstd::prelude::*;

verus! {

/// Parsed command line.
#[derive(Debug, Clone, PartialEq, Eq)]
pub struct Cli {
    /// How many times `-v` was given.
    pub verbose: u8,
    pub command: Commands,
}

/// The subcommands.
#[derive(Debug, Clone, PartialEq, Eq)]
pub enum Commands {
    /// Generate the video list of a channel (name or URL), optionally filtered by title.
    Generate { channel: String, filter: Option<String> },
    /// Download the videos of a list file, or a single URL.
    Download { input: String },
    /// Download the comments of the videos of a list file.
    Comments { list_file: String },
    /// Rename video files to sanitized names.
    Rename {
        directory: String,
        recursive: bool,
        dry_run: bool,
        verbose: bool,
        extensions: Vec<String>,
    },
}

} // verus!
