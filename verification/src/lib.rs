//! Verified core of the midnite archive tool.
pub mod text;
pub mod sort;
pub mod path;
pub mod types;
pub mod yt_dlp;
pub mod archive;
pub mod events;
pub mod process;
pub mod args;
pub mod report;
pub mod rename;
pub mod commands;
pub mod backend;
pub mod cli;
