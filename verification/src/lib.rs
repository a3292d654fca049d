//! Decisions of a small desktop video downloader: what to ask of the `yt-dlp`
//! engine, how to read what it prints, and what to do with its processes and files.

pub mod cleanup;
pub mod decimal;
pub mod double;
pub mod encoding;
pub mod engine;
pub mod failure;
pub mod history;
pub mod job;
pub mod json;
pub mod linux;
pub mod output;
pub mod paths;
pub mod probe;
pub mod process;
pub mod request;
pub mod state;
pub mod text;
pub mod windows;
