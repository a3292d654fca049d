//! What the engine is asked and what it answers.

use video_downloader::engine::{
    engine_version, fault_message, probe_args, update_args, update_engine, version_args,
    EngineFault,
};

#[test]
fn the_engine_is_asked() {
    assert_eq!(
        probe_args("https://example.com"),
        ["-J", "--no-playlist", "--no-warnings", "--no-colors", "https://example.com"]
    );
    assert_eq!(version_args(), ["--version"]);
    assert_eq!(update_args(), ["-U"]);
}

#[test]
fn answers_are_trimmed() {
    assert_eq!(engine_version(b"2025.01.15\n"), "2025.01.15");
    assert_eq!(engine_version(b"\xff\n"), "\u{fffd}");
    assert_eq!(update_engine(b" a\nb \n"), "a\nb");
}

#[test]
fn faults_are_told_with_their_detail() {
    assert_eq!(fault_message(EngineFault::Missing, "x"), "Couldn't start the download engine: x");
    assert_eq!(fault_message(EngineFault::NotStarted, "x"), "The download engine didn't start: x");
    assert_eq!(fault_message(EngineFault::NotRun, "x"), "The download engine didn't run: x");
}
