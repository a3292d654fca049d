//! Failure messages.

use video_downloader::failure::{
    download_error_line, failure_message, friendly_error, friendly_probe_error, probe_error_line,
};

const DOWNLOAD_HINT: &str =
    "\n\nThe site may have changed — try \"Update engine\" and download again.";
const PROBE_HINT: &str = "\n\nThe site may have changed — try \"Update engine\" and probe again.";

#[test]
fn the_last_error_line_wins() {
    let stderr = "ERROR: one\nERROR: two\nWARNING: after\n";
    assert_eq!(friendly_error(stderr), "two");
    assert_eq!(download_error_line("a\nb\r\n"), "b");
    assert_eq!(download_error_line(""), "");
}

#[test]
fn without_an_error_line_the_last_line_is_shown() {
    assert_eq!(friendly_error("first\n  last  \n"), "last");
    // A download's lines are searched for capitals only.
    assert_eq!(friendly_error("some error\nlast"), "last");
    assert_eq!(friendly_probe_error(b"some error\nlast"), "some error");
}

#[test]
fn the_mark_is_taken_away() {
    assert_eq!(friendly_error("  ERROR:ERROR:  [x] y: gone "), "[x] y: gone");
    assert_eq!(friendly_error("prefix ERROR: kept"), "prefix ERROR: kept");
}

#[test]
fn an_outdated_engine_is_hinted_at() {
    assert_eq!(
        friendly_error("ERROR: Unsupported URL: x"),
        format!("Unsupported URL: x{DOWNLOAD_HINT}")
    );
    assert_eq!(
        friendly_error("ERROR: UNABLE TO EXTRACT title"),
        format!("UNABLE TO EXTRACT title{DOWNLOAD_HINT}")
    );
    assert_eq!(
        friendly_probe_error(b"ERROR: Unsupported URL: x\n"),
        format!("Unsupported URL: x{PROBE_HINT}")
    );
}

#[test]
fn an_empty_reason_has_a_fallback() {
    let download = "The download failed. Check the post is public, then try again.";
    let probe = "Couldn't read that link. Check the post is public, then try again.";
    assert_eq!(friendly_error(""), download);
    assert_eq!(friendly_error("ERROR:\n"), download);
    assert_eq!(friendly_error("x\n\n"), download);
    assert_eq!(friendly_probe_error(b""), probe);
    assert_eq!(friendly_probe_error(b"ERROR:  "), probe);
}

#[test]
fn a_probe_finds_errors_in_any_case() {
    assert_eq!(friendly_probe_error(b"Http Error 404\nbye"), "Http Error 404");
    assert_eq!(friendly_probe_error(b"bad \xff byte error\nbye"), "bad \u{fffd} byte error");
    let list = vec!["A".to_string(), "B".to_string()];
    let lowered = vec!["an error".to_string(), "b".to_string()];
    assert_eq!(probe_error_line(&list, &lowered), "A");
}

#[test]
fn a_message_is_put_together() {
    assert_eq!(failure_message("Line", "line", "!", "none"), "Line");
    assert_eq!(failure_message("Line", "unable to extract", "!", "none"), "Line!");
    assert_eq!(failure_message("", "", "!", "none"), "none");
}
