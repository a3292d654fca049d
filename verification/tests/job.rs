//! A download from its first event to its outcome.

use video_downloader::double::Double;
use video_downloader::job::{
    append_bounded, decode_line, percent_reading, DownloadJob, Done, JobAction, JobEvent,
    STDERR_CAP,
};
use video_downloader::output::Emission;
use video_downloader::request::DownloadRequest;

fn fresh_job() -> DownloadJob {
    DownloadJob::new(&DownloadRequest {
        id: "job".to_string(),
        url: "https://example.com".to_string(),
        quality: "vbest".to_string(),
        out_dir: "/v".to_string(),
    })
}

fn stdout(bytes: &[u8]) -> JobEvent {
    let percent = match percent_reading(bytes) {
        Some(number) => number.parse::<f64>().unwrap_or(0.0),
        None => 0.0,
    };
    JobEvent::Stdout { bytes: bytes.to_vec(), percent: Double { bits: percent.to_bits() } }
}

fn stderr(bytes: &[u8]) -> JobEvent {
    JobEvent::Stderr { bytes: bytes.to_vec() }
}

fn take(job: &mut DownloadJob, event: JobEvent) -> JobAction {
    job.take_event(&event).unwrap()
}

fn outcome(action: JobAction) -> (Vec<String>, Done) {
    match action {
        JobAction::Finish { discard, done } => (discard, done),
        other => panic!("not finished: {other:?}"),
    }
}

/// The end of a text by byte slicing.
fn sliced_tail(text: &str) -> &str {
    let mut cut = text.len().saturating_sub(STDERR_CAP);
    while cut < text.len() && !text.is_char_boundary(cut) {
        cut += 1;
    }
    &text[cut..]
}

#[test]
fn a_job_that_exits_with_zero_is_done() {
    let mut job = fresh_job();
    match take(&mut job, stdout(b"[download] Destination: /v/a.mp4\r\n")) {
        JobAction::Emit(Emission::File(event)) => assert_eq!(event.path, "/v/a.mp4"),
        other => panic!("not announced: {other:?}"),
    }
    match take(&mut job, stdout(b"@@P|50.0%|a|b|c|d\n")) {
        JobAction::Emit(Emission::Progress(progress)) => {
            assert_eq!(f64::from_bits(progress.percent.bits), 50.0);
            assert_eq!(progress.id, "job");
        }
        other => panic!("no progress: {other:?}"),
    }
    assert!(matches!(take(&mut job, JobEvent::Other), JobAction::Nothing));
    assert!(matches!(take(&mut job, stderr(b"WARNING: x\n")), JobAction::Nothing));
    let end = JobEvent::Terminated { code: Some(0), was_present: true };
    let (discard, done) = outcome(take(&mut job, end));
    assert!(discard.is_empty());
    assert_eq!(done.id, "job");
    assert!(done.ok);
    assert_eq!(done.path, Some("/v/a.mp4".to_string()));
    assert_eq!(done.error, None);
    assert!(job.finished);
}

#[test]
fn a_job_that_exits_otherwise_has_failed_with_a_reason() {
    for code in [Some(1), None, Some(-9)] {
        let mut job = fresh_job();
        take(&mut job, stdout(b"[download] Destination: /v/a.mp4"));
        take(&mut job, stderr(b"ERROR: Video unavailable\n"));
        let end = JobEvent::Terminated { code, was_present: true };
        let (discard, done) = outcome(take(&mut job, end));
        assert!(discard.is_empty());
        assert!(!done.ok);
        assert_eq!(done.path, None);
        assert_eq!(done.error, Some("Video unavailable".to_string()));
    }
}

#[test]
fn a_cancelled_job_gives_up_its_files_and_is_no_failure() {
    for code in [Some(0), Some(1), None] {
        let mut job = fresh_job();
        take(&mut job, stdout(b"[download] Destination: /v/a.mp4"));
        take(&mut job, stdout(b"[download] Destination: /v/b.m4a"));
        take(&mut job, stderr(b"ERROR: killed"));
        let end = JobEvent::Terminated { code, was_present: false };
        let (discard, done) = outcome(take(&mut job, end));
        assert_eq!(discard, ["/v/a.mp4", "/v/b.m4a"]);
        assert!(!done.ok);
        assert_eq!(done.path, None);
        assert_eq!(done.error, None);
    }
}

#[test]
fn the_outcome_is_told_once() {
    let mut job = fresh_job();
    let end = JobEvent::Terminated { code: Some(0), was_present: true };
    assert!(matches!(take(&mut job, end), JobAction::Finish { .. }));
    let end = JobEvent::Terminated { code: Some(1), was_present: false };
    assert!(matches!(take(&mut job, end), JobAction::Nothing));
    let line = stdout(b"[download] Destination: /v/a.mp4");
    assert!(matches!(take(&mut job, line), JobAction::Nothing));
    assert!(job.outputs.is_empty());
}

#[test]
fn a_stream_that_closes_early_still_has_an_outcome() {
    let mut job = fresh_job();
    take(&mut job, stdout(b"[download] Destination: /v/a.mp4"));
    take(&mut job, stderr(b"ERROR: lost\n"));
    take(&mut job, JobEvent::Other);
    let (discard, done) = outcome(job.closed(true));
    assert!(discard.is_empty());
    assert!(!done.ok);
    assert_eq!(done.error, Some("lost".to_string()));
    assert!(job.finished);
    assert!(matches!(job.closed(true), JobAction::Nothing));

    let mut cancelled = fresh_job();
    take(&mut cancelled, stdout(b"[download] Destination: /v/a.mp4"));
    let (discard, done) = outcome(cancelled.closed(false));
    assert_eq!(discard, ["/v/a.mp4"]);
    assert_eq!(done.error, None);
}

#[test]
fn a_close_after_the_end_tells_nothing_more() {
    let mut job = fresh_job();
    take(&mut job, JobEvent::Terminated { code: Some(0), was_present: true });
    assert!(matches!(job.closed(false), JobAction::Nothing));
}

#[test]
fn a_destination_too_many_is_not_taken() {
    let mut job = fresh_job();
    job.tracker.destinations = u32::MAX - 1;
    let line = stdout(b"[download] Destination: /v/a.mp4");
    assert!(job.take_event(&line).is_some());
    assert_eq!(job.tracker.destinations, u32::MAX);
    let line = stdout(b"[download] Destination: /v/b.mp4");
    assert!(job.take_event(&line).is_none());
    assert_eq!(job.outputs, ["/v/a.mp4"]);
    assert!(job.take_event(&stdout(b"[Metadata] x")).is_some());
}

#[test]
fn lines_are_decoded_and_trimmed_at_the_end() {
    assert_eq!(decode_line(b"  a \r\n"), "  a");
    assert_eq!(decode_line("é—".as_bytes()), "é—");
    assert_eq!(decode_line(b"a\xffb\xe2\x80"), "a\u{fffd}b\u{fffd}");
    assert_eq!(percent_reading(b"@@P| 9.0% |a|b|c|d \n"), Some("9.0".to_string()));
    assert_eq!(percent_reading(b"\xff@@P|9.0%|a|b|c|d"), None);
}

#[test]
fn error_output_keeps_its_end() {
    let mut kept = String::new();
    append_bounded(&mut kept, "short");
    assert_eq!(kept, "short");
    append_bounded(&mut kept, "");
    assert_eq!(kept, "short");
    append_bounded(&mut kept, &"x".repeat(STDERR_CAP - 5));
    assert_eq!(kept.len(), STDERR_CAP);
    assert!(kept.starts_with("short"));
    append_bounded(&mut kept, "y");
    assert_eq!(kept.len(), STDERR_CAP);
    assert!(kept.starts_with("hort"));
    assert!(kept.ends_with("xy"));
}

#[test]
fn error_output_keeps_whole_characters() {
    let pieces = ["a", "é", "—", "𝄞"];
    for lead in 0..6 {
        for piece in pieces {
            let text = format!("{}{}", "b".repeat(lead), piece.repeat(3000));
            let mut kept = String::new();
            append_bounded(&mut kept, &text);
            assert_eq!(kept, sliced_tail(&text));
            append_bounded(&mut kept, "—é");
            let all = format!("{text}—é");
            assert_eq!(kept, sliced_tail(&all));
        }
    }
}

#[test]
fn a_failure_is_explained_by_what_was_kept() {
    let mut job = fresh_job();
    take(&mut job, stderr(b"ERROR: first\n"));
    for _ in 0..600 {
        take(&mut job, stderr(b"noise noise\n"));
    }
    take(&mut job, stderr("dernière ligne\n".as_bytes()));
    assert!(job.stderr_tail.len() <= STDERR_CAP);
    let end = JobEvent::Terminated { code: Some(1), was_present: true };
    let (_, done) = outcome(take(&mut job, end));
    assert_eq!(done.error, Some("dernière ligne".to_string()));
}
