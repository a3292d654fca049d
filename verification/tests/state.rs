//! The table of running jobs.

use video_downloader::job::{DownloadJob, JobAction, JobEvent};
use video_downloader::request::DownloadRequest;
use video_downloader::state::{AppState, Cancellation, JobTable};

fn end(state: &mut AppState<u32, isize>, id: &str, code: Option<i32>) -> JobAction {
    let mut job = DownloadJob::new(&DownloadRequest {
        id: id.to_string(),
        url: String::new(),
        quality: String::new(),
        out_dir: String::new(),
    });
    let (was_present, _) = state.terminated(id);
    job.take_event(&JobEvent::Terminated { code, was_present }).unwrap()
}

#[test]
fn a_table_keeps_one_value_for_each_job() {
    let mut table: JobTable<u32> = JobTable::new();
    assert_eq!(table.get("a"), None);
    table.insert("a".to_string(), 1);
    table.insert("b".to_string(), 2);
    table.insert("a".to_string(), 3);
    assert_eq!(table.get("a"), Some(&3));
    assert_eq!(table.get("b"), Some(&2));
    assert_eq!(table.remove("a"), Some(3));
    assert_eq!(table.remove("a"), None);
    assert_eq!(table.get("a"), None);
    assert_eq!(table.get("b"), Some(&2));
}

#[test]
fn a_cancelled_job_ends_as_cancelled() {
    let mut state: AppState<u32, isize> = AppState::new();
    state.register("a".to_string(), 11);
    state.register_group("a".to_string(), 7);
    state.register("b".to_string(), 12);
    match state.cancel_download("a") {
        Cancellation::Kill { child, job } => assert_eq!((child, job), (11, Some(7))),
        _ => panic!("not killed"),
    }
    assert_eq!(state.running("a"), None);
    assert_eq!(state.running("b"), Some(&12));
    match end(&mut state, "a", Some(0)) {
        JobAction::Finish { done, .. } => {
            assert!(!done.ok);
            assert_eq!(done.error, None);
        }
        other => panic!("not finished: {other:?}"),
    }
}

#[test]
fn a_registered_job_ends_as_done_or_failed() {
    let mut state: AppState<u32, isize> = AppState::new();
    state.register("a".to_string(), 11);
    state.register("b".to_string(), 12);
    match end(&mut state, "a", Some(0)) {
        JobAction::Finish { done, .. } => assert!(done.ok),
        other => panic!("not finished: {other:?}"),
    }
    match end(&mut state, "b", Some(2)) {
        JobAction::Finish { done, .. } => assert!(!done.ok && done.error.is_some()),
        other => panic!("not finished: {other:?}"),
    }
    assert_eq!(state.running("b"), None);
}

#[test]
fn cancelling_twice_is_cancelling_once() {
    let mut state: AppState<u32, isize> = AppState::new();
    state.register("a".to_string(), 11);
    assert!(matches!(state.cancel_download("a"), Cancellation::Kill { child: 11, job: None }));
    assert!(matches!(state.cancel_download("a"), Cancellation::Nothing));
    assert!(matches!(state.cancel_download("never"), Cancellation::Nothing));
}

#[test]
fn a_group_left_behind_is_closed() {
    let mut state: AppState<u32, isize> = AppState::new();
    state.register_group("a".to_string(), 7);
    assert!(matches!(state.cancel_download("a"), Cancellation::Close { left: 7 }));
    state.register("b".to_string(), 12);
    state.register_group("b".to_string(), 8);
    assert_eq!(state.terminated("b"), (true, Some(8)));
    assert_eq!(state.terminated("b"), (false, None));
}
