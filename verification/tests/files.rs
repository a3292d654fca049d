//! Folders, bundled tools and leftover files.

use video_downloader::cleanup::{
    cleanup_partials, partials_in, remove_file_retrying, resolve_output, NextAttempt,
    OutputListing, Removal, REMOVE_ATTEMPTS,
};
use video_downloader::paths::{
    bundled_ffmpeg_dir, default_output_dir, dir_has_ffmpeg, ffmpeg_candidates, pick_folder,
    reveal_in_folder, Candidate, Listing, Reveal,
};

fn names(list: &[&str]) -> Vec<String> {
    list.iter().map(|name| name.to_string()).collect()
}

fn found(path: &str) -> Result<String, String> {
    Ok(path.to_string())
}

fn missing(why: &str) -> Result<String, String> {
    Err(why.to_string())
}

#[test]
fn downloads_default_to_videos() {
    assert_eq!(default_output_dir(found("v"), found("d"), found("h")), found("v"));
    assert_eq!(default_output_dir(missing("1"), found("d"), found("h")), found("d"));
    assert_eq!(default_output_dir(missing("1"), missing("2"), found("h")), found("h"));
    assert_eq!(
        default_output_dir(missing("1"), missing("2"), missing("unknown path")),
        missing("Couldn't resolve a default download folder: unknown path")
    );
}

#[test]
fn a_finished_download_is_revealed() {
    let parent = Some("/v".to_string());
    match reveal_in_folder("/v/a.mp4".to_string(), true, parent.clone()) {
        Ok(Reveal::Item(path)) => assert_eq!(path, "/v/a.mp4"),
        other => panic!("not the item: {other:?}"),
    }
    match reveal_in_folder("/v/a.mp4".to_string(), false, parent) {
        Ok(Reveal::Folder(path)) => assert_eq!(path, "/v"),
        other => panic!("not the folder: {other:?}"),
    }
    assert_eq!(
        reveal_in_folder("/".to_string(), false, None).unwrap_err(),
        "That file no longer exists."
    );
}

#[test]
fn the_picker_starts_where_it_was_asked_to() {
    assert_eq!(pick_folder(Some("/v".to_string())), Some("/v".to_string()));
    assert_eq!(pick_folder(Some(String::new())), None);
    assert_eq!(pick_folder(None), None);
}

#[test]
fn candidates_go_from_the_executable_outwards() {
    assert_eq!(
        ffmpeg_candidates(true),
        [
            Candidate::BesideExe,
            Candidate::BinariesBeneathExe,
            Candidate::BinariesAboveExe,
            Candidate::Binaries,
        ]
    );
    assert_eq!(ffmpeg_candidates(false), [Candidate::Binaries]);
}

#[test]
fn ffmpeg_is_known_by_its_name() {
    for name in ["ffmpeg", "ffmpeg.exe", "ffmpeg-x86_64-unknown-linux-gnu", "ffmpeg-a.exe", "ffmpeg-"] {
        assert!(dir_has_ffmpeg(&names(&["yt-dlp", name])), "{name}");
    }
    for name in ["ffprobe", "FFmpeg", "ffmpeg2", "ffmpeg.exe.exe", "my-ffmpeg", ".exe", ""] {
        assert!(!dir_has_ffmpeg(&names(&[name])), "{name}");
    }
    assert!(!dir_has_ffmpeg(&Vec::new()));
}

#[test]
fn the_first_folder_with_ffmpeg_is_taken() {
    let listing = |dir: &str, entries: Option<Vec<String>>| Listing { dir: dir.to_string(), entries };
    let listings = vec![
        listing("unreadable", None),
        listing("empty", Some(Vec::new())),
        listing("first", Some(names(&["ffmpeg.exe"]))),
        listing("second", Some(names(&["ffmpeg"]))),
    ];
    assert_eq!(bundled_ffmpeg_dir(&listings), Some("first".to_string()));
    assert_eq!(bundled_ffmpeg_dir(&vec![listing("x", None)]), None);
    assert_eq!(bundled_ffmpeg_dir(&Vec::new()), None);
}

#[test]
fn only_the_partial_files_of_an_output_are_deleted() {
    let entries = names(&[
        "other.mp4",
        "a.mp4.part",
        "a.mp4",
        "a.mp",
        "a.mp4.part-Frag12",
        "a.mp4.ytdl",
        "b a.mp4",
        "A.mp4",
    ]);
    assert_eq!(
        partials_in("a.mp4", &entries),
        ["a.mp4.part", "a.mp4", "a.mp4.part-Frag12", "a.mp4.ytdl"]
    );
    assert!(partials_in("missing", &entries).is_empty());
}

#[test]
fn every_output_is_cleaned_and_some_are_skipped() {
    let output = |name: Option<&str>, entries: Option<&[&str]>| OutputListing {
        name: name.map(str::to_string),
        entries: entries.map(names),
    };
    let doomed = cleanup_partials(&vec![
        output(None, Some(&["x"])),
        output(Some("a.mp4"), Some(&["b", "a.mp4.part"])),
        output(Some("b"), None),
        output(Some("b"), Some(&["b", "a.mp4.part", "b.ytdl"])),
    ]);
    assert_eq!(doomed, [names(&[]), names(&["a.mp4.part"]), names(&[]), names(&["b", "b.ytdl"])]);
    assert!(cleanup_partials(&Vec::new()).is_empty());
}

#[test]
fn a_relative_output_lies_in_the_download_folder() {
    assert_eq!(resolve_output("/v/a.mp4", true, "/d/v/a.mp4"), "/v/a.mp4");
    assert_eq!(resolve_output("a.mp4", false, "/d/a.mp4"), "/d/a.mp4");
}

/// Runs attempts that go as listed; says how many were made, and the pauses after them.
fn attempts(outcomes: &[Removal], may_be_locked: bool) -> (usize, Vec<u64>) {
    let mut made = 0;
    let mut pauses: Vec<u64> = Vec::new();
    loop {
        let outcome = outcomes[made];
        made += 1;
        match remove_file_retrying(made as u32 - 1, outcome, may_be_locked) {
            NextAttempt::GiveUp => return (made, pauses),
            NextAttempt::SleepThenRetry { millis } => pauses.push(millis),
            NextAttempt::SleepThenGiveUp { millis } => {
                pauses.push(millis);
                return (made, pauses);
            }
        }
    }
}

#[test]
fn a_locked_file_is_tried_ten_times_with_growing_pauses() {
    let (made, pauses) = attempts(&[Removal::Failed; 20], true);
    assert_eq!(made, REMOVE_ATTEMPTS as usize);
    assert_eq!(made, 10);
    assert_eq!(pauses, [50, 100, 150, 200, 250, 300, 350, 400, 450, 500]);
}

#[test]
fn attempts_stop_once_the_file_is_gone() {
    let mut outcomes = [Removal::Failed; 20];
    outcomes[2] = Removal::Removed;
    assert_eq!(attempts(&outcomes, true), (3, vec![50, 100]));
    outcomes[1] = Removal::NotFound;
    assert_eq!(attempts(&outcomes, true), (2, vec![50]));
    assert_eq!(attempts(&outcomes, false), (1, Vec::new()));
}

#[test]
fn a_removed_or_missing_file_is_not_tried_again() {
    assert_eq!(remove_file_retrying(0, Removal::Removed, true), NextAttempt::GiveUp);
    assert_eq!(remove_file_retrying(3, Removal::NotFound, true), NextAttempt::GiveUp);
    assert_eq!(remove_file_retrying(0, Removal::Failed, false), NextAttempt::GiveUp);
}
