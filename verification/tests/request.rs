//! Requests and the arguments that they become.

use video_downloader::job::start_download;
use video_downloader::request::{build_args, video_selector, DownloadRequest};

fn request(quality: &str) -> DownloadRequest {
    DownloadRequest {
        id: "job-1".to_string(),
        url: "https://example.com/watch?v=1".to_string(),
        quality: quality.to_string(),
        out_dir: "/home/me/Videos".to_string(),
    }
}

#[test]
fn selects_the_best_quality() {
    assert_eq!(video_selector("vbest"), "bv*+ba/b");
    assert_eq!(video_selector("v"), "bv*+ba/b");
    assert_eq!(video_selector("vabc"), "bv*+ba/b");
    assert_eq!(video_selector("1080"), "bv*+ba/b");
    assert_eq!(video_selector(""), "bv*+ba/b");
    assert_eq!(video_selector("v4294967296"), "bv*+ba/b");
}

#[test]
fn selects_a_height_with_fallbacks() {
    assert_eq!(video_selector("v1080"), "bv*[height<=1080]+ba/b[height<=1080]/b");
    assert_eq!(video_selector("v+720"), "bv*[height<=720]+ba/b[height<=720]/b");
    assert_eq!(video_selector("v0360"), "bv*[height<=360]+ba/b[height<=360]/b");
}

#[test]
fn builds_the_arguments_of_a_video() {
    let args = build_args(&request("v720"), Some("/opt/bin".to_string()));
    assert_eq!(
        args,
        [
            "--no-playlist",
            "--no-colors",
            "--newline",
            "--no-warnings",
            "--ignore-config",
            "--continue",
            "-N",
            "4",
            "--retries",
            "5",
            "--fragment-retries",
            "10",
            "--progress-template",
            "download:@@P|%(progress._percent_str)s|%(progress._speed_str)s|%(progress._eta_str)s|%(progress._total_bytes_str)s|%(progress._total_bytes_estimate_str)s",
            "-P",
            "/home/me/Videos",
            "-o",
            "%(title).180B [%(id)s].%(ext)s",
            "--ffmpeg-location",
            "/opt/bin",
            "-f",
            "bv*[height<=720]+ba/b[height<=720]/b",
            "--merge-output-format",
            "mp4",
            "--embed-metadata",
            "https://example.com/watch?v=1",
        ]
    );
}

#[test]
fn builds_the_arguments_of_audio() {
    let args = build_args(&request("audio:mp3"), None);
    assert_eq!(
        args[16..],
        [
            "-o",
            "%(title).180B [%(id)s].%(ext)s",
            "-f",
            "ba/b",
            "-x",
            "--audio-format",
            "mp3",
            "--audio-quality",
            "0",
            "--embed-thumbnail",
            "--embed-metadata",
            "https://example.com/watch?v=1",
        ]
    );
}

#[test]
fn every_download_resumes_what_is_there() {
    for quality in ["vbest", "v1080", "audio:opus", ""] {
        let args = build_args(&request(quality), None);
        assert!(args.contains(&"--continue".to_string()));
        assert_eq!(args.last().map(String::as_str), Some("https://example.com/watch?v=1"));
    }
}

#[test]
fn starting_again_asks_the_same() {
    let (first, job) = start_download(&request("vbest"), None);
    let again = DownloadRequest { id: "job-2".to_string(), ..request("vbest") };
    let (second, _) = start_download(&again, None);
    assert_eq!(first, second);
    assert_eq!(job.id, "job-1");
    assert!(job.outputs.is_empty());
    assert!(!job.finished);
}
