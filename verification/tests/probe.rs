//! Previews from JSON dumps.

use serde_json::Value;
use video_downloader::double::Double;
use video_downloader::json::{get_either_text, get_number, get_text};
use video_downloader::probe::{
    derive_qualities, height_table, media_info, parse_media_info, probe_url, quality_options,
    read_format, read_formats, video_format, FormatFields, MediaFields, QualityOption, VideoFormat,
};
use video_downloader::request::video_selector;

fn json(text: &str) -> Value {
    serde_json::from_str(text).unwrap()
}

fn number(value: f64) -> Double {
    Double { bits: value.to_bits() }
}

fn format(height: u32, size: Option<f64>, ext: &str) -> VideoFormat {
    VideoFormat { height, filesize: size.map(number), ext: ext.to_string() }
}

fn shown(options: &[QualityOption]) -> Vec<(&str, &str, u32, &str)> {
    options
        .iter()
        .map(|q| (q.id.as_str(), q.label.as_str(), q.height, q.note.as_str()))
        .collect()
}

const DUMP: &str = r#"{
    "title": "A é title",
    "channel": "Someone",
    "thumbnail": "https://example.com/t.jpg",
    "duration": 63,
    "extractor_key": "Youtube",
    "extractor": "youtube",
    "is_live": true,
    "formats": [
        {"vcodec": "none", "height": 2160, "ext": "m4a", "filesize": 10},
        {"height": 360, "ext": "3gp", "filesize": 1000},
        {"vcodec": "avc1", "height": 1080, "ext": "webm", "filesize": 130023424},
        {"vcodec": "avc1", "height": 1080, "ext": "mp4", "filesize": 100},
        {"vcodec": "avc1", "height": 720, "filesize": null, "filesize_approx": 1536.5},
        {"vcodec": "avc1", "height": 720, "ext": "webm", "filesize": 1537},
        {"vcodec": "avc1", "height": 480, "ext": "flv"},
        {"vcodec": "avc1", "height": -1, "ext": "bad"},
        {"vcodec": "avc1", "height": "240", "ext": "bad"},
        {"vcodec": "avc1", "ext": "bad"},
        "junk"
    ]
}"#;

#[test]
fn a_dump_becomes_a_preview() {
    let info = parse_media_info(&json(DUMP));
    assert_eq!(info.title, "A é title");
    assert_eq!(info.uploader, "Someone");
    assert_eq!(info.thumbnail, "https://example.com/t.jpg");
    assert_eq!(info.duration, number(63.0));
    assert_eq!(info.extractor, "Youtube");
    assert!(info.is_live);
    assert_eq!(
        shown(&info.qualities),
        [
            ("vbest", "Best available", u32::MAX, ""),
            ("v1080", "1080p", 1080, "webm · ~124 MB"),
            ("v720", "720p", 720, "webm · ~1.5 KB"),
            ("v480", "480p", 480, "flv"),
            ("v360", "360p", 360, "3gp · ~1000 B"),
        ]
    );
}

#[test]
fn a_bare_dump_has_defaults() {
    for text in ["{}", "null", "[]", "3", r#"{"title": 3, "uploader": null, "channel": "c"}"#] {
        let info = parse_media_info(&json(text));
        assert_eq!(info.title, "Untitled");
        // A key that holds no text is not missing.
        assert_eq!(info.uploader, "");
        assert_eq!(info.thumbnail, "");
        assert_eq!(info.duration, Double::zero());
        assert_eq!(info.extractor, "");
        assert!(!info.is_live);
        assert_eq!(info.qualities.len(), 5);
    }
}

#[test]
fn without_heights_a_ladder_is_offered() {
    for text in [r#"{"formats": []}"#, r#"{"formats": {}}"#, r#"{"formats": [{"ext": "mp4"}]}"#] {
        assert_eq!(
            shown(&derive_qualities(&json(text))),
            [
                ("vbest", "Best available", u32::MAX, ""),
                ("v1080", "1080p", 1080, ""),
                ("v720", "720p", 720, ""),
                ("v480", "480p", 480, ""),
                ("v360", "360p", 360, ""),
            ]
        );
    }
}

#[test]
fn a_format_is_read() {
    let read = read_format(&json(r#"{"height": 720, "filesize_approx": 5.5}"#)).unwrap();
    assert_eq!((read.height, read.filesize, read.ext.as_str()), (720, Some(number(5.5)), "mp4"));
    let read = read_format(&json(r#"{"height": 720, "filesize": 1, "filesize_approx": 2}"#));
    assert_eq!(read.unwrap().filesize, Some(number(1.0)));
    let read = read_format(&json(r#"{"height": 4294967297, "vcodec": 5}"#)).unwrap();
    assert_eq!(read.height, 1);
    assert!(read_format(&json(r#"{"height": 720, "vcodec": "none"}"#)).is_none());
    assert!(read_format(&json(r#"{"height": 7.5}"#)).is_none());
    assert!(read_format(&json("[720]")).is_none());
    assert_eq!(read_formats(&json(DUMP)).len(), 6);
}

#[test]
fn heights_descend_and_keep_the_largest_size() {
    let formats = vec![
        format(480, None, "a"),
        format(1080, Some(5.0), "b"),
        format(480, Some(0.0), "c"),
        format(720, Some(7.0), "d"),
        format(480, Some(3.0), "e"),
        format(1080, Some(4.0), "f"),
        format(480, Some(3.0), "g"),
        format(2160, None, "h"),
    ];
    let table = height_table(&formats);
    let rows: Vec<(u32, Option<Double>, &str)> =
        table.iter().map(|row| (row.height, row.filesize, row.ext.as_str())).collect();
    assert_eq!(
        rows,
        [
            (2160, None, "h"),
            (1080, Some(number(5.0)), "b"),
            (720, Some(number(7.0)), "d"),
            (480, Some(number(3.0)), "e"),
        ]
    );
}

#[test]
fn every_option_selects_what_it_shows() {
    let table = vec![format(4320, None, "mp4"), format(0, Some(1.0), "mp4")];
    let options = quality_options(&table);
    assert_eq!(video_selector(&options[0].id), "bv*+ba/b");
    assert_eq!(video_selector(&options[1].id), "bv*[height<=4320]+ba/b[height<=4320]/b");
    assert_eq!(video_selector(&options[2].id), "bv*[height<=0]+ba/b[height<=0]/b");
    assert_eq!(options[2].note, "mp4 · ~1 B");
    assert_ne!(options[1].id, options[2].id);
}

#[test]
fn a_probe_succeeds_on_json() {
    let info = probe_url(true, DUMP.as_bytes(), b"ignored").unwrap();
    assert_eq!(info.title, "A é title");
    assert_eq!(info.qualities.len(), 5);
}

#[test]
fn a_probe_fails_on_anything_else() {
    let unreadable = "Couldn't read that link. Check the post is public, then try again.";
    for bytes in [&b""[..], b"{", b"{} {}", b"\xff", b"not json"] {
        assert_eq!(probe_url(true, bytes, b"ERROR: x").unwrap_err(), unreadable);
    }
}

#[test]
fn a_failed_probe_says_why() {
    assert_eq!(probe_url(false, b"{}", b"ERROR: Private video\n").unwrap_err(), "Private video");
}

#[test]
fn values_are_read_by_key() {
    let value = json(r#"{"a": "x", "n": 18446744073709551615, "m": -2.5, "b": true}"#);
    assert_eq!(get_text(&value, "a"), Some("x".to_string()));
    assert_eq!(get_text(&value, "n"), None);
    assert_eq!(get_text(&value, "z"), None);
    assert_eq!(get_either_text(&value, "z", "a"), Some("x".to_string()));
    assert_eq!(get_either_text(&value, "b", "a"), None);
    assert_eq!(get_number(&value, "n"), Some(number(18446744073709551615.0)));
    assert_eq!(get_number(&value, "m"), Some(number(-2.5)));
    assert_eq!(get_number(&value, "a"), None);
}

#[test]
fn fields_describe_a_format() {
    let fields = |vcodec: Option<&str>, height: Option<u64>| FormatFields {
        vcodec: vcodec.map(str::to_string),
        height,
        filesize: None,
        filesize_approx: Some(number(9.0)),
        ext: None,
    };
    let made = video_format(fields(None, Some(720))).unwrap();
    assert_eq!((made.height, made.filesize, made.ext.as_str()), (720, Some(number(9.0)), "mp4"));
    assert!(video_format(fields(Some("vp9"), Some(720))).is_some());
    assert!(video_format(fields(Some("none"), Some(720))).is_none());
    assert!(video_format(fields(Some("vp9"), None)).is_none());
    assert_eq!(video_format(fields(None, Some(u64::MAX))).unwrap().height, u32::MAX);
}

#[test]
fn missing_fields_have_defaults() {
    let info = media_info(MediaFields {
        title: None,
        uploader: Some("me".to_string()),
        thumbnail: None,
        duration: None,
        extractor: None,
        is_live: Some(false),
        formats: vec![format(144, None, "webm")],
    });
    assert_eq!(info.title, "Untitled");
    assert_eq!(info.uploader, "me");
    assert_eq!(info.duration, Double::zero());
    assert!(!info.is_live);
    assert_eq!(
        shown(&info.qualities),
        [("vbest", "Best available", u32::MAX, ""), ("v144", "144p", 144, "webm")]
    );
}
