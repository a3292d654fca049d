//! Text helpers, held against the standard library.

use video_downloader::text;

const SAMPLES: [&str; 14] = [
    "",
    " ",
    "plain",
    "  both ends \t",
    "\u{3000}wide\u{00a0}",
    "one\ntwo\r\nthree",
    "ends with feed\n",
    "two feeds\n\n",
    "lone\rreturn",
    "return at the end\r",
    "a|b||c|",
    "ERROR:ERROR: twice",
    "héé — naïve ∆",
    "\n",
];

#[test]
fn white_space_is_that_of_unicode() {
    for n in 0..=0x10_ffffu32 {
        if let Some(c) = char::from_u32(n) {
            assert_eq!(text::white_space(c), c.is_whitespace(), "U+{n:04X}");
        }
    }
}

#[test]
fn trims_as_the_standard_library_does() {
    for s in SAMPLES {
        assert_eq!(text::trim(s), s.trim());
        assert_eq!(text::trim_start(s), s.trim_start());
        assert_eq!(text::trim_end(s), s.trim_end());
    }
    assert_eq!(text::trim("  both ends \t"), "both ends");
}

#[test]
fn trims_repeated_marks() {
    assert_eq!(text::trim_end_of("12.5%%", '%'), "12.5");
    assert_eq!(text::trim_end_of("%", '%'), "");
    assert_eq!(text::trim_end_of("12.5% ", '%'), "12.5% ");
    assert_eq!(text::trim_start_of("ERROR:ERROR: twice", "ERROR:"), " twice");
    assert_eq!(text::trim_start_of("no ERROR:", "ERROR:"), "no ERROR:");
    assert_eq!(text::trim_start_of("ERROR:", "ERROR:"), "");
}

#[test]
fn splits_into_lines_as_the_standard_library_does() {
    for s in SAMPLES {
        let expected: Vec<&str> = s.lines().collect();
        assert_eq!(text::lines(s), expected, "{s:?}");
    }
    assert_eq!(text::lines("one\ntwo\r\nthree"), ["one", "two", "three"]);
}

#[test]
fn splits_into_words_as_the_standard_library_does() {
    for s in SAMPLES {
        let expected: Vec<&str> = s.split_whitespace().collect();
        assert_eq!(text::split_whitespace(s), expected, "{s:?}");
    }
    assert_eq!(text::split_whitespace(" S 1  2\t3 "), ["S", "1", "2", "3"]);
}

#[test]
fn splits_at_a_character_as_the_standard_library_does() {
    for s in SAMPLES {
        let expected: Vec<&str> = s.split('|').collect();
        assert_eq!(text::split(s, '|'), expected, "{s:?}");
    }
    assert_eq!(text::split("a|b||c|", '|'), ["a", "b", "", "c", ""]);
}

#[test]
fn finds_texts_and_characters() {
    assert!(text::contains("a file has already been downloaded", "has already"));
    assert!(!text::contains("short", "longer than that"));
    assert!(text::contains("anything", ""));
    assert_eq!(text::find_text("—abab", "ab"), Some(1));
    assert_eq!(text::find_text("abc", "bd"), None);
    assert_eq!(text::before("path has been", " has"), "path");
    assert_eq!(text::before("path", " has"), "path");
    assert_eq!(text::find_char(&text::chars_of("a\"b\"c"), '"', 2), Some(3));
    assert_eq!(text::find_char(&text::chars_of("abc"), '"', 0), None);
    assert_eq!(text::after_last_char("1 (a) b) S 7", ')'), Some(" S 7".to_string()));
    assert_eq!(text::after_last_char("none", ')'), None);
}

#[test]
fn compares_and_strips() {
    assert!(text::same_text("naïve", "naïve"));
    assert!(!text::same_text("naïve", "naive"));
    assert!(!text::same_text("a", "ab"));
    assert!(text::starts_with("ffmpeg-x86", "ffmpeg-"));
    assert!(!text::starts_with("ff", "ffmpeg-"));
    assert_eq!(text::strip_prefix("audio:mp3", "audio:"), Some("mp3".to_string()));
    assert_eq!(text::strip_prefix("video", "audio:"), None);
    assert_eq!(text::strip_suffix("ffmpeg.exe", ".exe"), Some("ffmpeg".to_string()));
    assert_eq!(text::strip_suffix("exe", ".exe"), None);
}
