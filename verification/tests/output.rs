//! Reading the engine's output line by line.

use video_downloader::double::Double;
use video_downloader::output::{
    between_quotes, handle_stdout_line, percent_text, reading_or_zero, Emission, ProgressTracker,
};

struct Reader {
    tracker: ProgressTracker,
    final_path: Option<String>,
    outputs: Vec<String>,
}

impl Reader {
    fn new() -> Reader {
        Reader { tracker: ProgressTracker::default(), final_path: None, outputs: Vec::new() }
    }

    fn read(&mut self, line: &str) -> Option<Emission> {
        let number = percent_text(line).and_then(|number| number.parse::<f64>().ok());
        let percent = reading_or_zero(number.map(|n| Double { bits: n.to_bits() }));
        handle_stdout_line(
            "job",
            line,
            percent,
            &mut self.tracker,
            &mut self.final_path,
            &mut self.outputs,
        )
    }

    fn percent(&mut self, line: &str) -> f64 {
        match self.read(line) {
            Some(Emission::Progress(progress)) => f64::from_bits(progress.percent.bits),
            other => panic!("no progress: {other:?}"),
        }
    }
}

fn announced(emission: Option<Emission>) -> Option<(String, String)> {
    match emission {
        Some(Emission::File(event)) => Some((event.id, event.path)),
        Some(Emission::Progress(progress)) => panic!("no path: {progress:?}"),
        None => None,
    }
}

#[test]
fn reads_a_progress_line() {
    let mut reader = Reader::new();
    match reader.read("@@P| 12.5%| 1.20MiB/s |00:10| 10.00MiB|N/A") {
        Some(Emission::Progress(progress)) => {
            assert_eq!(progress.id, "job");
            assert_eq!(f64::from_bits(progress.percent.bits), 12.5);
            assert_eq!(progress.speed, "1.20MiB/s");
            assert_eq!(progress.eta, "00:10");
            assert_eq!(progress.size, "10.00MiB");
            assert_eq!(progress.stage, "Downloading");
        }
        other => panic!("no progress: {other:?}"),
    }
}

#[test]
fn falls_back_to_the_estimated_size() {
    let mut reader = Reader::new();
    match reader.read("@@P|1.0%|a|b| N/A | ~ 3.00MiB |more") {
        Some(Emission::Progress(progress)) => assert_eq!(progress.size, "~ 3.00MiB"),
        other => panic!("no progress: {other:?}"),
    }
}

#[test]
fn ignores_a_progress_line_with_missing_fields() {
    let mut reader = Reader::new();
    assert!(reader.read("@@P|50.0%|a|b|c").is_none());
    assert_eq!(percent_text("@@P|50.0%|a|b|c"), None);
    assert_eq!(reader.percent("@@P|1.0%|a|b|c|d"), 1.0);
}

#[test]
fn takes_the_number_before_the_percent_sign() {
    assert_eq!(percent_text("@@P| 12.5% |a|b|c|d"), Some("12.5".to_string()));
    assert_eq!(percent_text("@@P|N/A|a|b|c|d"), Some("N/A".to_string()));
    assert_eq!(percent_text("@@P||a|b|c|d"), Some(String::new()));
    assert_eq!(percent_text("[download] 12.5%"), None);
}

#[test]
fn percent_never_falls_within_a_stage() {
    let mut reader = Reader::new();
    assert_eq!(reader.percent("@@P|40.0%|a|b|c|d"), 40.0);
    assert_eq!(reader.percent("@@P|30.0%|a|b|c|d"), 40.0);
    assert_eq!(reader.percent("@@P|junk|a|b|c|d"), 40.0);
    assert_eq!(reader.percent("@@P|nan|a|b|c|d"), 40.0);
    assert_eq!(reader.percent("@@P|41.0%|a|b|c|d"), 41.0);
}

#[test]
fn percent_starts_again_with_the_next_stage() {
    let mut reader = Reader::new();
    reader.read("[download] Destination: /v/a.f137.mp4");
    assert_eq!(reader.tracker.stage, "Downloading");
    assert_eq!(reader.percent("@@P|100.0%|a|b|c|d"), 100.0);
    reader.read("[download] Destination: /v/a.f140.m4a");
    assert_eq!(reader.tracker.stage, "Downloading audio");
    assert_eq!(reader.tracker.destinations, 2);
    assert_eq!(reader.percent("@@P|2.0%|a|b|c|d"), 2.0);
    reader.read("[Merger] Merging formats into \"/v/a.mp4\"");
    assert_eq!(reader.tracker.stage, "Merging");
    assert_eq!(reader.tracker.last_percent, Double::zero());
    reader.read("[EmbedThumbnail] x");
    assert_eq!(reader.tracker.stage, "Finishing");
    reader.read("[ExtractAudio] Destination: /v/a.mp3");
    assert_eq!(reader.tracker.stage, "Converting");
    reader.read("[Metadata] x");
    assert_eq!(reader.tracker.stage, "Finishing");
    assert_eq!(reader.outputs, ["/v/a.f137.mp4", "/v/a.f140.m4a", "/v/a.mp4", "/v/a.mp3"]);
    assert_eq!(reader.final_path, Some("/v/a.mp3".to_string()));
}

#[test]
fn announces_a_path_the_first_time_only() {
    let mut reader = Reader::new();
    let line = "[download] Destination:  /v/a.mp4 ";
    assert_eq!(
        announced(reader.read(line)),
        Some(("job".to_string(), "/v/a.mp4".to_string()))
    );
    assert_eq!(
        announced(reader.read("[download] Destination: /v/b.mp4")),
        Some(("job".to_string(), "/v/b.mp4".to_string()))
    );
    assert_eq!(announced(reader.read(line)), None);
    assert_eq!(reader.outputs, ["/v/a.mp4", "/v/b.mp4"]);
    assert_eq!(reader.final_path, Some("/v/a.mp4".to_string()));
}

#[test]
fn records_a_file_that_is_already_there() {
    let mut reader = Reader::new();
    assert_eq!(
        announced(reader.read("[download] /v/a b.mp4 has already been downloaded")),
        Some(("job".to_string(), "/v/a b.mp4".to_string()))
    );
    assert!(reader.tracker.stage.is_empty());
    assert_eq!(announced(reader.read("x has already been downloaded")), None);
    assert_eq!(reader.outputs, ["/v/a b.mp4"]);
    // The mark wins over a later prefix.
    reader.read("[Merger] \"/v/c.mp4\" has already been downloaded");
    assert_eq!(reader.final_path, Some("/v/a b.mp4".to_string()));
}

#[test]
fn a_merge_without_a_quoted_path_only_changes_the_stage() {
    let mut reader = Reader::new();
    assert_eq!(announced(reader.read("[Merger] Merging \"half")), None);
    assert_eq!(reader.tracker.stage, "Merging");
    assert_eq!(reader.final_path, None);
}

#[test]
fn other_lines_change_nothing() {
    let mut reader = Reader::new();
    reader.read("@@P|7.0%|a|b|c|d");
    assert_eq!(announced(reader.read("[info] something")), None);
    assert_eq!(announced(reader.read("")), None);
    assert!(reader.tracker.stage.is_empty());
    assert!(reader.outputs.is_empty());
    assert_eq!(reader.percent("@@P|1.0%|a|b|c|d"), 7.0);
}

#[test]
fn finds_what_stands_between_quotes() {
    assert_eq!(between_quotes("a \"b c\" \"d\""), Some("b c".to_string()));
    assert_eq!(between_quotes("\"\""), Some(String::new()));
    assert_eq!(between_quotes("\"é—\"x"), Some("é—".to_string()));
    assert_eq!(between_quotes("one \" only"), None);
    assert_eq!(between_quotes("none"), None);
}

#[test]
fn reported_fields_are_read_back() {
    let fields = ["3.5", "fast", "soon", "big", "bigger", "extra"];
    let line = format!("@@P|{}", fields.join("|"));
    let mut reader = Reader::new();
    match reader.read(&line) {
        Some(Emission::Progress(progress)) => {
            assert_eq!(f64::from_bits(progress.percent.bits), 3.5);
            assert_eq!(progress.speed, "fast");
            assert_eq!(progress.eta, "soon");
            assert_eq!(progress.size, "big");
        }
        other => panic!("no progress: {other:?}"),
    }
}

#[test]
fn an_unreadable_percent_is_zero() {
    assert_eq!(reading_or_zero(None), Double::zero());
    let half = Double { bits: 0.5f64.to_bits() };
    assert_eq!(reading_or_zero(Some(half)), half);
}

#[test]
fn the_final_path_is_missing_while_no_path_is_listed() {
    let mut reader = Reader::new();
    let lines = [
        "@@P|1.0%|a|b|c|d",
        "[Merger] nothing quoted",
        "[download] Destination: /v/a.mp4",
        "[Metadata] x",
        "[Merger] \"/v/b.mp4\"",
        "[download] Destination: /v/a.mp4",
    ];
    for line in lines {
        let before = reader.outputs.len();
        let emission = reader.read(line);
        assert_eq!(reader.final_path.is_none(), reader.outputs.is_empty());
        let added = matches!(emission, Some(Emission::File(_)));
        assert_eq!(reader.outputs.len(), before + usize::from(added));
        if let Some(path) = &reader.final_path {
            assert!(reader.outputs.contains(path));
        }
    }
    assert_eq!(reader.outputs, ["/v/a.mp4", "/v/b.mp4"]);
}
