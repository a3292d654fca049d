//! Reading what the engine prints on its standard output, line by line.

use vstd::prelude::*;

use crate::double::Double;
use crate::text;

verus! {

/// Progress tick, emitted several times a second while a job runs.
#[derive(Debug)]
pub struct Progress {
    pub id: String,
    pub percent: Double,
    pub speed: String,
    pub eta: String,
    pub size: String,
    pub stage: String,
}

/// Emitted the first time a job writes to a given path, so that an interrupted download's
/// partial files can be cleaned up later, or simply resumed in place.
#[derive(Debug)]
pub struct FileEvent {
    pub id: String,
    pub path: String,
}

/// What one line of output makes the job announce.
#[derive(Debug)]
pub enum Emission {
    Progress(Progress),
    File(FileEvent),
}

/// The model of an `Emission`.
pub enum EmissionView {
    Progress {
        id: Seq<char>,
        percent: Double,
        speed: Seq<char>,
        eta: Seq<char>,
        size: Seq<char>,
        stage: Seq<char>,
    },
    File { id: Seq<char>, path: Seq<char> },
}

impl View for Emission {
    type V = EmissionView;

    open spec fn view(&self) -> EmissionView {
        match self {
            Emission::Progress(p) => EmissionView::Progress {
                id: p.id@,
                percent: p.percent,
                speed: p.speed@,
                eta: p.eta@,
                size: p.size@,
                stage: p.stage@,
            },
            Emission::File(f) => EmissionView::File { id: f.id@, path: f.path@ },
        }
    }
}

/// The model of an optional emission.
pub open spec fn emitted(emission: Option<Emission>) -> Option<EmissionView> {
    match emission {
        Some(e) => Some(e@),
        None => None,
    }
}

/// Tracks progress across a job's stages, such as the video stream and the audio stream, so the
/// fill never jumps backwards within one.
#[derive(Debug)]
pub struct ProgressTracker {
    /// How many destination lines were seen. 1 = video, 2 = audio.
    pub destinations: u32,
    pub stage: String,
    pub last_percent: Double,
}

/// The model of a `ProgressTracker`.
#[verifier::ext_equal]
pub struct TrackerView {
    pub destinations: int,
    pub stage: Seq<char>,
    pub last_percent: Double,
}

impl View for ProgressTracker {
    type V = TrackerView;

    open spec fn view(&self) -> TrackerView {
        TrackerView {
            destinations: self.destinations as int,
            stage: self.stage@,
            last_percent: self.last_percent,
        }
    }
}

impl TrackerView {
    /// Before the first line: no stage, nothing done.
    pub open spec fn initial() -> TrackerView {
        TrackerView { destinations: 0, stage: seq![], last_percent: Double { bits: 0 } }
    }

    /// The percentage reached is a number.
    pub open spec fn well_formed(self) -> bool {
        !self.last_percent.is_nan()
    }

    /// After a reading: the percentage rises to it and never falls.
    pub open spec fn after_reading(self, percent: Double) -> TrackerView {
        if percent.at_least(self.last_percent) {
            TrackerView { last_percent: percent, ..self }
        } else {
            self
        }
    }

    /// At the start of a stage: the percentage counts from zero again.
    pub open spec fn in_stage(self, stage: Seq<char>) -> TrackerView {
        TrackerView { stage, last_percent: Double { bits: 0 }, ..self }
    }

    /// After a destination line: the first stream is the video, a second one the audio track.
    pub open spec fn after_destination(self) -> TrackerView {
        let counted = TrackerView { destinations: self.destinations + 1, ..self };
        if counted.destinations >= 2 {
            counted.in_stage("Downloading audio"@)
        } else {
            counted.in_stage("Downloading"@)
        }
    }

    /// The name of the stage to show.
    pub open spec fn shown_stage(self) -> Seq<char> {
        if self.stage.len() == 0 {
            "Downloading"@
        } else {
            self.stage
        }
    }
}

impl ProgressTracker {
    /// A tracker for a job that has printed nothing yet.
    pub fn new() -> (tracker: ProgressTracker)
        ensures
            tracker@ == TrackerView::initial(),
            tracker@.well_formed(),
    {
        ProgressTracker { destinations: 0, stage: String::new(), last_percent: Double::zero() }
    }

    /// Clamps percent to be monotonic within the current stage.
    pub fn monotonic(&mut self, percent: Double) -> (shown: Double)
        ensures
            final(self)@ == old(self)@.after_reading(percent),
            shown == final(self)@.last_percent,
            old(self)@.well_formed() ==> final(self)@.well_formed(),
    {
        if percent.ge(self.last_percent) {
            self.last_percent = percent;
        }
        self.last_percent
    }

    /// Resets the percentage floor when a new stage begins.
    pub fn enter_stage(&mut self, stage: &str)
        ensures
            final(self)@ == old(self)@.in_stage(stage@),
            final(self)@.well_formed(),
    {
        self.stage = stage.to_owned();
        self.last_percent = Double::zero();
    }
}

impl Default for ProgressTracker {
    fn default() -> (tracker: ProgressTracker)
        ensures
            tracker@ == TrackerView::initial(),
    {
        ProgressTracker::new()
    }
}

/// What a job has learned from its output so far.
#[verifier::ext_equal]
pub struct OutputView {
    pub tracker: TrackerView,
    /// The path written to last.
    pub final_path: Option<Seq<char>>,
    /// Every path written to, in the order of first mention.
    pub outputs: Seq<Seq<char>>,
}

impl OutputView {
    /// Before the first line.
    pub open spec fn initial() -> OutputView {
        OutputView { tracker: TrackerView::initial(), final_path: None, outputs: seq![] }
    }

    /// The percentage is a number, no path is listed twice, and the final path is listed; it is
    /// missing exactly while no path is listed.
    pub open spec fn well_formed(self) -> bool {
        &&& self.tracker.well_formed()
        &&& self.outputs.no_duplicates()
        &&& self.final_path is None <==> self.outputs.len() == 0
        &&& self.final_path is Some ==> self.outputs.contains(self.final_path->0)
    }

    /// After a path was mentioned: it is the final path, and listed if it was not.
    pub open spec fn after_path(self, path: Seq<char>) -> OutputView {
        OutputView {
            final_path: Some(path),
            outputs: if self.outputs.contains(path) {
                self.outputs
            } else {
                self.outputs.push(path)
            },
            ..self
        }
    }

    /// What is announced when a path is mentioned: the path, the first time.
    pub open spec fn path_event(self, id: Seq<char>, path: Seq<char>) -> Option<EmissionView> {
        if self.outputs.contains(path) {
            None
        } else {
            Some(EmissionView::File { id, path })
        }
    }

    /// After a line that mentions a path, the tracker being what it is after the line.
    pub open spec fn with_path(self, tracker: TrackerView, id: Seq<char>, path: Seq<char>) -> (
        OutputView,
        Option<EmissionView>,
    ) {
        (OutputView { tracker, ..self.after_path(path) }, self.path_event(id, path))
    }
}

/// The fields of a progress line: percent, speed, eta, total bytes, estimated total bytes.
/// Nothing for any other line, or where fields are missing.
pub open spec fn progress_fields(line: Seq<char>) -> Option<Seq<Seq<char>>> {
    if text::begins_with(line, "@@P|"@) {
        let fields = text::split_parts(line.subrange("@@P|"@.len() as int, line.len() as int), '|');
        if fields.len() < 5 {
            None
        } else {
            Some(fields)
        }
    } else {
        None
    }
}

/// The number in a percent field: what stands before the percent sign.
pub open spec fn percent_part(field: Seq<char>) -> Seq<char> {
    text::trimmed_end_of(text::trimmed(field), '%')
}

/// The size to show: the exact total, or the estimate when the total is unknown.
pub open spec fn size_part(fields: Seq<Seq<char>>) -> Seq<char> {
    if text::trimmed(fields[3]) != "N/A"@ {
        text::trimmed(fields[3])
    } else {
        text::trimmed(fields[4])
    }
}

/// What stands between the first pair of double quotes.
pub open spec fn quoted_part(line: Seq<char>) -> Option<Seq<char>> {
    match text::first_char(line, '"', 0) {
        Some(open) => match text::first_char(line, '"', open + 1) {
            Some(close) => Some(line.subrange(open + 1, close)),
            None => None,
        },
        None => None,
    }
}

/// What follows a prefix, without white space around it.
pub open spec fn path_after(line: Seq<char>, prefix: Seq<char>) -> Seq<char> {
    text::trimmed(line.subrange(prefix.len() as int, line.len() as int))
}

/// What one line of output does: the new state, and what is announced. `percent` is the number
/// in the line's percent field; other lines do not depend on it.
pub open spec fn line_step(
    state: OutputView,
    id: Seq<char>,
    line: Seq<char>,
    percent: Double,
) -> (OutputView, Option<EmissionView>) {
    if text::begins_with(line, "@@P|"@) {
        match progress_fields(line) {
            Some(fields) => {
                let tracker = state.tracker.after_reading(percent);
                (
                    OutputView { tracker, ..state },
                    Some(
                        EmissionView::Progress {
                            id,
                            percent: tracker.last_percent,
                            speed: text::trimmed(fields[1]),
                            eta: text::trimmed(fields[2]),
                            size: size_part(fields),
                            stage: tracker.shown_stage(),
                        },
                    ),
                )
            },
            None => (state, None),
        }
    } else if text::begins_with(line, "[download] Destination: "@) {
        state.with_path(
            state.tracker.after_destination(),
            id,
            path_after(line, "[download] Destination: "@),
        )
    } else if text::has_text(line, "has already been downloaded"@) {
        if text::begins_with(line, "[download] "@) {
            let rest = line.subrange("[download] "@.len() as int, line.len() as int);
            state.with_path(
                state.tracker,
                id,
                text::trimmed(text::before_text(rest, " has already been downloaded"@)),
            )
        } else {
            (state, None)
        }
    } else if text::begins_with(line, "[Merger]"@) {
        let tracker = state.tracker.in_stage("Merging"@);
        match quoted_part(line) {
            Some(path) => state.with_path(tracker, id, path),
            None => (OutputView { tracker, ..state }, None),
        }
    } else if text::begins_with(line, "[ExtractAudio] Destination: "@) {
        state.with_path(
            state.tracker.in_stage("Converting"@),
            id,
            path_after(line, "[ExtractAudio] Destination: "@),
        )
    } else if text::begins_with(line, "[EmbedThumbnail]"@) || text::begins_with(
        line,
        "[Metadata]"@,
    ) {
        (OutputView { tracker: state.tracker.in_stage("Finishing"@), ..state }, None)
    } else {
        (state, None)
    }
}

/// The state of the three parts that a line may change.
pub open spec fn output_view(
    tracker: ProgressTracker,
    final_path: Option<String>,
    outputs: Vec<String>,
) -> OutputView {
    OutputView {
        tracker: tracker@,
        final_path: text::optional(final_path),
        outputs: text::texts(outputs@),
    }
}

/// Extracts the substring between the first pair of double quotes, if any.
pub fn between_quotes(line: &str) -> (quoted: Option<String>)
    ensures
        match quoted {
            Some(inside) => quoted_part(line@) == Some(inside@),
            None => quoted_part(line@) is None,
        },
{
    let chars = text::chars_of(line);
    match text::find_char(&chars, '"', 0) {
        Some(open) => match text::find_char(&chars, '"', open + 1) {
            Some(close) => Some(line.substring_char(open + 1, close).to_owned()),
            None => None,
        },
        None => None,
    }
}

/// The number in the percent field of a progress line, as text.
pub fn percent_text(line: &str) -> (number: Option<String>)
    ensures
        match number {
            Some(n) => progress_fields(line@) is Some && n@ == percent_part(
                progress_fields(line@)->0[0],
            ),
            None => progress_fields(line@) is None,
        },
{
    match text::strip_prefix(line, "@@P|") {
        Some(rest) => {
            let fields = text::split(rest.as_str(), '|');
            if fields.len() < 5 {
                return None;
            }
            assert(text::texts(fields@)[0] == fields@[0]@);
            Some(text::trim_end_of(text::trim(fields[0].as_str()).as_str(), '%'))
        },
        None => None,
    }
}

/// The reading of a percent field: the number in it, or zero where it holds none.
pub fn reading_or_zero(number: Option<Double>) -> (percent: Double)
    ensures
        percent == (match number {
            Some(n) => n,
            None => Double { bits: 0 },
        }),
{
    match number {
        Some(n) => n,
        None => Double::zero(),
    }
}

/// Whether a list of texts has one.
fn lists(list: &Vec<String>, item: &str) -> (yes: bool)
    ensures
        yes == text::texts(list@).contains(item@),
{
    let mut i: usize = 0;
    while i < list.len()
        invariant
            i <= list.len(),
            forall|j: int| 0 <= j < i ==> text::texts(list@)[j] != item@,
        decreases list.len() - i,
    {
        if text::same_text(list[i].as_str(), item) {
            assert(text::texts(list@)[i as int] == item@);
            return true;
        }
        i = i + 1;
    }
    false
}

/// Records a path as both the current final path and a cleanup candidate, and announces it the
/// first time it is seen.
fn record(
    id: &str,
    path: String,
    final_path: &mut Option<String>,
    outputs: &mut Vec<String>,
) -> (emission: Option<Emission>)
    ensures
        *final(final_path) == Some(path),
        text::texts(final(outputs)@) == (if text::texts(old(outputs)@).contains(path@) {
            text::texts(old(outputs)@)
        } else {
            text::texts(old(outputs)@).push(path@)
        }),
        emitted(emission) == (if text::texts(old(outputs)@).contains(path@) {
            None
        } else {
            Some(EmissionView::File { id: id@, path: path@ })
        }),
{
    let emission: Option<Emission> = if lists(outputs, path.as_str()) {
        None
    } else {
        outputs.push(path.clone());
        assert(text::texts(outputs@) =~= text::texts(old(outputs)@).push(path@));
        Some(Emission::File(FileEvent { id: id.to_owned(), path: path.clone() }))
    };
    *final_path = Some(path);
    emission
}

/// Interprets one line of the engine's output, updating stage and progress state, and returns
/// what the line makes the job announce. `percent` is the number in the line's percent field
/// (see `percent_text`), zero where that is no number.
pub fn handle_stdout_line(
    id: &str,
    line: &str,
    percent: Double,
    tracker: &mut ProgressTracker,
    final_path: &mut Option<String>,
    outputs: &mut Vec<String>,
) -> (emission: Option<Emission>)
    requires
        text::begins_with(line@, "[download] Destination: "@) ==> old(tracker).destinations
            < u32::MAX,
    ensures
        (output_view(*final(tracker), *final(final_path), *final(outputs)), emitted(emission))
            == line_step(
            output_view(*old(tracker), *old(final_path), *old(outputs)),
            id@,
            line@,
            percent,
        ),
{
    if let Some(rest) = text::strip_prefix(line, "@@P|") {
        let fields = text::split(rest.as_str(), '|');
        if fields.len() < 5 {
            return None;
        }
        let ghost parts = text::texts(fields@);
        assert(parts[1] == fields@[1]@ && parts[2] == fields@[2]@ && parts[3] == fields@[3]@
            && parts[4] == fields@[4]@);
        let shown = tracker.monotonic(percent);
        let speed = text::trim(fields[1].as_str());
        let eta = text::trim(fields[2].as_str());
        // Prefer the exact total; fall back to the estimate when it's unknown.
        let total = text::trim(fields[3].as_str());
        let size = if text::same_text(total.as_str(), "N/A") {
            text::trim(fields[4].as_str())
        } else {
            total
        };
        let stage = if tracker.stage.as_str().is_empty() {
            "Downloading".to_owned()
        } else {
            tracker.stage.clone()
        };
        return Some(
            Emission::Progress(
                Progress { id: id.to_owned(), percent: shown, speed, eta, size, stage },
            ),
        );
    }
    if let Some(path) = text::strip_prefix(line, "[download] Destination: ") {
        tracker.destinations = tracker.destinations + 1;
        // First stream is video, a second within the same job is the audio track.
        if tracker.destinations >= 2 {
            tracker.enter_stage("Downloading audio");
        } else {
            tracker.enter_stage("Downloading");
        }
        return record(id, text::trim(path.as_str()), final_path, outputs);
    }
    if text::contains(line, "has already been downloaded") {
        // e.g. "[download] /path/to/file has already been downloaded"
        return match text::strip_prefix(line, "[download] ") {
            Some(rest) => {
                let path = text::before(rest.as_str(), " has already been downloaded");
                record(id, text::trim(path.as_str()), final_path, outputs)
            },
            None => None,
        };
    }
    if text::starts_with(line, "[Merger]") {
        tracker.enter_stage("Merging");
        // "[Merger] Merging formats into \"/path/to/file.mp4\""
        return match between_quotes(line) {
            Some(path) => record(id, path, final_path, outputs),
            None => None,
        };
    }
    if let Some(path) = text::strip_prefix(line, "[ExtractAudio] Destination: ") {
        tracker.enter_stage("Converting");
        return record(id, text::trim(path.as_str()), final_path, outputs);
    }
    if text::starts_with(line, "[EmbedThumbnail]") || text::starts_with(line, "[Metadata]") {
        tracker.enter_stage("Finishing");
    }
    None
}

/// Within a stage the percentage never goes back: a progress line shows at least what was
/// reached before, shows the reading itself when that is no less, and leaves the stage as it
/// is.
pub proof fn law_progress_never_goes_back(
    state: OutputView,
    id: Seq<char>,
    line: Seq<char>,
    percent: Double,
)
    requires
        state.well_formed(),
    ensures
        line_step(state, id, line, percent).1 matches Some(
            EmissionView::Progress { percent: shown, .. },
        ) ==> {
            let after = line_step(state, id, line, percent).0;
            &&& shown.at_least(state.tracker.last_percent)
            &&& percent.at_least(state.tracker.last_percent) ==> shown == percent
            &&& after.tracker.last_percent == shown
            &&& after.tracker.stage == state.tracker.stage
        },
{
}

/// A line at which a stage begins.
pub open spec fn enters_stage(line: Seq<char>) -> bool {
    &&& !text::begins_with(line, "@@P|"@)
    &&& {
        ||| text::begins_with(line, "[download] Destination: "@)
        ||| {
            &&& !text::has_text(line, "has already been downloaded"@)
            &&& {
                ||| text::begins_with(line, "[Merger]"@)
                ||| text::begins_with(line, "[ExtractAudio] Destination: "@)
                ||| text::begins_with(line, "[EmbedThumbnail]"@)
                ||| text::begins_with(line, "[Metadata]"@)
            }
        }
    }
}

/// The percentage falls only where a stage begins, and there to zero; everywhere else it stays
/// or rises, and so does the stage stay.
pub proof fn law_percent_falls_only_between_stages(
    state: OutputView,
    id: Seq<char>,
    line: Seq<char>,
    percent: Double,
)
    requires
        state.well_formed(),
    ensures
        ({
            let after = line_step(state, id, line, percent).0.tracker;
            if enters_stage(line) {
                after.last_percent.bits == 0
            } else {
                after.last_percent.at_least(state.tracker.last_percent) && after.stage
                    == state.tracker.stage
            }
        }),
{
}

/// Every line keeps the state well formed.
pub proof fn law_line_keeps_state(
    state: OutputView,
    id: Seq<char>,
    line: Seq<char>,
    percent: Double,
)
    requires
        state.well_formed(),
    ensures
        line_step(state, id, line, percent).0.well_formed(),
{
    let after = line_step(state, id, line, percent).0;
    if after.final_path is Some && after.final_path != state.final_path {
        let path = after.final_path->0;
        if !state.outputs.contains(path) {
            assert(after.outputs.last() == path);
        }
    }
    if after.final_path is Some && after.outputs != state.outputs {
        assert(after.outputs.last() == after.final_path->0);
    }
}

/// A path is announced exactly when it joins the list of paths written to.
pub proof fn law_each_path_announced_once(
    state: OutputView,
    id: Seq<char>,
    line: Seq<char>,
    percent: Double,
)
    ensures
        ({
            let (after, emission) = line_step(state, id, line, percent);
            match emission {
                Some(EmissionView::File { id: job, path }) => job == id && !state.outputs.contains(
                    path,
                ) && after.outputs == state.outputs.push(path),
                _ => after.outputs == state.outputs,
            }
        }),
{
}

/// The state after a run of lines, each with the number in its percent field.
pub open spec fn after_lines(id: Seq<char>, lines: Seq<(Seq<char>, Double)>) -> OutputView
    decreases lines.len(),
{
    if lines.len() == 0 {
        OutputView::initial()
    } else {
        let (line, percent) = lines.last();
        line_step(after_lines(id, lines.drop_last()), id, line, percent).0
    }
}

/// Over every run of lines: no path is listed twice, the final path is missing exactly while no
/// path is listed, and is one of those listed otherwise.
pub proof fn law_final_path_is_listed(id: Seq<char>, lines: Seq<(Seq<char>, Double)>)
    ensures
        ({
            let state = after_lines(id, lines);
            &&& state.outputs.no_duplicates()
            &&& state.final_path is None <==> state.outputs.len() == 0
            &&& state.final_path is Some ==> state.outputs.contains(state.final_path->0)
        }),
        after_lines(id, lines).well_formed(),
    decreases lines.len(),
{
    if lines.len() > 0 {
        let (line, percent) = lines.last();
        law_final_path_is_listed(id, lines.drop_last());
        law_line_keeps_state(after_lines(id, lines.drop_last()), id, line, percent);
    }
}

/// Each line of a run lists at most one more path, after those listed before it, and a path is
/// announced exactly when it is added.
pub proof fn law_listed_paths_stay(id: Seq<char>, lines: Seq<(Seq<char>, Double)>)
    requires
        lines.len() > 0,
    ensures
        ({
            let earlier = after_lines(id, lines.drop_last());
            let state = after_lines(id, lines);
            let emission = line_step(earlier, id, lines.last().0, lines.last().1).1;
            &&& state.outputs == earlier.outputs || state.outputs == earlier.outputs.push(
                state.outputs.last(),
            )
            &&& emission is Some && emission->0 is File <==> state.outputs.len()
                > earlier.outputs.len()
            &&& state.outputs.len() > earlier.outputs.len() ==> emission == Some(
                EmissionView::File { id, path: state.outputs.last() },
            )
        }),
{
    law_each_path_announced_once(
        after_lines(id, lines.drop_last()),
        id,
        lines.last().0,
        lines.last().1,
    );
}

/// After a line, a path is the final path, is listed after the others if it was not, and is
/// announced exactly then.
pub open spec fn records(
    before: OutputView,
    after: OutputView,
    emission: Option<EmissionView>,
    id: Seq<char>,
    path: Seq<char>,
) -> bool {
    &&& after.final_path == Some(path)
    &&& before.outputs.contains(path) ==> after.outputs == before.outputs && emission is None
    &&& !before.outputs.contains(path) ==> after.outputs == before.outputs.push(path) && emission
        == Some(EmissionView::File { id, path })
}

/// The line announces nothing and leaves the paths as they were.
pub open spec fn keeps_paths(
    before: OutputView,
    after: OutputView,
    emission: Option<EmissionView>,
) -> bool {
    &&& emission is None
    &&& after.final_path == before.final_path
    &&& after.outputs == before.outputs
}

/// A stage has begun: it counts from zero, and has its name.
pub open spec fn begins_at_zero(
    before: TrackerView,
    after: TrackerView,
    stage: Seq<char>,
) -> bool {
    &&& after.stage == stage
    &&& after.last_percent == (Double { bits: 0 })
    &&& after.destinations == before.destinations
}

/// Whatever stands around it, the path of a destination line is recorded whole. The first
/// destination begins the download, every later one the download of the audio.
pub proof fn law_destination_line(
    state: OutputView,
    id: Seq<char>,
    blank: Seq<char>,
    path: Seq<char>,
    after_it: Seq<char>,
    percent: Double,
)
    requires
        text::is_blank(blank),
        text::is_blank(after_it),
        text::is_neat(path),
    ensures
        ({
            let line = "[download] Destination: "@ + (blank + path + after_it);
            let (after, emission) = line_step(state, id, line, percent);
            &&& records(state, after, emission, id, path)
            &&& after.tracker.destinations == state.tracker.destinations + 1
            &&& after.tracker.last_percent == (Double { bits: 0 })
            &&& after.tracker.stage == (if state.tracker.destinations >= 1 {
                "Downloading audio"@
            } else {
                "Downloading"@
            })
        }),
{
    let mark = "[download] Destination: "@;
    let named = blank + path + after_it;
    let line = mark + named;
    reveal_strlit("@@P|");
    reveal_strlit("[download] Destination: ");
    assert(line.subrange(0, mark.len() as int) =~= mark);
    assert(line.subrange(mark.len() as int, line.len() as int) =~= named);
    assert(line.subrange(0, 4)[0] == '[');
    text::law_trim(blank, path, after_it);
}

/// Whatever stands around it, the path of extracted audio is recorded whole, and converting
/// begins.
pub proof fn law_extracted_audio_line(
    state: OutputView,
    id: Seq<char>,
    blank: Seq<char>,
    path: Seq<char>,
    after_it: Seq<char>,
    percent: Double,
)
    requires
        text::is_blank(blank),
        text::is_blank(after_it),
        text::is_neat(path),
        !text::has_text(
            "[ExtractAudio] Destination: "@ + (blank + path + after_it),
            "has already been downloaded"@,
        ),
    ensures
        ({
            let line = "[ExtractAudio] Destination: "@ + (blank + path + after_it);
            let (after, emission) = line_step(state, id, line, percent);
            &&& records(state, after, emission, id, path)
            &&& begins_at_zero(state.tracker, after.tracker, "Converting"@)
        }),
{
    let mark = "[ExtractAudio] Destination: "@;
    let named = blank + path + after_it;
    let line = mark + named;
    reveal_strlit("@@P|");
    reveal_strlit("[download] Destination: ");
    reveal_strlit("[Merger]");
    reveal_strlit("[ExtractAudio] Destination: ");
    assert(line.subrange(0, mark.len() as int) =~= mark);
    assert(line.subrange(mark.len() as int, line.len() as int) =~= named);
    assert(line.subrange(0, 4)[0] == '[');
    assert(line.subrange(0, "[download] Destination: "@.len() as int)[1] == 'E');
    assert(line.subrange(0, "[Merger]"@.len() as int)[1] == 'E');
    text::law_trim(blank, path, after_it);
}

/// A file that is already there is recorded by the path before the remark, whatever white space
/// is around it, and the stage and the percentage stay.
pub proof fn law_already_downloaded_line(
    state: OutputView,
    id: Seq<char>,
    blank: Seq<char>,
    path: Seq<char>,
    after_it: Seq<char>,
    rest: Seq<char>,
    percent: Double,
)
    requires
        text::is_blank(blank),
        text::is_blank(after_it),
        text::is_neat(path),
        !text::begins_with(
            "[download] "@ + ((blank + path + after_it) + " has already been downloaded"@ + rest),
            "[download] Destination: "@,
        ),
        forall|j: int|
            0 <= j < (blank + path + after_it).len() ==> !text::occurs_at(
                (blank + path + after_it) + " has already been downloaded"@ + rest,
                " has already been downloaded"@,
                j,
            ),
    ensures
        ({
            let line = "[download] "@ + ((blank + path + after_it)
                + " has already been downloaded"@ + rest);
            let (after, emission) = line_step(state, id, line, percent);
            records(state, after, emission, id, path) && after.tracker == state.tracker
        }),
{
    let mark = "[download] "@;
    let remark = " has already been downloaded"@;
    let padded = blank + path + after_it;
    let named = padded + remark + rest;
    let line = mark + named;
    reveal_strlit("@@P|");
    reveal_strlit("[download] ");
    reveal_strlit("has already been downloaded");
    reveal_strlit(" has already been downloaded");
    assert(line.subrange(0, 4)[0] == '[');
    assert(line.subrange(0, mark.len() as int) =~= mark);
    assert(line.subrange(mark.len() as int, line.len() as int) =~= named);
    let at = (mark.len() + padded.len() + 1) as int;
    assert(line.subrange(at, at + 27) =~= "has already been downloaded"@);
    assert(text::occurs_at(line, "has already been downloaded"@, at));
    text::law_before_text(padded, remark, rest);
    text::law_trim(blank, path, after_it);
}

/// Where no space stands before the remark, the whole of the line is taken for the path.
pub proof fn law_already_downloaded_without_space(
    state: OutputView,
    id: Seq<char>,
    named: Seq<char>,
    percent: Double,
)
    requires
        text::has_text("[download] "@ + named, "has already been downloaded"@),
        !text::has_text(named, " has already been downloaded"@),
        !text::begins_with("[download] "@ + named, "[download] Destination: "@),
    ensures
        ({
            let line = "[download] "@ + named;
            let (after, emission) = line_step(state, id, line, percent);
            records(state, after, emission, id, text::trimmed(named)) && after.tracker
                == state.tracker
        }),
{
    let mark = "[download] "@;
    let line = mark + named;
    reveal_strlit("@@P|");
    reveal_strlit("[download] ");
    assert(line.subrange(0, 4)[0] == '[');
    assert(line.subrange(0, mark.len() as int) =~= mark);
    assert(line.subrange(mark.len() as int, line.len() as int) =~= named);
    text::lemma_first_text(named, " has already been downloaded"@, 0);
    if text::first_text(named, " has already been downloaded"@, 0) is Some {
        assert(text::has_text(named, " has already been downloaded"@));
    }
}

/// Any other line of the downloader changes nothing and announces nothing.
pub proof fn law_other_download_lines_change_nothing(
    state: OutputView,
    id: Seq<char>,
    rest: Seq<char>,
    percent: Double,
)
    requires
        !text::has_text("[download] "@ + rest, "has already been downloaded"@),
        !text::begins_with("[download] "@ + rest, "[download] Destination: "@),
    ensures
        line_step(state, id, "[download] "@ + rest, percent) == (state, None::<EmissionView>),
{
    let line = "[download] "@ + rest;
    reveal_strlit("@@P|");
    reveal_strlit("[download] ");
    reveal_strlit("[Merger]");
    reveal_strlit("[ExtractAudio] Destination: ");
    reveal_strlit("[EmbedThumbnail]");
    reveal_strlit("[Metadata]");
    assert(line.subrange(0, 4)[0] == '[');
    assert(line[1] == 'd');
    if text::begins_with(line, "[Merger]"@) {
        assert(line.subrange(0, 8)[1] == 'd');
    }
    if text::begins_with(line, "[ExtractAudio] Destination: "@) {
        assert(line.subrange(0, "[ExtractAudio] Destination: "@.len() as int)[1] == 'd');
    }
    if text::begins_with(line, "[EmbedThumbnail]"@) {
        assert(line.subrange(0, 16)[1] == 'd');
    }
    if text::begins_with(line, "[Metadata]"@) {
        assert(line.subrange(0, 10)[1] == 'd');
    }
}

/// The file that streams are merged into is recorded by what stands between the first quotes,
/// and merging begins; without a pair of quotes, only the stage changes.
pub proof fn law_merger_line(
    state: OutputView,
    id: Seq<char>,
    lead: Seq<char>,
    path: Seq<char>,
    rest: Seq<char>,
    percent: Double,
)
    requires
        forall|i: int| 0 <= i < lead.len() ==> lead[i] != '"',
        forall|i: int| 0 <= i < path.len() ==> path[i] != '"',
    ensures
        ({
            let line = "[Merger]"@ + (lead + seq!['"'] + path + seq!['"'] + rest);
            let (after, emission) = line_step(state, id, line, percent);
            !text::has_text(line, "has already been downloaded"@) ==> {
                &&& records(state, after, emission, id, path)
                &&& begins_at_zero(state.tracker, after.tracker, "Merging"@)
            }
        }),
        ({
            let line = "[Merger]"@ + lead;
            let (after, emission) = line_step(state, id, line, percent);
            !text::has_text(line, "has already been downloaded"@) ==> {
                &&& keeps_paths(state, after, emission)
                &&& begins_at_zero(state.tracker, after.tracker, "Merging"@)
            }
        }),
{
    reveal_strlit("@@P|");
    reveal_strlit("[download] Destination: ");
    reveal_strlit("[Merger]");
    let mark = "[Merger]"@;
    let tail = lead + seq!['"'] + path + seq!['"'] + rest;
    let line = mark + tail;
    assert(line.subrange(0, 4)[0] == '[');
    assert(line.subrange(0, 8) =~= mark);
    if text::begins_with(line, "[download] Destination: "@) {
        assert(line.subrange(0, "[download] Destination: "@.len() as int)[1] == 'M');
    }
    let open = (8 + lead.len()) as int;
    let close = open + 1 + path.len();
    text::lemma_first_char(line, '"', 0);
    text::lemma_first_char(line, '"', open + 1);
    assert(line[open] == '"');
    assert(line[close] == '"');
    assert forall|j: int| 0 <= j < open implies line[j] != '"' by {
        if j >= 8 {
            assert(line[j] == lead[j - 8]);
        }
    }
    assert(text::first_char(line, '"', 0) == Some(open));
    assert forall|j: int| open < j < close implies line[j] != '"' by {
        assert(line[j] == path[j - open - 1]);
    }
    assert(text::first_char(line, '"', open + 1) == Some(close));
    assert(line.subrange(open + 1, close) =~= path);

    let bare = mark + lead;
    assert(bare.subrange(0, 4)[0] == '[');
    assert(bare.subrange(0, 8) =~= mark);
    if text::begins_with(bare, "[download] Destination: "@) {
        assert(bare.subrange(0, "[download] Destination: "@.len() as int)[1] == 'M');
    }
    text::lemma_first_char(bare, '"', 0);
    assert forall|j: int| 0 <= j < bare.len() implies bare[j] != '"' by {
        if j >= 8 {
            assert(bare[j] == lead[j - 8]);
        }
    }
}

/// What stands between the first two double quotes is found, and nothing where there are fewer.
pub proof fn law_between_quotes(lead: Seq<char>, inner: Seq<char>, rest: Seq<char>)
    requires
        forall|i: int| 0 <= i < lead.len() ==> lead[i] != '"',
        forall|i: int| 0 <= i < inner.len() ==> inner[i] != '"',
    ensures
        quoted_part(lead + seq!['"'] + inner + seq!['"'] + rest) == Some(inner),
        quoted_part(lead + seq!['"'] + inner) is None,
        quoted_part(lead) is None,
{
    let all = lead + seq!['"'] + inner + seq!['"'] + rest;
    let open = lead.len() as int;
    let close = open + 1 + inner.len();
    text::lemma_first_char(all, '"', 0);
    text::lemma_first_char(all, '"', open + 1);
    assert(all[open] == '"');
    assert(all[close] == '"');
    assert forall|j: int| 0 <= j < open implies all[j] != '"' by {
        assert(all[j] == lead[j]);
    }
    assert(text::first_char(all, '"', 0) == Some(open));
    assert forall|j: int| open < j < close implies all[j] != '"' by {
        assert(all[j] == inner[j - open - 1]);
    }
    assert(text::first_char(all, '"', open + 1) == Some(close));
    assert(all.subrange(open + 1, close) =~= inner);

    let half = lead + seq!['"'] + inner;
    text::lemma_first_char(half, '"', 0);
    text::lemma_first_char(half, '"', open + 1);
    assert(half[open] == '"');
    assert forall|j: int| 0 <= j < open implies half[j] != '"' by {
        assert(half[j] == lead[j]);
    }
    assert(text::first_char(half, '"', 0) == Some(open));
    assert forall|j: int| open < j < half.len() implies half[j] != '"' by {
        assert(half[j] == inner[j - open - 1]);
    }
    text::lemma_first_char(lead, '"', 0);
}

/// A remark that a file is there already counts only in a line of the downloader itself.
pub proof fn law_remark_elsewhere_changes_nothing(
    state: OutputView,
    id: Seq<char>,
    line: Seq<char>,
    percent: Double,
)
    requires
        text::has_text(line, "has already been downloaded"@),
        forall|rest: Seq<char>| line != #[trigger] ("@@P|"@ + rest),
        forall|rest: Seq<char>| line != #[trigger] ("[download] "@ + rest),
    ensures
        line_step(state, id, line, percent) == (state, None::<EmissionView>),
{
    text::law_begins_with(line, "@@P|"@);
    text::law_begins_with(line, "[download] "@);
    reveal_strlit("[download] ");
    reveal_strlit("[download] Destination: ");
    if text::begins_with(line, "[download] Destination: "@) {
        let long = "[download] Destination: "@;
        assert(line.subrange(0, 11) =~= line.subrange(0, long.len() as int).subrange(0, 11));
        assert(long.subrange(0, 11) =~= "[download] "@);
    }
}

/// Embedding a thumbnail or metadata is the last stage, and names no path.
pub proof fn law_finishing_lines(
    state: OutputView,
    id: Seq<char>,
    rest: Seq<char>,
    percent: Double,
)
    ensures
        ({
            let line = "[EmbedThumbnail]"@ + rest;
            let (after, emission) = line_step(state, id, line, percent);
            !text::has_text(line, "has already been downloaded"@) ==> {
                &&& keeps_paths(state, after, emission)
                &&& begins_at_zero(state.tracker, after.tracker, "Finishing"@)
            }
        }),
        ({
            let line = "[Metadata]"@ + rest;
            let (after, emission) = line_step(state, id, line, percent);
            !text::has_text(line, "has already been downloaded"@) ==> {
                &&& keeps_paths(state, after, emission)
                &&& begins_at_zero(state.tracker, after.tracker, "Finishing"@)
            }
        }),
{
    reveal_strlit("@@P|");
    reveal_strlit("[download] Destination: ");
    reveal_strlit("[Merger]");
    reveal_strlit("[ExtractAudio] Destination: ");
    reveal_strlit("[EmbedThumbnail]");
    reveal_strlit("[Metadata]");
    let a = "[EmbedThumbnail]"@ + rest;
    assert(a.subrange(0, 16) =~= "[EmbedThumbnail]"@);
    assert(a.subrange(0, 4)[0] == '[');
    if text::begins_with(a, "[download] Destination: "@) {
        assert(a.subrange(0, "[download] Destination: "@.len() as int)[1] == 'E');
    }
    assert(a.subrange(0, 8)[1] == 'E');
    if text::begins_with(a, "[ExtractAudio] Destination: "@) {
        assert(a.subrange(0, "[ExtractAudio] Destination: "@.len() as int)[2] == 'm');
    }
    let b = "[Metadata]"@ + rest;
    assert(b.subrange(0, 10) =~= "[Metadata]"@);
    assert(b.subrange(0, 4)[0] == '[');
    if text::begins_with(b, "[download] Destination: "@) {
        assert(b.subrange(0, "[download] Destination: "@.len() as int)[1] == 'M');
    }
    assert(b.subrange(0, 8)[3] == 't');
    assert("[Merger]"@[3] == 'r');
    if text::begins_with(b, "[ExtractAudio] Destination: "@) {
        assert(b.subrange(0, "[ExtractAudio] Destination: "@.len() as int)[1] == 'M');
    }
}

/// A line that begins with none of the marks changes nothing and announces nothing.
pub proof fn law_other_lines_change_nothing(
    state: OutputView,
    id: Seq<char>,
    line: Seq<char>,
    percent: Double,
)
    requires
        forall|rest: Seq<char>| line != #[trigger] ("@@P|"@ + rest),
        forall|rest: Seq<char>| line != #[trigger] ("[download] "@ + rest),
        forall|rest: Seq<char>| line != #[trigger] ("[Merger]"@ + rest),
        forall|rest: Seq<char>| line != #[trigger] ("[ExtractAudio] Destination: "@ + rest),
        forall|rest: Seq<char>| line != #[trigger] ("[EmbedThumbnail]"@ + rest),
        forall|rest: Seq<char>| line != #[trigger] ("[Metadata]"@ + rest),
    ensures
        line_step(state, id, line, percent) == (state, None::<EmissionView>),
{
    text::law_begins_with(line, "@@P|"@);
    text::law_begins_with(line, "[download] "@);
    text::law_begins_with(line, "[Merger]"@);
    text::law_begins_with(line, "[ExtractAudio] Destination: "@);
    text::law_begins_with(line, "[EmbedThumbnail]"@);
    text::law_begins_with(line, "[Metadata]"@);
    reveal_strlit("[download] ");
    reveal_strlit("[download] Destination: ");
    if text::begins_with(line, "[download] Destination: "@) {
        let long = "[download] Destination: "@;
        assert(line.subrange(0, 11) =~= long.subrange(0, 11)) by {
            assert(line.subrange(0, 11) =~= line.subrange(0, long.len() as int).subrange(0, 11));
        }
        assert(long.subrange(0, 11) =~= "[download] "@);
    }
}

/// A progress line with its five fields is shown field by field: the percentage never below
/// what was reached, the speed, the time left, and the total, or the estimate where the total
/// is not known. It leaves the stage and the paths as they are.
pub proof fn law_progress_is_shown(
    state: OutputView,
    id: Seq<char>,
    fields: Seq<Seq<char>>,
    percent: Double,
)
    requires
        fields.len() >= 5,
        separable(fields, '|'),
    ensures
        ({
            let line = "@@P|"@ + joined(fields, '|');
            let (after, emission) = line_step(state, id, line, percent);
            let reached = state.tracker.last_percent;
            &&& after.outputs == state.outputs
            &&& after.final_path == state.final_path
            &&& after.tracker.stage == state.tracker.stage
            &&& after.tracker.destinations == state.tracker.destinations
            &&& after.tracker.last_percent == (if percent.at_least(reached) {
                percent
            } else {
                reached
            })
            &&& emission == Some(
                EmissionView::Progress {
                    id,
                    percent: after.tracker.last_percent,
                    speed: text::trimmed(fields[1]),
                    eta: text::trimmed(fields[2]),
                    size: if text::trimmed(fields[3]) == "N/A"@ {
                        text::trimmed(fields[4])
                    } else {
                        text::trimmed(fields[3])
                    },
                    stage: if state.tracker.stage.len() == 0 {
                        "Downloading"@
                    } else {
                        state.tracker.stage
                    },
                },
            )
        }),
{
    law_progress_is_read_back(fields);
    let line = "@@P|"@ + joined(fields, '|');
    assert(line.subrange(0, "@@P|"@.len() as int) =~= "@@P|"@);
}

/// A progress line with fewer fields is passed over.
pub proof fn law_short_progress_is_passed_over(
    state: OutputView,
    id: Seq<char>,
    fields: Seq<Seq<char>>,
    percent: Double,
)
    requires
        0 < fields.len() < 5,
        separable(fields, '|'),
    ensures
        line_step(state, id, "@@P|"@ + joined(fields, '|'), percent) == (
            state,
            None::<EmissionView>,
        ),
        progress_fields("@@P|"@ + joined(fields, '|')) is None,
{
    let line = "@@P|"@ + joined(fields, '|');
    assert(line.subrange(0, "@@P|"@.len() as int) =~= "@@P|"@);
    assert(line.subrange("@@P|"@.len() as int, line.len() as int) =~= joined(fields, '|'));
    lemma_split_joined(fields, '|');
}

/// The number of a percent field is what stands before the percent signs, whatever white space
/// is around it.
pub proof fn law_percent_field(
    blank: Seq<char>,
    number: Seq<char>,
    signs: nat,
    after_it: Seq<char>,
)
    requires
        text::is_blank(blank),
        text::is_blank(after_it),
        number.len() > 0 ==> !text::is_white_space(number[0]) && number[number.len() - 1] != '%',
        signs == 0 ==> text::is_neat(number),
    ensures
        percent_part(blank + (number + Seq::new(signs, |i: int| '%')) + after_it) == number,
{
    let core = number + Seq::new(signs, |i: int| '%');
    if number.len() > 0 {
        assert(core[0] == number[0]);
    }
    if signs > 0 {
        assert(core[core.len() - 1] == '%');
    } else {
        assert(core =~= number);
    }
    text::law_trim(blank, core, after_it);
    text::law_trim_end_of(number, '%', signs);
}

/// The models of what is announced and of what is tracked have each part in its place.
pub proof fn law_models_hold_each_part(
    progress: Progress,
    file: FileEvent,
    tracker: ProgressTracker,
    final_path: Option<String>,
    outputs: Vec<String>,
)
    ensures
        Emission::Progress(progress)@ == (EmissionView::Progress {
            id: progress.id@,
            percent: progress.percent,
            speed: progress.speed@,
            eta: progress.eta@,
            size: progress.size@,
            stage: progress.stage@,
        }),
        Emission::File(file)@ == (EmissionView::File { id: file.id@, path: file.path@ }),
        emitted(Some(Emission::File(file))) == Some(Emission::File(file)@),
        emitted(Some(Emission::Progress(progress))) == Some(Emission::Progress(progress)@),
        emitted(None) is None,
        tracker@ == (TrackerView {
            destinations: tracker.destinations as int,
            stage: tracker.stage@,
            last_percent: tracker.last_percent,
        }),
        output_view(tracker, final_path, outputs) == (OutputView {
            tracker: tracker@,
            final_path: text::optional(final_path),
            outputs: text::texts(outputs@),
        }),
{
}

/// Fields with a separator between them.
pub open spec fn joined(fields: Seq<Seq<char>>, c: char) -> Seq<char>
    decreases fields.len(),
{
    if fields.len() == 0 {
        seq![]
    } else if fields.len() == 1 {
        fields[0]
    } else {
        fields[0] + seq![c] + joined(fields.drop_first(), c)
    }
}

/// The separator is in none of the fields.
pub open spec fn separable(fields: Seq<Seq<char>>, c: char) -> bool {
    forall|i: int, j: int| 0 <= i < fields.len() && 0 <= j < fields[i].len() ==> fields[i][j] != c
}

proof fn lemma_split_joined(fields: Seq<Seq<char>>, c: char)
    requires
        fields.len() > 0,
        separable(fields, c),
    ensures
        text::split_parts(joined(fields, c), c) == fields,
    decreases fields.len(),
{
    let line = joined(fields, c);
    let head = fields[0];
    text::lemma_first_char(line, c, 0);
    if fields.len() == 1 {
        assert(text::first_char(line, c, 0) is None);
        assert(fields =~= seq![line]);
    } else {
        let rest = fields.drop_first();
        assert forall|i: int, j: int| 0 <= i < rest.len() && 0 <= j < rest[i].len() implies rest[i][j]
            != c by {
            assert(rest[i] == fields[i + 1]);
        }
        lemma_split_joined(rest, c);
        assert(line[head.len() as int] == c);
        assert forall|j: int| 0 <= j < head.len() implies line[j] != c by {
            assert(line[j] == fields[0][j]);
        }
        assert(text::first_char(line, c, 0) == Some(head.len() as int));
        assert(line.subrange(0, head.len() as int) == head);
        assert(line.subrange((head.len() + 1) as int, line.len() as int) == joined(rest, c));
        assert(fields =~= seq![head] + rest);
    }
}

/// The fields that the engine reports after the progress mark, one after another with bars
/// between them, are read back as they were reported.
pub proof fn law_progress_is_read_back(fields: Seq<Seq<char>>)
    requires
        fields.len() >= 5,
        separable(fields, '|'),
    ensures
        progress_fields("@@P|"@ + joined(fields, '|')) == Some(fields),
{
    let line = "@@P|"@ + joined(fields, '|');
    assert(line.subrange(0, "@@P|"@.len() as int) == "@@P|"@);
    assert(line.subrange("@@P|"@.len() as int, line.len() as int) == joined(fields, '|'));
    lemma_split_joined(fields, '|');
}

/// Every destination that the engine names becomes the final path and is listed.
pub proof fn law_destination_is_recorded(
    state: OutputView,
    id: Seq<char>,
    path: Seq<char>,
    percent: Double,
)
    requires
        text::trimmed(path) == path,
    ensures
        ({
            let after = line_step(state, id, "[download] Destination: "@ + path, percent).0;
            after.final_path == Some(path) && after.outputs.contains(path)
        }),
{
    reveal_strlit("@@P|");
    reveal_strlit("[download] Destination: ");
    let mark = "[download] Destination: "@;
    let line = mark + path;
    assert(line.subrange(0, mark.len() as int) == mark);
    assert(line.subrange(mark.len() as int, line.len() as int) == path);
    assert(line.subrange(0, 4)[0] == '[');
    assert("@@P|"@[0] == '@');
    let after = line_step(state, id, line, percent).0;
    if !state.outputs.contains(path) {
        assert(after.outputs.last() == path);
    }
}

/// The file that the engine merges into becomes the final path and is listed, if no double
/// quote stands in its name.
pub proof fn law_merged_file_is_recorded(
    state: OutputView,
    id: Seq<char>,
    path: Seq<char>,
    percent: Double,
)
    requires
        forall|i: int| 0 <= i < path.len() ==> path[i] != '"',
        !text::has_text(
            "[Merger] Merging formats into \""@ + path + "\""@,
            "has already been downloaded"@,
        ),
    ensures
        ({
            let line = "[Merger] Merging formats into \""@ + path + "\""@;
            let after = line_step(state, id, line, percent).0;
            &&& after.final_path == Some(path)
            &&& after.outputs.contains(path)
            &&& after.tracker.stage == "Merging"@
        }),
{
    reveal_strlit("@@P|");
    reveal_strlit("[download] Destination: ");
    reveal_strlit("[Merger]");
    reveal_strlit("[Merger] Merging formats into \"");
    reveal_strlit("\"");
    let lead = "[Merger] Merging formats into \""@;
    let line = lead + path + "\""@;
    assert(line.subrange(0, 4)[0] == '[');
    assert(line.subrange(0, "[download] Destination: "@.len() as int)[1] == 'M');
    assert(line.subrange(0, 8) =~= "[Merger]"@);
    text::lemma_first_char(line, '"', 0);
    text::lemma_first_char(line, '"', lead.len() as int);
    assert(line[lead.len() - 1] == '"');
    assert(text::first_char(line, '"', 0) == Some(lead.len() - 1));
    assert(line[(lead.len() + path.len()) as int] == '"');
    assert forall|j: int| lead.len() <= j < lead.len() + path.len() implies line[j] != '"' by {
        assert(line[j] == path[j - lead.len()]);
    }
    assert(text::first_char(line, '"', lead.len() as int) == Some(
        (lead.len() + path.len()) as int,
    ));
    assert(line.subrange(lead.len() as int, (lead.len() + path.len()) as int) =~= path);
    let after = line_step(state, id, line, percent).0;
    if !state.outputs.contains(path) {
        assert(after.outputs.last() == path);
    }
}

} // verus!
