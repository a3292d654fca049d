//! A running download: how it moves from one engine event to the next, and how it ends.

use vstd::prelude::*;
use vstd::utf8;

use crate::double::Double;
use crate::output::{self, Emission, EmissionView, OutputView, ProgressTracker};
use crate::request::{self, DownloadRequest};
use crate::{encoding, failure, text};

verus! {

/// Keep only the tail of the error output: enough to explain a failure, bounded so a noisy job
/// can't grow the buffer without limit.
pub const STDERR_CAP: usize = 4096;

/// The longest end of `s` that takes at most `cap` bytes of UTF-8.
pub open spec fn bounded_tail(s: Seq<char>, cap: int) -> Seq<char>
    decreases s.len(),
{
    if s.len() == 0 || utf8::encode_utf8(s).len() <= cap {
        s
    } else {
        bounded_tail(s.drop_first(), cap)
    }
}

/// Terminal outcome for a job, emitted exactly once.
#[derive(Debug)]
pub struct Done {
    pub id: String,
    pub ok: bool,
    pub path: Option<String>,
    pub error: Option<String>,
}

/// The model of a `Done`.
#[verifier::ext_equal]
pub struct DoneView {
    pub id: Seq<char>,
    pub ok: bool,
    pub path: Option<Seq<char>>,
    pub error: Option<Seq<char>>,
}

impl View for Done {
    type V = DoneView;

    open spec fn view(&self) -> DoneView {
        DoneView {
            id: self.id@,
            ok: self.ok,
            path: text::optional(self.path),
            error: text::optional(self.error),
        }
    }
}

/// What the engine's process does.
#[derive(Debug)]
pub enum JobEvent {
    /// A line on the standard output, and the number in its percent field (see
    /// `percent_reading`), zero where that is no number.
    Stdout { bytes: Vec<u8>, percent: Double },
    /// Bytes on the error stream.
    Stderr { bytes: Vec<u8> },
    /// The end of the process. `was_present` says whether the job was still registered; a job
    /// that was not has been cancelled.
    Terminated { code: Option<i32>, was_present: bool },
    /// Anything else.
    Other,
}

/// The model of a `JobEvent`.
pub enum EventView {
    Stdout { bytes: Seq<u8>, percent: Double },
    Stderr { bytes: Seq<u8> },
    Terminated { code: Option<i32>, was_present: bool },
    Other,
}

impl View for JobEvent {
    type V = EventView;

    open spec fn view(&self) -> EventView {
        match self {
            JobEvent::Stdout { bytes, percent } => EventView::Stdout {
                bytes: bytes@,
                percent: *percent,
            },
            JobEvent::Stderr { bytes } => EventView::Stderr { bytes: bytes@ },
            JobEvent::Terminated { code, was_present } => EventView::Terminated {
                code: *code,
                was_present: *was_present,
            },
            JobEvent::Other => EventView::Other,
        }
    }
}

/// What is to be done about an event.
#[derive(Debug)]
pub enum JobAction {
    Nothing,
    /// Tell the frontend.
    Emit(Emission),
    /// Delete the partial files of the paths listed, tell the frontend the outcome, and stop.
    Finish { discard: Vec<String>, done: Done },
}

/// The model of a `JobAction`.
pub enum ActionView {
    Nothing,
    Emit(EmissionView),
    Finish { discard: Seq<Seq<char>>, done: DoneView },
}

impl View for JobAction {
    type V = ActionView;

    open spec fn view(&self) -> ActionView {
        match self {
            JobAction::Nothing => ActionView::Nothing,
            JobAction::Emit(emission) => ActionView::Emit(emission@),
            JobAction::Finish { discard, done } => ActionView::Finish {
                discard: text::texts(discard@),
                done: done@,
            },
        }
    }
}

/// A running download.
#[derive(Debug)]
pub struct DownloadJob {
    pub id: String,
    pub tracker: ProgressTracker,
    pub stderr_tail: String,
    pub final_path: Option<String>,
    /// Every path the engine writes to (streams, merge target, extracted audio), so a
    /// cancelled job can delete the half-written files it leaves behind.
    pub outputs: Vec<String>,
    /// The outcome has been told.
    pub finished: bool,
}

/// The model of a `DownloadJob`.
#[verifier::ext_equal]
pub struct JobView {
    pub id: Seq<char>,
    pub output: OutputView,
    pub stderr: Seq<char>,
    pub finished: bool,
}

impl View for DownloadJob {
    type V = JobView;

    open spec fn view(&self) -> JobView {
        JobView {
            id: self.id@,
            output: output::output_view(self.tracker, self.final_path, self.outputs),
            stderr: self.stderr_tail@,
            finished: self.finished,
        }
    }
}

/// The text of a line of output.
pub open spec fn line_text(bytes: Seq<u8>) -> Seq<char> {
    text::trimmed_end(encoding::lossy_text(bytes))
}

impl JobView {
    /// A job that has just been started.
    pub open spec fn initial(id: Seq<char>) -> JobView {
        JobView { id, output: OutputView::initial(), stderr: seq![], finished: false }
    }

    /// The output state is well formed, and the error output is within its bound.
    pub open spec fn well_formed(self) -> bool {
        self.output.well_formed() && utf8::encode_utf8(self.stderr).len() <= STDERR_CAP
    }

    /// How the job ends. A cancelled job is neither done nor failed; a job that exits with zero
    /// is done; any other has failed, and the error output says why.
    pub open spec fn outcome(self, code: Option<i32>, was_present: bool) -> DoneView {
        if !was_present {
            DoneView { id: self.id, ok: false, path: None, error: None }
        } else if code == Some(0i32) {
            DoneView { id: self.id, ok: true, path: self.output.final_path, error: None }
        } else {
            DoneView {
                id: self.id,
                ok: false,
                path: None,
                error: Some(failure::download_failure(self.stderr)),
            }
        }
    }

    /// The event is a destination line, and no more of them can be counted.
    pub open spec fn overflows(self, event: EventView) -> bool {
        &&& !self.finished
        &&& self.output.tracker.destinations >= u32::MAX
        &&& event matches EventView::Stdout { bytes, .. } && text::begins_with(
            line_text(bytes),
            "[download] Destination: "@,
        )
    }

    /// What one event does: the next state, and the action. Nothing happens once the outcome
    /// has been told.
    pub open spec fn step(self, event: EventView) -> (JobView, ActionView) {
        if self.finished {
            (self, ActionView::Nothing)
        } else {
            match event {
                EventView::Stdout { bytes, percent } => {
                    let (output, emission) = output::line_step(
                        self.output,
                        self.id,
                        line_text(bytes),
                        percent,
                    );
                    (
                        JobView { output, ..self },
                        match emission {
                            Some(e) => ActionView::Emit(e),
                            None => ActionView::Nothing,
                        },
                    )
                },
                EventView::Stderr { bytes } => (
                    JobView {
                        stderr: bounded_tail(
                            self.stderr + encoding::lossy_text(bytes),
                            STDERR_CAP as int,
                        ),
                        ..self
                    },
                    ActionView::Nothing,
                ),
                EventView::Terminated { code, was_present } => (
                    JobView { finished: true, ..self },
                    ActionView::Finish {
                        discard: if was_present {
                            seq![]
                        } else {
                            self.output.outputs
                        },
                        done: self.outcome(code, was_present),
                    },
                ),
                EventView::Other => (self, ActionView::Nothing),
            }
        }
    }
}

/// How many bytes of UTF-8 a character takes.
fn utf8_width(c: char) -> (width: usize)
    ensures
        width == utf8::encode_scalar(c as u32).len(),
        1 <= width <= 4,
{
    let n: u32 = c as u32;
    if n <= 0x7f {
        1
    } else if n <= 0x7ff {
        2
    } else if n <= 0xffff {
        3
    } else {
        4
    }
}

/// All the ends of `s` from before `keep` are over the bound, so what is kept is found from
/// any of them.
proof fn lemma_tail_found(s: Seq<char>, from: int, keep: int, cap: int)
    requires
        0 <= from <= keep <= s.len(),
        keep > 0 ==> utf8::encode_utf8(s.subrange(keep - 1, s.len() as int)).len() > cap,
        utf8::encode_utf8(s.subrange(keep, s.len() as int)).len() <= cap,
    ensures
        bounded_tail(s.subrange(from, s.len() as int), cap) == s.subrange(keep, s.len() as int),
        from < keep ==> utf8::encode_utf8(s.subrange(from, s.len() as int)).len() > cap,
    decreases keep - from,
{
    let rest = s.subrange(from, s.len() as int);
    if from < keep {
        lemma_tail_found(s, from + 1, keep, cap);
        assert(rest.drop_first() == s.subrange(from + 1, s.len() as int));
    }
}

/// Appends `chunk` to `buffer`, keeping only the last `STDERR_CAP` bytes, and of those only
/// whole characters.
pub fn append_bounded(buffer: &mut String, chunk: &str)
    ensures
        final(buffer)@ == bounded_tail(old(buffer)@ + chunk@, STDERR_CAP as int),
{
    buffer.append(chunk);
    let ghost all = buffer@;
    let chars = text::chars_of(buffer.as_str());
    let mut from: usize = chars.len();
    let mut size: usize = 0;
    assert(all.subrange(from as int, all.len() as int) == Seq::<char>::empty());
    while from > 0 && size + utf8_width(chars[from - 1]) <= STDERR_CAP
        invariant
            from <= chars.len(),
            chars@ == all,
            size <= STDERR_CAP,
            size == utf8::encode_utf8(all.subrange(from as int, all.len() as int)).len(),
        decreases from,
    {
        size = size + utf8_width(chars[from - 1]);
        from = from - 1;
        proof {
            let longer = all.subrange(from as int, all.len() as int);
            assert(longer.drop_first() == all.subrange(from + 1, all.len() as int));
        }
    }
    proof {
        if from > 0 {
            let longer = all.subrange(from - 1, all.len() as int);
            assert(longer.drop_first() == all.subrange(from as int, all.len() as int));
        }
        lemma_tail_found(all, 0, from as int, STDERR_CAP as int);
        assert(all.subrange(0, all.len() as int) == all);
    }
    if from > 0 {
        let kept = buffer.as_str().substring_char(from, chars.len()).to_owned();
        *buffer = kept;
    } else {
        assert(all.subrange(0, all.len() as int) == all);
    }
}

/// Decodes a line of output.
pub fn decode_line(bytes: &[u8]) -> (line: String)
    ensures
        line@ == line_text(bytes@),
{
    text::trim_end(encoding::from_utf8_lossy(bytes).as_str())
}

/// The number in the percent field of a line of output, as text; nothing if the line reports no
/// progress.
pub fn percent_reading(bytes: &[u8]) -> (number: Option<String>)
    ensures
        match number {
            Some(n) => output::progress_fields(line_text(bytes@)) is Some && n@
                == output::percent_part(output::progress_fields(line_text(bytes@))->0[0]),
            None => output::progress_fields(line_text(bytes@)) is None,
        },
{
    output::percent_text(decode_line(bytes).as_str())
}

impl DownloadJob {
    /// Starts the record of a job.
    pub fn new(request: &DownloadRequest) -> (job: DownloadJob)
        ensures
            job@ == JobView::initial(request.id@),
            job@.well_formed(),
    {
        let job = DownloadJob {
            id: request.id.clone(),
            tracker: ProgressTracker::new(),
            stderr_tail: String::new(),
            final_path: None,
            outputs: Vec::new(),
            finished: false,
        };
        assert(text::texts(job.outputs@) =~= Seq::<Seq<char>>::empty());
        job
    }

    /// How the job ends when its process has.
    fn finish(&self, code: Option<i32>, was_present: bool) -> (done: Done)
        ensures
            done@ == self@.outcome(code, was_present),
    {
        let ok: bool = match code {
            Some(n) => n == 0,
            None => false,
        };
        if !was_present {
            // Cancelled jobs surface as cancelled, not as an error.
            Done { id: self.id.clone(), ok: false, path: None, error: None }
        } else if ok {
            let path: Option<String> = match &self.final_path {
                Some(path) => Some(path.clone()),
                None => None,
            };
            Done { id: self.id.clone(), ok: true, path, error: None }
        } else {
            Done {
                id: self.id.clone(),
                ok: false,
                path: None,
                error: Some(failure::friendly_error(self.stderr_tail.as_str())),
            }
        }
    }

    /// The paths written to.
    fn copy_outputs(&self) -> (list: Vec<String>)
        ensures
            text::texts(list@) == text::texts(self.outputs@),
    {
        let mut list: Vec<String> = Vec::new();
        let mut i: usize = 0;
        while i < self.outputs.len()
            invariant
                i <= self.outputs.len(),
                list@.len() == i,
                forall|j: int| 0 <= j < i ==> list@[j]@ == self.outputs@[j]@,
            decreases self.outputs.len() - i,
        {
            list.push(self.outputs[i].clone());
            i = i + 1;
        }
        assert(text::texts(list@) =~= text::texts(self.outputs@));
        list
    }

    /// Takes one event, and says what is to be done about it.
    pub fn on_event(&mut self, event: &JobEvent) -> (action: JobAction)
        requires
            !old(self)@.overflows(event@),
        ensures
            (final(self)@, action@) == old(self)@.step(event@),
            old(self)@.well_formed() ==> final(self)@.well_formed(),
    {
        if self.finished {
            return JobAction::Nothing;
        }
        match event {
            JobEvent::Stdout { bytes, percent } => {
                let line = decode_line(bytes.as_slice());
                let emission = output::handle_stdout_line(
                    self.id.as_str(),
                    line.as_str(),
                    *percent,
                    &mut self.tracker,
                    &mut self.final_path,
                    &mut self.outputs,
                );
                proof {
                    if old(self)@.well_formed() {
                        output::law_line_keeps_state(old(self)@.output, self.id@, line@, *percent);
                    }
                }
                match emission {
                    Some(e) => JobAction::Emit(e),
                    None => JobAction::Nothing,
                }
            },
            JobEvent::Stderr { bytes } => {
                let chunk = encoding::from_utf8_lossy(bytes.as_slice());
                append_bounded(&mut self.stderr_tail, chunk.as_str());
                proof {
                    law_error_output_is_bounded(old(self)@.stderr + chunk@);
                }
                JobAction::Nothing
            },
            JobEvent::Terminated { code, was_present } => {
                self.finished = true;
                let discard: Vec<String> = if *was_present {
                    Vec::new()
                } else {
                    // A killed engine cannot clean up after itself.
                    self.copy_outputs()
                };
                assert(*was_present ==> text::texts(discard@) =~= Seq::<Seq<char>>::empty());
                JobAction::Finish { discard, done: self.finish(*code, *was_present) }
            },
            JobEvent::Other => JobAction::Nothing,
        }
    }

    /// Takes the close of the engine's event stream. Where no end of the process came before it,
    /// it stands for one without an exit code, so that the outcome is told in any case.
    pub fn closed(&mut self, was_present: bool) -> (action: JobAction)
        ensures
            (final(self)@, action@) == old(self)@.step(
                EventView::Terminated { code: None, was_present },
            ),
            old(self)@.well_formed() ==> final(self)@.well_formed(),
    {
        self.on_event(&JobEvent::Terminated { code: None, was_present })
    }

    /// Takes one event as `on_event` does, unless it is one destination more than can be
    /// counted: then the job stays as it is, and there is no action.
    pub fn take_event(&mut self, event: &JobEvent) -> (action: Option<JobAction>)
        ensures
            match action {
                Some(taken) => {
                    &&& !old(self)@.overflows(event@)
                    &&& (final(self)@, taken@) == old(self)@.step(event@)
                },
                None => old(self)@.overflows(event@) && *final(self) == *old(self),
            },
            old(self)@.well_formed() ==> final(self)@.well_formed(),
    {
        if !self.finished && self.tracker.destinations == u32::MAX {
            if let JobEvent::Stdout { bytes, .. } = event {
                let line = decode_line(bytes.as_slice());
                if text::starts_with(line.as_str(), "[download] Destination: ") {
                    return None;
                }
            }
        }
        Some(self.on_event(event))
    }
}

/// Starts a download: the arguments that the engine is spawned with, and the record of the job
/// that follows its output. `ffmpeg_dir` is where a bundled ffmpeg was found.
pub fn start_download(request: &DownloadRequest, ffmpeg_dir: Option<String>) -> (started: (
    Vec<String>,
    DownloadJob,
))
    ensures
        text::texts(started.0@) == request::args_of(*request, text::optional(ffmpeg_dir)),
        started.1@ == JobView::initial(request.id@),
        started.1@.well_formed(),
{
    (request::build_args(request, ffmpeg_dir), DownloadJob::new(request))
}

/// A job that has just been started is well formed.
pub proof fn lemma_initial_is_well_formed(id: Seq<char>)
    ensures
        JobView::initial(id).well_formed(),
{
}

/// However much is printed on the error stream, what is kept of it takes at most `STDERR_CAP`
/// bytes and is the end of what was printed.
pub proof fn law_error_output_is_bounded(s: Seq<char>)
    ensures
        utf8::encode_utf8(bounded_tail(s, STDERR_CAP as int)).len() <= STDERR_CAP,
        text::ends_with(s, bounded_tail(s, STDERR_CAP as int)),
    decreases s.len(),
{
    if s.len() == 0 || utf8::encode_utf8(s).len() <= STDERR_CAP {
        assert(s.subrange(0, s.len() as int) == s);
        if s.len() == 0 {
            assert(utf8::encode_utf8(s).len() == 0);
        }
    } else {
        let rest = s.drop_first();
        law_error_output_is_bounded(rest);
        let kept = bounded_tail(rest, STDERR_CAP as int);
        assert(s.subrange(s.len() - kept.len(), s.len() as int) == rest.subrange(
            rest.len() - kept.len(),
            rest.len() as int,
        ));
    }
}

/// What is kept of the error output is all that fits: a longer end of it would be too long.
pub proof fn law_error_output_is_kept_where_it_fits(s: Seq<char>, from: int)
    requires
        0 <= from < s.len() - bounded_tail(s, STDERR_CAP as int).len(),
    ensures
        utf8::encode_utf8(s.subrange(from, s.len() as int)).len() > STDERR_CAP,
    decreases s.len(),
{
    law_error_output_is_bounded(s);
    if from == 0 {
        assert(s.subrange(0, s.len() as int) =~= s);
    } else {
        let rest = s.drop_first();
        if utf8::encode_utf8(s).len() > STDERR_CAP {
            law_error_output_is_kept_where_it_fits(rest, from - 1);
            assert(rest.subrange(from - 1, rest.len() as int) =~= s.subrange(
                from,
                s.len() as int,
            ));
        }
    }
}

/// An event changes what it is about and nothing else: output the output state, error output
/// what is kept of it, the end of the process that the outcome is told.
pub proof fn law_event_changes_its_own_part(job: JobView, event: EventView)
    requires
        !job.finished,
    ensures
        ({
            let (after, action) = job.step(event);
            &&& after.id == job.id
            &&& !(event is Stdout) ==> after.output == job.output
            &&& !(event is Stderr) ==> after.stderr == job.stderr
            &&& after.finished == (event is Terminated)
            &&& (event is Stderr || event is Other) ==> action is Nothing
            &&& action is Emit ==> event is Stdout
        }),
{
}

/// A line on the standard output does to the job what the line does, white space at its end
/// aside.
pub proof fn law_line_is_read(
    job: JobView,
    bytes: Seq<u8>,
    percent: Double,
    blank: Seq<char>,
    line: Seq<char>,
)
    requires
        !job.finished,
        encoding::lossy_text(bytes) == line + blank,
        text::is_blank(blank),
        line.len() > 0 ==> !text::is_white_space(line[line.len() - 1]),
    ensures
        ({
            let (after, action) = job.step(EventView::Stdout { bytes, percent });
            let (output, emission) = output::line_step(job.output, job.id, line, percent);
            &&& after.output == output
            &&& emission is None ==> action is Nothing
            &&& emission is Some ==> action == ActionView::Emit(emission->0)
        }),
{
    text::law_trim_end(line, blank);
}

/// How a job ends: cancelled, with its files given up; done, with its final path; or failed,
/// with the reason that its error output gives.
pub proof fn law_outcome(job: JobView, code: Option<i32>, was_present: bool)
    requires
        !job.finished,
    ensures
        ({
            let action = job.step(EventView::Terminated { code, was_present }).1;
            &&& action is Finish
            &&& action->done.id == job.id
            &&& action->done.ok == (was_present && code == Some(0i32))
            &&& action->done.path == (if was_present && code == Some(0i32) {
                job.output.final_path
            } else {
                None
            })
            &&& action->done.error == (if was_present && code != Some(0i32) {
                Some(failure::download_failure(job.stderr))
            } else {
                None
            })
            &&& action->discard == (if was_present {
                Seq::<Seq<char>>::empty()
            } else {
                job.output.outputs
            })
        }),
{
}

/// Error output of up to 4096 bytes is kept whole, and of longer output no more than that.
pub proof fn law_how_much_error_output_is_kept(s: Seq<char>)
    ensures
        utf8::encode_utf8(s).len() <= 4096 ==> bounded_tail(s, STDERR_CAP as int) == s,
        utf8::encode_utf8(bounded_tail(s, STDERR_CAP as int)).len() <= 4096,
{
    law_error_output_is_bounded(s);
}

/// An event is refused only where it is a destination line, and the count of them is full.
pub proof fn law_only_a_full_count_refuses(job: JobView, event: EventView)
    ensures
        job.overflows(event) <==> {
            &&& !job.finished
            &&& job.output.tracker.destinations >= 0xffff_ffff
            &&& event is Stdout
            &&& exists|path: Seq<char>|
                text::trimmed_end(encoding::lossy_text(event->Stdout_bytes))
                    == #[trigger] ("[download] Destination: "@ + path)
        },
{
    if event is Stdout {
        text::law_begins_with(
            text::trimmed_end(encoding::lossy_text(event->Stdout_bytes)),
            "[download] Destination: "@,
        );
    }
}

/// A new job has seen nothing: no line, no path, no error output.
pub proof fn law_new_job_is_empty(id: Seq<char>)
    ensures
        ({
            let job = JobView::initial(id);
            &&& job.id == id && !job.finished && job.stderr.len() == 0
            &&& job.output.final_path is None && job.output.outputs.len() == 0
            &&& job.output.tracker.destinations == 0 && job.output.tracker.stage.len() == 0
            &&& job.output.tracker.last_percent.bits == 0
        }),
{
}

/// The models of a job, of what happens to it and of what it asks for have each part in its
/// place.
pub proof fn law_models_hold_each_part(
    job: DownloadJob,
    done: Done,
    bytes: Vec<u8>,
    percent: Double,
    code: Option<i32>,
    was_present: bool,
    emission: Emission,
    discard: Vec<String>,
)
    ensures
        done@ == (DoneView {
            id: done.id@,
            ok: done.ok,
            path: text::optional(done.path),
            error: text::optional(done.error),
        }),
        (JobEvent::Stdout { bytes, percent })@ == (EventView::Stdout { bytes: bytes@, percent }),
        (JobEvent::Stderr { bytes })@ == (EventView::Stderr { bytes: bytes@ }),
        (JobEvent::Terminated { code, was_present })@ == (EventView::Terminated {
            code,
            was_present,
        }),
        JobEvent::Other@ == EventView::Other,
        JobAction::Nothing@ == ActionView::Nothing,
        JobAction::Emit(emission)@ == ActionView::Emit(emission@),
        (JobAction::Finish { discard, done })@ == (ActionView::Finish {
            discard: text::texts(discard@),
            done: done@,
        }),
        job@ == (JobView {
            id: job.id@,
            output: output::output_view(job.tracker, job.final_path, job.outputs),
            stderr: job.stderr_tail@,
            finished: job.finished,
        }),
{
}

} // verus!
