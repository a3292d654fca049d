//! What holds of a job over a whole run of events.

use vstd::prelude::*;
use vstd::utf8;

use crate::job::{self, ActionView, EventView, JobView, STDERR_CAP};
use crate::output::{self, EmissionView};
use crate::{encoding, text};

verus! {

/// The state of a job after a run of events.
pub open spec fn after(start: JobView, events: Seq<EventView>) -> JobView
    decreases events.len(),
{
    if events.len() == 0 {
        start
    } else {
        after(start, events.drop_last()).step(events.last()).0
    }
}

/// The state of a job before the event at an index.
pub open spec fn before_event(start: JobView, events: Seq<EventView>, i: int) -> JobView {
    after(start, events.subrange(0, i))
}

/// The action that the event at an index leads to.
pub open spec fn action_at(start: JobView, events: Seq<EventView>, i: int) -> ActionView {
    before_event(start, events, i).step(events[i]).1
}

/// The paths announced over a run of events, in order.
pub open spec fn announced(start: JobView, events: Seq<EventView>) -> Seq<Seq<char>>
    decreases events.len(),
{
    if events.len() == 0 {
        seq![]
    } else {
        let earlier = announced(start, events.drop_last());
        match after(start, events.drop_last()).step(events.last()).1 {
            ActionView::Emit(EmissionView::File { id, path }) => earlier.push(path),
            _ => earlier,
        }
    }
}

/// Everything printed on the error stream over a run of events, up to the end of the process.
pub open spec fn error_output(events: Seq<EventView>) -> Seq<char>
    decreases events.len(),
{
    if events.len() == 0 {
        seq![]
    } else {
        let earlier = error_output(events.drop_last());
        match events.last() {
            EventView::Stderr { bytes } => if terminated(events.drop_last()) {
                earlier
            } else {
                earlier + encoding::lossy_text(bytes)
            },
            _ => earlier,
        }
    }
}

/// The end of the process is among the events.
pub open spec fn terminated(events: Seq<EventView>) -> bool {
    exists|i: int| 0 <= i < events.len() && #[trigger] events[i] is Terminated
}

/// An event is a line at which a stage begins.
pub open spec fn begins_stage(event: EventView) -> bool {
    match event {
        EventView::Stdout { bytes, percent } => output::enters_stage(job::line_text(bytes)),
        _ => false,
    }
}

proof fn lemma_finished_iff_terminated(start: JobView, events: Seq<EventView>)
    requires
        !start.finished,
    ensures
        after(start, events).finished == terminated(events),
    decreases events.len(),
{
    if events.len() > 0 {
        let earlier = events.drop_last();
        lemma_finished_iff_terminated(start, earlier);
        if terminated(earlier) {
            let i = choose|i: int| 0 <= i < earlier.len() && #[trigger] earlier[i] is Terminated;
            assert(events[i] is Terminated);
        }
        if events.last() is Terminated {
            assert(events[events.len() - 1] is Terminated);
        }
        if terminated(events) && !(events.last() is Terminated) {
            let i = choose|i: int| 0 <= i < events.len() && #[trigger] events[i] is Terminated;
            assert(earlier[i] is Terminated);
        }
    }
}

/// The outcome of a job is told exactly once: at the first end of its process, and at no other
/// event.
pub proof fn law_outcome_told_once(start: JobView, events: Seq<EventView>, i: int)
    requires
        !start.finished,
        0 <= i < events.len(),
    ensures
        action_at(start, events, i) is Finish <==> {
            &&& events[i] is Terminated
            &&& forall|j: int| 0 <= j < i ==> !(#[trigger] events[j] is Terminated)
        },
{
    let earlier = events.subrange(0, i);
    lemma_finished_iff_terminated(start, earlier);
    assert forall|j: int| 0 <= j < i implies earlier[j] == #[trigger] events[j] by {}
    if terminated(earlier) {
        let j = choose|j: int| 0 <= j < earlier.len() && #[trigger] earlier[j] is Terminated;
        assert(events[j] is Terminated);
    } else {
        assert forall|j: int| 0 <= j < i implies !(#[trigger] events[j] is Terminated) by {
            assert(!(earlier[j] is Terminated));
        }
    }
}

/// A run of events and the close of the stream after it, which ends a job that has not ended.
pub open spec fn with_close(events: Seq<EventView>, was_present: bool) -> Seq<EventView> {
    events.push(EventView::Terminated { code: None, was_present })
}

/// Whatever the events, by the time the stream is closed the outcome has been told exactly once,
/// and nothing was announced after it.
pub proof fn law_outcome_is_always_told(
    start: JobView,
    events: Seq<EventView>,
    was_present: bool,
) -> (told: int)
    requires
        !start.finished,
    ensures
        0 <= told < with_close(events, was_present).len(),
        action_at(start, with_close(events, was_present), told) is Finish,
        forall|i: int|
            0 <= i < told ==> !(#[trigger] action_at(start, with_close(events, was_present), i)
                is Finish),
        forall|i: int|
            told < i < with_close(events, was_present).len() ==> #[trigger] action_at(
                start,
                with_close(events, was_present),
                i,
            ) is Nothing,
        after(start, with_close(events, was_present)).finished,
{
    let all = with_close(events, was_present);
    let told = lemma_first_end(all, 0);
    law_outcome_told_once(start, all, told);
    assert forall|i: int| 0 <= i < told implies !(#[trigger] action_at(start, all, i) is Finish) by {
        law_outcome_told_once(start, all, i);
    }
    assert forall|i: int| told < i < all.len() implies #[trigger] action_at(
        start,
        all,
        i,
    ) is Nothing by {
        let earlier = all.subrange(0, i);
        assert(earlier[told] is Terminated);
        lemma_finished_iff_terminated(start, earlier);
    }
    assert(all[told] is Terminated);
    lemma_finished_iff_terminated(start, all);
    told
}

/// Finds the first end of the process among events that end with one.
proof fn lemma_first_end(events: Seq<EventView>, from: int) -> (first: int)
    requires
        0 <= from < events.len(),
        events.last() is Terminated,
        forall|i: int| 0 <= i < from ==> !(#[trigger] events[i] is Terminated),
    ensures
        from <= first < events.len(),
        events[first] is Terminated,
        forall|i: int| 0 <= i < first ==> !(#[trigger] events[i] is Terminated),
    decreases events.len() - from,
{
    if events[from] is Terminated {
        from
    } else {
        lemma_first_end(events, from + 1)
    }
}

/// Once the outcome has been told, a job announces nothing more and changes no more.
pub proof fn law_finished_is_final(start: JobView, events: Seq<EventView>)
    requires
        start.finished,
    ensures
        after(start, events) == start,
        forall|i: int| 0 <= i < events.len() ==> action_at(start, events, i) is Nothing,
    decreases events.len(),
{
    if events.len() > 0 {
        law_finished_is_final(start, events.drop_last());
    }
    assert forall|i: int| 0 <= i < events.len() implies action_at(start, events, i) is Nothing by {
        law_finished_is_final(start, events.subrange(0, i));
    }
}

/// Every run of events keeps a job well formed: the percentage is a number, no path is listed
/// twice, the final path is listed, and the error output is within its bound.
pub proof fn law_run_keeps_job(start: JobView, events: Seq<EventView>)
    requires
        start.well_formed(),
    ensures
        after(start, events).well_formed(),
    decreases events.len(),
{
    if events.len() > 0 {
        law_run_keeps_job(start, events.drop_last());
        let state = after(start, events.drop_last());
        match events.last() {
            EventView::Stdout { bytes, percent } => {
                output::law_line_keeps_state(
                    state.output,
                    state.id,
                    job::line_text(bytes),
                    percent,
                );
            },
            EventView::Stderr { bytes } => {
                job::law_error_output_is_bounded(state.stderr + encoding::lossy_text(bytes));
            },
            _ => {},
        }
    }
}

/// The paths that a fresh job has listed are those it has announced, each of them once.
pub proof fn law_listed_paths_are_announced(id: Seq<char>, events: Seq<EventView>)
    ensures
        after(JobView::initial(id), events).output.outputs == announced(
            JobView::initial(id),
            events,
        ),
        announced(JobView::initial(id), events).no_duplicates(),
{
    let start = JobView::initial(id);
    lemma_announced(start, events);
    assert(start.output.outputs + announced(start, events) == announced(start, events));
    job::lemma_initial_is_well_formed(id);
    law_run_keeps_job(start, events);
}

proof fn lemma_announced(start: JobView, events: Seq<EventView>)
    ensures
        after(start, events).output.outputs == start.output.outputs + announced(start, events),
    decreases events.len(),
{
    if events.len() == 0 {
        assert(start.output.outputs + announced(start, events) == start.output.outputs);
    } else {
        lemma_announced(start, events.drop_last());
        let state = after(start, events.drop_last());
        match events.last() {
            EventView::Stdout { bytes, percent } => {
                output::law_each_path_announced_once(
                    state.output,
                    state.id,
                    job::line_text(bytes),
                    percent,
                );
            },
            _ => {},
        }
        assert(after(start, events).output.outputs == start.output.outputs + announced(
            start,
            events,
        ));
    }
}

proof fn lemma_encoded_len(a: Seq<char>, b: Seq<char>)
    ensures
        utf8::encode_utf8(a + b).len() == utf8::encode_utf8(a).len() + utf8::encode_utf8(b).len(),
    decreases a.len(),
{
    if a.len() == 0 {
        assert(a + b == b);
    } else {
        assert((a + b).drop_first() == a.drop_first() + b);
        lemma_encoded_len(a.drop_first(), b);
    }
}

proof fn lemma_tail_of_tail(a: Seq<char>, b: Seq<char>, cap: int)
    ensures
        job::bounded_tail(job::bounded_tail(a, cap) + b, cap) == job::bounded_tail(a + b, cap),
    decreases a.len(),
{
    if a.len() > 0 && utf8::encode_utf8(a).len() > cap {
        lemma_encoded_len(a, b);
        assert((a + b).drop_first() == a.drop_first() + b);
        lemma_tail_of_tail(a.drop_first(), b, cap);
    }
}

/// What a fresh job keeps of its error output is the end of everything that was printed, as if
/// it had all been printed at once.
pub proof fn law_kept_error_output(id: Seq<char>, events: Seq<EventView>)
    ensures
        after(JobView::initial(id), events).stderr == job::bounded_tail(
            error_output(events),
            STDERR_CAP as int,
        ),
    decreases events.len(),
{
    let start = JobView::initial(id);
    if events.len() > 0 {
        let earlier = events.drop_last();
        law_kept_error_output(id, earlier);
        lemma_finished_iff_terminated(start, earlier);
        match events.last() {
            EventView::Stderr { bytes } => {
                lemma_tail_of_tail(
                    error_output(earlier),
                    encoding::lossy_text(bytes),
                    STDERR_CAP as int,
                );
            },
            _ => {},
        }
    }
}

/// Between two events with no start of a stage between them, the percentage reached does not
/// fall and the stage stays.
pub proof fn law_percent_rises_within_a_stage(
    start: JobView,
    events: Seq<EventView>,
    i: int,
    j: int,
)
    requires
        start.well_formed(),
        0 <= i <= j <= events.len(),
        forall|k: int| i <= k < j ==> !begins_stage(#[trigger] events[k]),
    ensures
        before_event(start, events, j).output.tracker.last_percent.at_least(
            before_event(start, events, i).output.tracker.last_percent,
        ),
        before_event(start, events, j).output.tracker.stage == before_event(
            start,
            events,
            i,
        ).output.tracker.stage,
    decreases j - i,
{
    law_run_keeps_job(start, events.subrange(0, i));
    if i < j {
        law_percent_rises_within_a_stage(start, events, i, j - 1);
        let longer = events.subrange(0, j);
        assert(longer.drop_last() == events.subrange(0, j - 1));
        assert(longer.last() == events[j - 1]);
        let state = before_event(start, events, j - 1);
        law_run_keeps_job(start, events.subrange(0, j - 1));
        match events[j - 1] {
            EventView::Stdout { bytes, percent } => {
                output::law_percent_falls_only_between_stages(
                    state.output,
                    state.id,
                    job::line_text(bytes),
                    percent,
                );
            },
            _ => {},
        }
    }
}

/// A cancelled job is reported neither as done nor as failed, whatever its exit code, and all
/// the paths it wrote to are given up.
pub proof fn law_cancelled_is_no_failure(job: JobView, code: Option<i32>)
    requires
        !job.finished,
    ensures
        job.step(EventView::Terminated { code, was_present: false }).1 == (ActionView::Finish {
            discard: job.output.outputs,
            done: (job::DoneView { id: job.id, ok: false, path: None, error: None }),
        }),
{
}

/// A job that was not cancelled keeps all its files, and it fails with a reason exactly when
/// its exit code is not zero.
pub proof fn law_kept_files_and_reason(job: JobView, code: Option<i32>)
    requires
        !job.finished,
    ensures
        job.step(EventView::Terminated { code, was_present: true }).1 matches ActionView::Finish {
            discard,
            done,
        } && discard.len() == 0 && done.ok == (code == Some(0i32)) && (done.error is Some) != done.ok
            && (done.ok ==> done.path == job.output.final_path),
{
}

} // verus!
