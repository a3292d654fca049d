//! The jobs that are running, by the id the queue gave them.

use vstd::prelude::*;

use crate::job::{ActionView, DoneView, EventView, JobView};
use crate::text;

verus! {

/// What is kept for one job.
struct Entry<C> {
    id: String,
    value: C,
}

/// Something kept for each running job, keyed by the queue item's id.
pub struct JobTable<C> {
    entries: Vec<Entry<C>>,
}

/// Some entry has the id.
spec fn has_entry<C>(entries: Seq<Entry<C>>, id: Seq<char>) -> bool {
    exists|i: int| 0 <= i < entries.len() && (#[trigger] entries[i]).id@ == id
}

/// The value of the entry that has the id.
spec fn entry_value<C>(entries: Seq<Entry<C>>, id: Seq<char>) -> C {
    entries[choose|i: int| 0 <= i < entries.len() && (#[trigger] entries[i]).id@ == id].value
}

/// No two entries have the same id.
spec fn distinct<C>(entries: Seq<Entry<C>>) -> bool {
    forall|i: int, j: int|
        0 <= i < j < entries.len() ==> (#[trigger] entries[i]).id@ != (#[trigger] entries[j]).id@
}

spec fn as_map<C>(entries: Seq<Entry<C>>) -> Map<Seq<char>, C> {
    Map::new(|id: Seq<char>| has_entry(entries, id), |id: Seq<char>| entry_value(entries, id))
}

proof fn lemma_value<C>(entries: Seq<Entry<C>>, i: int)
    requires
        distinct(entries),
        0 <= i < entries.len(),
    ensures
        as_map(entries).contains_key(entries[i].id@),
        as_map(entries)[entries[i].id@] == entries[i].value,
{
    let id = entries[i].id@;
    let j = choose|j: int| 0 <= j < entries.len() && (#[trigger] entries[j]).id@ == id;
    assert(entries[i].id@ == id);
    assert(i == j) by {
        if i < j {
            assert(entries[i].id@ != entries[j].id@);
        }
        if j < i {
            assert(entries[j].id@ != entries[i].id@);
        }
    }
}

impl<C> View for JobTable<C> {
    type V = Map<Seq<char>, C>;

    closed spec fn view(&self) -> Map<Seq<char>, C> {
        as_map(self.entries@)
    }
}

impl<C> JobTable<C> {
    /// No id is listed twice.
    pub closed spec fn well_formed(&self) -> bool {
        distinct(self.entries@)
    }

    /// A table without jobs.
    pub fn new() -> (table: JobTable<C>)
        ensures
            table.well_formed(),
            table@ == Map::<Seq<char>, C>::empty(),
    {
        let table = JobTable { entries: Vec::new() };
        assert(table@ =~= Map::<Seq<char>, C>::empty());
        table
    }

    /// The place of an id.
    fn find(&self, id: &str) -> (found: Option<usize>)
        requires
            self.well_formed(),
        ensures
            match found {
                Some(i) => i < self.entries@.len() && self.entries@[i as int].id@ == id@
                    && self@.contains_key(id@) && self@[id@] == self.entries@[i as int].value,
                None => !self@.contains_key(id@),
            },
    {
        let mut i: usize = 0;
        while i < self.entries.len()
            invariant
                i <= self.entries.len(),
                self.well_formed(),
                forall|j: int| 0 <= j < i ==> (#[trigger] self.entries@[j]).id@ != id@,
            decreases self.entries.len() - i,
        {
            if text::same_text(self.entries[i].id.as_str(), id) {
                proof {
                    lemma_value(self.entries@, i as int);
                }
                return Some(i);
            }
            i = i + 1;
        }
        None
    }

    /// Keeps a value for a job, in place of any it had.
    pub fn insert(&mut self, id: String, value: C)
        requires
            old(self).well_formed(),
        ensures
            final(self).well_formed(),
            final(self)@ == old(self)@.insert(id@, value),
    {
        let ghost before = self.entries@;
        let found = self.find(id.as_str());
        match found {
            Some(i) => {
                self.entries.set(i, Entry { id, value });
                proof {
                    let now = self.entries@;
                    assert forall|a: int, b: int| 0 <= a < b < now.len() implies (
                    #[trigger] now[a]).id@ != (#[trigger] now[b]).id@ by {
                        assert(before[a].id@ != before[b].id@);
                    }
                    lemma_same_elsewhere(before, now, i as int);
                    lemma_value(now, i as int);
                    assert(self@ =~= old(self)@.insert(id@, value));
                }
            },
            None => {
                self.entries.push(Entry { id, value });
                proof {
                    let now = self.entries@;
                    assert forall|a: int, b: int| 0 <= a < b < now.len() implies (
                    #[trigger] now[a]).id@ != (#[trigger] now[b]).id@ by {
                        if b < before.len() {
                            assert(before[a].id@ != before[b].id@);
                        } else {
                            assert(has_entry(before, before[a].id@));
                        }
                    }
                    lemma_value(now, now.len() - 1);
                    assert forall|key: Seq<char>| key != id@ implies has_entry(now, key)
                        == #[trigger] has_entry(before, key) && (has_entry(before, key)
                        ==> entry_value(now, key) == entry_value(before, key)) by {
                        if has_entry(before, key) {
                            let k = choose|k: int|
                                0 <= k < before.len() && (#[trigger] before[k]).id@ == key;
                            assert(now[k] == before[k]);
                            lemma_value(before, k);
                            lemma_value(now, k);
                        }
                        if has_entry(now, key) {
                            let k = choose|k: int|
                                0 <= k < now.len() && (#[trigger] now[k]).id@ == key;
                            assert(before[k] == now[k]);
                        }
                    }
                    assert(self@ =~= old(self)@.insert(id@, value));
                }
            },
        }
    }

    /// Takes out what is kept for a job.
    pub fn remove(&mut self, id: &str) -> (taken: Option<C>)
        requires
            old(self).well_formed(),
        ensures
            final(self).well_formed(),
            final(self)@ == old(self)@.remove(id@),
            match taken {
                Some(value) => old(self)@.contains_key(id@) && value == old(self)@[id@],
                None => !old(self)@.contains_key(id@),
            },
    {
        let ghost before = self.entries@;
        match self.find(id) {
            Some(i) => {
                let entry = self.entries.remove(i);
                proof {
                    let now = self.entries@;
                    assert forall|a: int, b: int| 0 <= a < b < now.len() implies (
                    #[trigger] now[a]).id@ != (#[trigger] now[b]).id@ by {
                        let c = if a < i {
                            a
                        } else {
                            a + 1
                        };
                        let d = if b < i {
                            b
                        } else {
                            b + 1
                        };
                        assert(before[c].id@ != before[d].id@);
                    }
                    assert forall|key: Seq<char>| #[trigger]
                        has_entry(now, key) == (has_entry(before, key) && key != id@) && (has_entry(
                            now,
                            key,
                        ) ==> entry_value(now, key) == entry_value(before, key)) by {
                        if has_entry(now, key) {
                            let k = choose|k: int|
                                0 <= k < now.len() && (#[trigger] now[k]).id@ == key;
                            let m = if k < i {
                                k
                            } else {
                                k + 1
                            };
                            assert(before[m] == now[k]);
                            if m < i {
                                assert(before[m].id@ != before[i as int].id@);
                            } else {
                                assert(before[i as int].id@ != before[m].id@);
                            }
                            lemma_value(before, m);
                            lemma_value(now, k);
                        }
                        if has_entry(before, key) && key != id@ {
                            let m = choose|m: int|
                                0 <= m < before.len() && (#[trigger] before[m]).id@ == key;
                            let k = if m < i {
                                m
                            } else {
                                m - 1
                            };
                            assert(now[k] == before[m]);
                        }
                    }
                    assert(self@ =~= old(self)@.remove(id@));
                }
                Some(entry.value)
            },
            None => {
                assert(self@ =~= old(self)@.remove(id@));
                None
            },
        }
    }

    /// What is kept for a job.
    pub fn get(&self, id: &str) -> (found: Option<&C>)
        requires
            self.well_formed(),
        ensures
            match found {
                Some(value) => self@.contains_key(id@) && *value == self@[id@],
                None => !self@.contains_key(id@),
            },
    {
        match self.find(id) {
            Some(i) => Some(&self.entries[i].value),
            None => None,
        }
    }
}

proof fn lemma_same_elsewhere<C>(before: Seq<Entry<C>>, now: Seq<Entry<C>>, i: int)
    requires
        distinct(before),
        distinct(now),
        0 <= i < before.len(),
        now.len() == before.len(),
        now[i].id@ == before[i].id@,
        forall|k: int| 0 <= k < before.len() && k != i ==> #[trigger] now[k] == before[k],
    ensures
        forall|key: Seq<char>| #[trigger] has_entry(now, key) == has_entry(before, key),
        forall|key: Seq<char>|
            key != before[i].id@ && has_entry(before, key) ==> #[trigger] entry_value(now, key)
                == entry_value(before, key),
{
    assert forall|key: Seq<char>| #[trigger] has_entry(now, key) == has_entry(before, key) by {
        if has_entry(now, key) {
            let k = choose|k: int| 0 <= k < now.len() && (#[trigger] now[k]).id@ == key;
            assert(before[k].id@ == key);
        }
        if has_entry(before, key) {
            let k = choose|k: int| 0 <= k < before.len() && (#[trigger] before[k]).id@ == key;
            assert(now[k].id@ == key);
        }
    }
    assert forall|key: Seq<char>|
        key != before[i].id@ && has_entry(before, key) implies #[trigger] entry_value(now, key)
        == entry_value(before, key) by {
        let k = choose|k: int| 0 <= k < before.len() && (#[trigger] before[k]).id@ == key;
        assert(now[k] == before[k]);
        lemma_value(before, k);
        lemma_value(now, k);
    }
}

/// Shared handle onto every engine process that was started. `C` is the handle of a process,
/// `J` that of the group it was put in, where the system has such groups.
///
/// A child is inserted when its job starts and removed when it terminates or is cancelled.
pub struct AppState<C, J> {
    pub children: JobTable<C>,
    pub jobs: JobTable<J>,
}

/// The model of an `AppState`.
pub struct StateView<C, J> {
    pub children: Map<Seq<char>, C>,
    pub jobs: Map<Seq<char>, J>,
}

impl<C, J> StateView<C, J> {
    /// The state without a job.
    pub open spec fn without(self, id: Seq<char>) -> StateView<C, J> {
        StateView { children: self.children.remove(id), jobs: self.jobs.remove(id) }
    }
}

impl<C, J> View for AppState<C, J> {
    type V = StateView<C, J>;

    open spec fn view(&self) -> StateView<C, J> {
        StateView { children: self.children@, jobs: self.jobs@ }
    }
}

/// How a job is to be cancelled.
pub enum Cancellation<C, J> {
    /// Kill the process and its group.
    Kill { child: C, job: Option<J> },
    /// The process has already terminated; only its group is left to be closed.
    Close { left: J },
    /// There is nothing of it left.
    Nothing,
}

impl<C, J> AppState<C, J> {
    /// Both tables are well formed.
    pub open spec fn well_formed(&self) -> bool {
        self.children.well_formed() && self.jobs.well_formed()
    }

    /// No job is running.
    pub fn new() -> (state: AppState<C, J>)
        ensures
            state.well_formed(),
            state@.children == Map::<Seq<char>, C>::empty(),
            state@.jobs == Map::<Seq<char>, J>::empty(),
    {
        AppState { children: JobTable::new(), jobs: JobTable::new() }
    }

    /// Registers the process of a job that has started, so that it can be found and killed.
    pub fn register(&mut self, id: String, child: C)
        requires
            old(self).well_formed(),
        ensures
            final(self).well_formed(),
            final(self)@.children == old(self)@.children.insert(id@, child),
            final(self)@.jobs == old(self)@.jobs,
    {
        self.children.insert(id, child);
    }

    /// Registers the group that the process of a job was put in.
    pub fn register_group(&mut self, id: String, job: J)
        requires
            old(self).well_formed(),
        ensures
            final(self).well_formed(),
            final(self)@.children == old(self)@.children,
            final(self)@.jobs == old(self)@.jobs.insert(id@, job),
    {
        self.jobs.insert(id, job);
    }

    /// The process of a running job, for pausing and resuming it.
    pub fn running(&self, id: &str) -> (child: Option<&C>)
        requires
            self.well_formed(),
        ensures
            match child {
                Some(c) => self@.children.contains_key(id@) && *c == self@.children[id@],
                None => !self@.children.contains_key(id@),
            },
    {
        self.children.get(id)
    }

    /// Forgets a job whose process has terminated. Says whether its process was still
    /// registered, and hands back the group to close. A job that was no longer registered has
    /// been cancelled.
    pub fn terminated(&mut self, id: &str) -> (ended: (bool, Option<J>))
        requires
            old(self).well_formed(),
        ensures
            final(self).well_formed(),
            final(self)@ == old(self)@.without(id@),
            ended.0 == old(self)@.children.contains_key(id@),
            match ended.1 {
                Some(job) => old(self)@.jobs.contains_key(id@) && job == old(self)@.jobs[id@],
                None => !old(self)@.jobs.contains_key(id@),
            },
    {
        let child = self.children.remove(id);
        let job = self.jobs.remove(id);
        (child.is_some(), job)
    }

    /// Takes a job out to be cancelled. Removing the process before it is killed is what makes
    /// its termination read as "cancelled" rather than "failed".
    pub fn cancel_download(&mut self, id: &str) -> (plan: Cancellation<C, J>)
        requires
            old(self).well_formed(),
        ensures
            final(self).well_formed(),
            final(self)@ == old(self)@.without(id@),
            match plan {
                Cancellation::Kill { child, job } => {
                    &&& old(self)@.children.contains_key(id@)
                    &&& child == old(self)@.children[id@]
                    &&& job == (if old(self)@.jobs.contains_key(id@) {
                        Some(old(self)@.jobs[id@])
                    } else {
                        None
                    })
                },
                Cancellation::Close { left } => {
                    &&& !old(self)@.children.contains_key(id@)
                    &&& old(self)@.jobs.contains_key(id@)
                    &&& left == old(self)@.jobs[id@]
                },
                Cancellation::Nothing => {
                    &&& !old(self)@.children.contains_key(id@)
                    &&& !old(self)@.jobs.contains_key(id@)
                },
            },
    {
        let child = self.children.remove(id);
        let job = self.jobs.remove(id);
        match child {
            Some(child) => Cancellation::Kill { child, job },
            None => match job {
                Some(left) => Cancellation::Close { left },
                None => Cancellation::Nothing,
            },
        }
    }
}

/// When a job is cancelled, the end of its process reads as cancelled: it is reported neither
/// as done nor as failed, whatever the exit code, and its partial files are given up.
pub proof fn law_cancelled_job_ends_cancelled<C, J>(
    state: StateView<C, J>,
    job: JobView,
    code: Option<i32>,
)
    requires
        !job.finished,
    ensures
        ({
            let was_present = state.without(job.id).children.contains_key(job.id);
            job.step(EventView::Terminated { code, was_present }).1 == (ActionView::Finish {
                discard: job.output.outputs,
                done: (DoneView { id: job.id, ok: false, path: None, error: None }),
            })
        }),
{
}

/// A registered job that nobody cancelled keeps its files when its process ends, and is
/// reported as done or as failed with a reason.
pub proof fn law_registered_job_ends_done_or_failed<C, J>(
    state: StateView<C, J>,
    job: JobView,
    code: Option<i32>,
)
    requires
        !job.finished,
        state.children.contains_key(job.id),
    ensures
        ({
            let was_present = state.children.contains_key(job.id);
            job.step(EventView::Terminated { code, was_present }).1 matches ActionView::Finish {
                discard,
                done,
            } && discard.len() == 0 && (done.ok || done.error is Some)
        }),
{
}

/// Cancelling or ending one job leaves all the others registered as they were.
pub proof fn law_other_jobs_stay<C, J>(state: StateView<C, J>, id: Seq<char>, other: Seq<char>)
    requires
        other != id,
    ensures
        state.without(id).children.contains_key(other) == state.children.contains_key(other),
        state.children.contains_key(other) ==> state.without(id).children[other]
            == state.children[other],
        state.without(id).jobs.contains_key(other) == state.jobs.contains_key(other),
        state.jobs.contains_key(other) ==> state.without(id).jobs[other] == state.jobs[other],
{
}

/// A job that has been taken out is not found again: cancelling it once more changes nothing.
pub proof fn law_cancel_twice_is_once<C, J>(state: StateView<C, J>, id: Seq<char>)
    ensures
        !state.without(id).children.contains_key(id),
        !state.without(id).jobs.contains_key(id),
        state.without(id).without(id) == state.without(id),
{
    assert(state.children.remove(id).remove(id) =~= state.children.remove(id));
    assert(state.jobs.remove(id).remove(id) =~= state.jobs.remove(id));
}

/// Forgetting a job takes out what is kept for it, and that alone.
pub proof fn law_forgotten_job_is_gone<C, J>(state: StateView<C, J>, id: Seq<char>, key: Seq<char>)
    ensures
        state.without(id).children.contains_key(key) <==> state.children.contains_key(key) && key
            != id,
        state.without(id).jobs.contains_key(key) <==> state.jobs.contains_key(key) && key != id,
{
}

/// The model of the state is that of its two tables.
pub proof fn law_model_of_the_state<C, J>(state: AppState<C, J>)
    ensures
        state@.children == state.children@,
        state@.jobs == state.jobs@,
{
}

} // verus!
