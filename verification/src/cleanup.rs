//! Deleting the half-written files that a job leaves behind.

use vstd::prelude::*;

use crate::text;

verus! {

/// The names that begin with `name`, in their order.
pub open spec fn partials_of(name: Seq<char>, entries: Seq<Seq<char>>) -> Seq<Seq<char>> {
    entries.filter(|entry: Seq<char>| text::begins_with(entry, name))
}

/// Of the entries of a directory, those to delete for an output of the given name: the file
/// itself and every sibling whose name begins with it, which covers `.part`, `.part-FragN` and
/// `.ytdl` files.
pub fn partials_in(name: &str, entries: &Vec<String>) -> (doomed: Vec<String>)
    ensures
        text::texts(doomed@) == partials_of(name@, text::texts(entries@)),
{
    let ghost names = text::texts(entries@);
    let ghost begins = |entry: Seq<char>| text::begins_with(entry, name@);
    let mut doomed: Vec<String> = Vec::new();
    let mut i: usize = 0;
    proof {
        reveal(Seq::filter);
        assert(names.subrange(0, 0) =~= Seq::<Seq<char>>::empty());
        assert(text::texts(doomed@) =~= Seq::<Seq<char>>::empty());
    }
    while i < entries.len()
        invariant
            i <= entries.len(),
            names == text::texts(entries@),
            begins == (|entry: Seq<char>| text::begins_with(entry, name@)),
            text::texts(doomed@) == names.subrange(0, i as int).filter(begins),
        decreases entries.len() - i,
    {
        let ghost before = text::texts(doomed@);
        proof {
            reveal(Seq::filter);
            assert(names.subrange(0, i + 1).drop_last() == names.subrange(0, i as int));
            assert(names.subrange(0, i + 1).last() == entries@[i as int]@);
        }
        if text::starts_with(entries[i].as_str(), name) {
            doomed.push(entries[i].clone());
            assert(text::texts(doomed@) =~= before.push(entries@[i as int]@));
        }
        i = i + 1;
    }
    assert(names.subrange(0, names.len() as int) == names);
    doomed
}

/// An entry of the directory is deleted exactly when its name begins with the output's name;
/// other jobs' downloads in the same folder are left untouched.
pub proof fn law_only_partials_are_deleted(
    name: Seq<char>,
    entries: Seq<Seq<char>>,
    entry: Seq<char>,
)
    ensures
        partials_of(name, entries).contains(entry) <==> entries.contains(entry)
            && text::begins_with(entry, name),
    decreases entries.len(),
{
    reveal(Seq::filter);
    if entries.len() > 0 {
        let shorter = entries.drop_last();
        law_only_partials_are_deleted(name, shorter, entry);
        let before = partials_of(name, shorter);
        let now = partials_of(name, entries);
        if before.contains(entry) {
            let i = choose|i: int| 0 <= i < before.len() && before[i] == entry;
            assert(now[i] == entry);
        }
        if shorter.contains(entry) {
            let i = choose|i: int| 0 <= i < shorter.len() && shorter[i] == entry;
            assert(entries[i] == entry);
        }
        if entry == entries.last() {
            assert(entries[entries.len() - 1] == entry);
            if text::begins_with(entry, name) {
                assert(now[now.len() - 1] == entry);
            }
        }
        if now.contains(entry) && !before.contains(entry) {
            let i = choose|i: int| 0 <= i < now.len() && now[i] == entry;
            if i < before.len() {
                assert(before[i] == entry);
            }
        }
        if entries.contains(entry) && !shorter.contains(entry) {
            let i = choose|i: int| 0 <= i < entries.len() && entries[i] == entry;
            if i < shorter.len() {
                assert(shorter[i] == entry);
            }
        }
    }
}

/// The file itself and its temporary companions all fall under its name.
pub proof fn law_companions_are_partials(name: Seq<char>, suffix: Seq<char>)
    ensures
        text::begins_with(name + suffix, name),
{
    assert((name + suffix).subrange(0, name.len() as int) == name);
}

/// Where an output lies: the path itself if that is absolute, otherwise the path joined to the
/// folder of the downloads.
pub fn resolve_output(output: &str, absolute: bool, joined: &str) -> (path: String)
    ensures
        path@ == (if absolute {
            output@
        } else {
            joined@
        }),
{
    if absolute {
        output.to_owned()
    } else {
        joined.to_owned()
    }
}

/// An output that a job has written to: its file name, if it has one, and the entries of its
/// folder, if that can be read.
#[derive(Debug)]
pub struct OutputListing {
    pub name: Option<String>,
    pub entries: Option<Vec<String>>,
}

/// The model of an `OutputListing`.
#[verifier::ext_equal]
pub struct OutputListingView {
    pub name: Option<Seq<char>>,
    pub entries: Option<Seq<Seq<char>>>,
}

impl View for OutputListing {
    type V = OutputListingView;

    open spec fn view(&self) -> OutputListingView {
        OutputListingView {
            name: text::optional(self.name),
            entries: match self.entries {
                Some(entries) => Some(text::texts(entries@)),
                None => None,
            },
        }
    }
}

/// The entries to delete for an output. None go where it has no name, or its folder cannot be
/// read.
pub open spec fn doomed_of(listing: OutputListingView) -> Seq<Seq<char>> {
    match (listing.name, listing.entries) {
        (Some(name), Some(entries)) => partials_of(name, entries),
        _ => seq![],
    }
}

/// For each output of a job, the entries of its folder to delete. An output without a name, or
/// whose folder cannot be read, is skipped.
pub fn cleanup_partials(outputs: &Vec<OutputListing>) -> (doomed: Vec<Vec<String>>)
    ensures
        doomed@.len() == outputs@.len(),
        forall|i: int|
            0 <= i < outputs@.len() ==> text::texts((#[trigger] doomed@[i])@) == doomed_of(
                outputs@[i]@,
            ),
{
    let mut doomed: Vec<Vec<String>> = Vec::new();
    let mut i: usize = 0;
    while i < outputs.len()
        invariant
            i <= outputs.len(),
            doomed@.len() == i,
            forall|j: int|
                0 <= j < i ==> text::texts((#[trigger] doomed@[j])@) == doomed_of(outputs@[j]@),
        decreases outputs.len() - i,
    {
        let list: Vec<String> = match (&outputs[i].name, &outputs[i].entries) {
            (Some(name), Some(entries)) => partials_in(name.as_str(), entries),
            _ => Vec::new(),
        };
        assert(text::texts(list@) =~= doomed_of(outputs@[i as int]@));
        doomed.push(list);
        i = i + 1;
    }
    doomed
}

/// An entry goes for an output exactly when the output has a name, its folder can be read and
/// has the entry, and the entry's name begins with the output's.
pub proof fn law_each_output_is_cleaned(listing: OutputListingView, entry: Seq<char>)
    ensures
        doomed_of(listing).contains(entry) <==> {
            &&& listing.name is Some
            &&& listing.entries is Some
            &&& listing.entries->0.contains(entry)
            &&& text::begins_with(entry, listing.name->0)
        },
{
    if let (Some(name), Some(entries)) = (listing.name, listing.entries) {
        law_only_partials_are_deleted(name, entries, entry);
    }
}

/// How an attempt to delete a file went.
#[derive(Clone, Copy, Debug, PartialEq, Eq, Structural)]
pub enum Removal {
    Removed,
    NotFound,
    /// Refused, for example because a process still holds the file open.
    Failed,
}

/// What to do after an attempt to delete a file.
#[derive(Clone, Copy, Debug, PartialEq, Eq, Structural)]
pub enum NextAttempt {
    GiveUp,
    /// Sleep so many milliseconds, and try again.
    SleepThenRetry { millis: u64 },
    /// Sleep so many milliseconds; there are no attempts left.
    SleepThenGiveUp { millis: u64 },
}

/// How often a file is tried at most.
pub const REMOVE_ATTEMPTS: u32 = 10;

/// What follows an attempt to delete a file. Attempts count from zero.
pub open spec fn next_attempt(attempt: int, removal: Removal, may_be_locked: bool) -> NextAttempt {
    if removal != Removal::Failed || !may_be_locked {
        NextAttempt::GiveUp
    } else if attempt + 1 < REMOVE_ATTEMPTS {
        NextAttempt::SleepThenRetry { millis: (50 * (attempt + 1)) as u64 }
    } else {
        NextAttempt::SleepThenGiveUp { millis: (50 * (attempt + 1)) as u64 }
    }
}

/// Decides what follows an attempt to delete a file. Where an open file cannot be deleted
/// (`may_be_locked`), a process killed a moment ago can still hold its handle for a short
/// while, so a failed attempt is repeated after a pause that grows. Elsewhere the first attempt
/// is authoritative. Attempts count from zero.
pub fn remove_file_retrying(attempt: u32, removal: Removal, may_be_locked: bool) -> (next:
    NextAttempt)
    requires
        attempt < REMOVE_ATTEMPTS,
    ensures
        next == next_attempt(attempt as int, removal, may_be_locked),
{
    match removal {
        Removal::Failed => if !may_be_locked {
            NextAttempt::GiveUp
        } else if attempt + 1 < REMOVE_ATTEMPTS {
            NextAttempt::SleepThenRetry { millis: 50 * (attempt as u64 + 1) }
        } else {
            NextAttempt::SleepThenGiveUp { millis: 50 * (attempt as u64 + 1) }
        },
        _ => NextAttempt::GiveUp,
    }
}

/// How many attempts are made from one on, if the attempts go as listed.
pub open spec fn attempts_from(attempt: int, outcomes: Seq<Removal>, may_be_locked: bool) -> int
    decreases outcomes.len() - attempt,
{
    if attempt < 0 || attempt >= outcomes.len() {
        0
    } else if next_attempt(attempt, outcomes[attempt], may_be_locked) is SleepThenRetry {
        1 + attempts_from(attempt + 1, outcomes, may_be_locked)
    } else {
        1
    }
}

/// How many attempts are made to delete a file, if the attempts go as listed.
pub open spec fn attempts_made(outcomes: Seq<Removal>, may_be_locked: bool) -> int {
    attempts_from(0, outcomes, may_be_locked)
}

/// However the attempts to delete a file go, at most `REMOVE_ATTEMPTS` of them are made, and
/// only one where files cannot be locked. They stop after the first that removed the file or
/// did not find it: every earlier one failed.
pub proof fn law_attempts_are_bounded(outcomes: Seq<Removal>, may_be_locked: bool)
    requires
        outcomes.len() >= REMOVE_ATTEMPTS,
    ensures
        ({
            let made = attempts_made(outcomes, may_be_locked);
            &&& 1 <= made <= REMOVE_ATTEMPTS
            &&& !may_be_locked ==> made == 1
            &&& forall|i: int|
                0 <= i < made - 1 ==> #[trigger] outcomes[i] == Removal::Failed
            &&& made == REMOVE_ATTEMPTS || !may_be_locked || outcomes[made - 1] != Removal::Failed
        }),
{
    lemma_attempts(0, outcomes, may_be_locked);
}

proof fn lemma_attempts(attempt: int, outcomes: Seq<Removal>, may_be_locked: bool)
    requires
        outcomes.len() >= REMOVE_ATTEMPTS,
        0 <= attempt < REMOVE_ATTEMPTS,
    ensures
        ({
            let end = attempt + attempts_from(attempt, outcomes, may_be_locked);
            &&& attempt < end <= REMOVE_ATTEMPTS
            &&& !may_be_locked ==> end == attempt + 1
            &&& forall|i: int|
                attempt <= i < end - 1 ==> #[trigger] outcomes[i] == Removal::Failed
            &&& end == REMOVE_ATTEMPTS || !may_be_locked || outcomes[end - 1] != Removal::Failed
        }),
    decreases REMOVE_ATTEMPTS - attempt,
{
    if next_attempt(attempt, outcomes[attempt], may_be_locked) is SleepThenRetry {
        lemma_attempts(attempt + 1, outcomes, may_be_locked);
    }
}

/// A failed attempt at a file that may be locked is followed by a pause of 50 milliseconds more
/// than the one before it; any other attempt is the last, without a pause.
pub proof fn law_pauses_grow(attempt: int, removal: Removal)
    requires
        0 <= attempt < REMOVE_ATTEMPTS,
    ensures
        ({
            let next = next_attempt(attempt, Removal::Failed, true);
            &&& attempt < 9 ==> next == (NextAttempt::SleepThenRetry {
                millis: (50 + 50 * attempt) as u64,
            })
            &&& attempt == 9 ==> next == (NextAttempt::SleepThenGiveUp { millis: 500 })
        }),
        next_attempt(attempt, removal, false) == NextAttempt::GiveUp,
        removal != Removal::Failed ==> next_attempt(attempt, removal, true) == NextAttempt::GiveUp,
{
}

/// The entries to delete are those of the parts of a listing, one after another, and an entry
/// goes by its own name alone.
pub proof fn law_partials_one_by_one(
    name: Seq<char>,
    first: Seq<Seq<char>>,
    second: Seq<Seq<char>>,
    rest: Seq<char>,
    entry: Seq<char>,
)
    ensures
        partials_of(name, first + second) == partials_of(name, first) + partials_of(name, second),
        partials_of(name, seq![name + rest]) == seq![name + rest],
        (forall|more: Seq<char>| entry != #[trigger] (name + more)) ==> partials_of(
            name,
            seq![entry],
        ) == Seq::<Seq<char>>::empty(),
{
    let begins = |e: Seq<char>| text::begins_with(e, name);
    Seq::filter_distributes_over_add(first, second, begins);
    law_companions_are_partials(name, rest);
    text::law_begins_with(entry, name);
    reveal(Seq::filter);
    assert(seq![name + rest].drop_last() =~= Seq::<Seq<char>>::empty());
    assert(seq![entry].drop_last() =~= Seq::<Seq<char>>::empty());
    let none = Seq::<Seq<char>>::empty();
    assert(none.filter(begins) =~= none);
    assert(partials_of(name, seq![name + rest]) =~= seq![name + rest]);
    assert((forall|more: Seq<char>| entry != #[trigger] (name + more)) ==> partials_of(
        name,
        seq![entry],
    ) =~= none);
}

/// The model of an output's listing has its name and its entries.
pub proof fn law_model_of_a_listing(listing: OutputListing)
    ensures
        listing@.name == text::optional(listing.name),
        listing.entries is None ==> listing@.entries is None,
        listing.entries is Some ==> listing@.entries == Some(text::texts(listing.entries->0@)),
{
}

} // verus!
