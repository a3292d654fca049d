//! Turning what the engine printed on its error stream into one readable message.

use vstd::prelude::*;

use crate::{encoding, text};

verus! {

/// The greatest index below `n` that has the property.
pub open spec fn last_where(n: int, holds: spec_fn(int) -> bool) -> Option<int>
    decreases n,
{
    if n <= 0 {
        None
    } else if holds(n - 1) {
        Some(n - 1)
    } else {
        last_where(n - 1, holds)
    }
}

/// The last line that has the property; where there is none, the last line; where there are
/// no lines, nothing.
pub open spec fn line_or_last(list: Seq<Seq<char>>, holds: spec_fn(int) -> bool) -> Seq<char> {
    match last_where(list.len() as int, holds) {
        Some(i) => list[i],
        None => if list.len() > 0 {
            list[list.len() - 1]
        } else {
            seq![]
        },
    }
}

/// A line without the mark `ERROR:` and the white space around it.
pub open spec fn unmarked(line: Seq<char>) -> Seq<char> {
    text::trimmed(text::trimmed_start_of(text::trimmed(line), "ERROR:"@))
}

/// The line of a download's error output that says why it failed.
pub open spec fn download_failure_line(stderr: Seq<char>) -> Seq<char> {
    let list = text::line_parts(stderr);
    unmarked(line_or_last(list, |i: int| text::has_text(list[i], "ERROR"@)))
}

/// The line of a probe's error output that says why it failed; `lowered` holds the lines in
/// lower case.
pub open spec fn probe_failure_line(list: Seq<Seq<char>>, lowered: Seq<Seq<char>>) -> Seq<char> {
    unmarked(
        line_or_last(
            list,
            |i: int| text::has_text(list[i], "ERROR"@) || text::has_text(lowered[i], "error"@),
        ),
    )
}

/// The cause of a failure, in lower case, looks like an engine that the site has outgrown.
pub open spec fn looks_outdated(lowered: Seq<char>) -> bool {
    text::has_text(lowered, "unsupported url"@) || text::has_text(lowered, "unable to extract"@)
}

/// The message for a failure: the line itself, with the hint where the cause looks like an
/// outdated engine, and the fallback in place of an empty line.
pub open spec fn message(
    line: Seq<char>,
    lowered: Seq<char>,
    hint: Seq<char>,
    fallback: Seq<char>,
) -> Seq<char> {
    if looks_outdated(lowered) {
        line + hint
    } else if line.len() == 0 {
        fallback
    } else {
        line
    }
}

/// What is said after a failed download whose engine looks outdated.
pub open spec fn download_hint() -> Seq<char> {
    "\n\nThe site may have changed — try \"Update engine\" and download again."@
}

/// What is said of a failed download that left no reason.
pub open spec fn download_fallback() -> Seq<char> {
    "The download failed. Check the post is public, then try again."@
}

/// What is said after a failed probe whose engine looks outdated.
pub open spec fn probe_hint() -> Seq<char> {
    "\n\nThe site may have changed — try \"Update engine\" and probe again."@
}

/// What is said of a probe that left no reason, or whose output cannot be read.
pub open spec fn probe_fallback() -> Seq<char> {
    "Couldn't read that link. Check the post is public, then try again."@
}

/// The message for a failed download.
pub open spec fn download_failure(stderr: Seq<char>) -> Seq<char> {
    let line = download_failure_line(stderr);
    message(line, encoding::lowercase(line), download_hint(), download_fallback())
}

/// The lines of a text in lower case, each by itself.
pub open spec fn lowered_lines(list: Seq<Seq<char>>) -> Seq<Seq<char>> {
    list.map_values(|line: Seq<char>| encoding::lowercase(line))
}

/// The message for a failed probe.
pub open spec fn probe_failure(stderr: Seq<u8>) -> Seq<char> {
    let list = text::line_parts(encoding::lossy_text(stderr));
    let line = probe_failure_line(list, lowered_lines(list));
    message(line, encoding::lowercase(line), probe_hint(), probe_fallback())
}

/// Takes away the mark `ERROR:` and the white space around it.
fn unmark(line: &str) -> (text: String)
    ensures
        text@ == unmarked(line@),
{
    text::trim(text::trim_start_of(text::trim(line).as_str(), "ERROR:").as_str())
}

/// Picks the line of a download's error output that says why it failed.
pub fn download_error_line(stderr: &str) -> (line: String)
    ensures
        line@ == download_failure_line(stderr@),
{
    let list = text::lines(stderr);
    let ghost shown = text::texts(list@);
    let ghost marked = |i: int| text::has_text(shown[i], "ERROR"@);
    let mut n: usize = list.len();
    while n > 0
        invariant
            n <= list.len(),
            shown == text::texts(list@),
            shown == text::line_parts(stderr@),
            marked == (|i: int| text::has_text(shown[i], "ERROR"@)),
            last_where(shown.len() as int, marked) == last_where(n as int, marked),
        decreases n,
    {
        assert(shown[n - 1] == list@[n - 1]@);
        if text::contains(list[n - 1].as_str(), "ERROR") {
            return unmark(list[n - 1].as_str());
        }
        n = n - 1;
    }
    if list.len() > 0 {
        unmark(list[list.len() - 1].as_str())
    } else {
        let none = String::new();
        assert(none@ == Seq::<char>::empty());
        unmark(none.as_str())
    }
}

/// Picks the line of a probe's error output that says why it failed, given its lines as they
/// are and in lower case.
pub fn probe_error_line(list: &Vec<String>, lowered: &Vec<String>) -> (line: String)
    requires
        list@.len() == lowered@.len(),
    ensures
        line@ == probe_failure_line(text::texts(list@), text::texts(lowered@)),
{
    let ghost shown = text::texts(list@);
    let ghost low = text::texts(lowered@);
    let ghost marked = |i: int| text::has_text(shown[i], "ERROR"@) || text::has_text(low[i], "error"@);
    let mut n: usize = list.len();
    while n > 0
        invariant
            n <= list.len(),
            list@.len() == lowered@.len(),
            shown == text::texts(list@),
            low == text::texts(lowered@),
            marked == (|i: int| text::has_text(shown[i], "ERROR"@) || text::has_text(low[i], "error"@)),
            last_where(shown.len() as int, marked) == last_where(n as int, marked),
        decreases n,
    {
        assert(shown[n - 1] == list@[n - 1]@);
        assert(low[n - 1] == lowered@[n - 1]@);
        if text::contains(list[n - 1].as_str(), "ERROR") || text::contains(lowered[n - 1].as_str(), "error") {
            return unmark(list[n - 1].as_str());
        }
        n = n - 1;
    }
    if list.len() > 0 {
        unmark(list[list.len() - 1].as_str())
    } else {
        let none = String::new();
        assert(none@ == Seq::<char>::empty());
        unmark(none.as_str())
    }
}

/// Puts a failure message together from the line, the line in lower case, and the two texts
/// that may complete or replace it.
pub fn failure_message(line: &str, lowered: &str, hint: &str, fallback: &str) -> (text: String)
    ensures
        text@ == message(line@, lowered@, hint@, fallback@),
{
    if text::contains(lowered, "unsupported url") || text::contains(lowered, "unable to extract") {
        return line.to_owned().concat(hint);
    }
    if line.is_empty() {
        return fallback.to_owned();
    }
    line.to_owned()
}

/// Reduces the error output of a download to a single readable failure line, with a hint
/// toward the "Update engine" button when the cause looks like a stale extractor.
pub fn friendly_error(stderr: &str) -> (text: String)
    ensures
        text@ == download_failure(stderr@),
{
    let line = download_error_line(stderr);
    let lowered = encoding::to_lowercase(line.as_str());
    failure_message(
        line.as_str(),
        lowered.as_str(),
        "\n\nThe site may have changed — try \"Update engine\" and download again.",
        "The download failed. Check the post is public, then try again.",
    )
}

/// Reduces the error output of a probe to a single readable line, with a nudge toward the
/// "Update engine" button when the failure looks like a stale extractor.
pub fn friendly_probe_error(stderr: &[u8]) -> (text: String)
    ensures
        text@ == probe_failure(stderr@),
{
    let decoded = encoding::from_utf8_lossy(stderr);
    let list = text::lines(decoded.as_str());
    let mut lowered: Vec<String> = Vec::new();
    let mut i: usize = 0;
    while i < list.len()
        invariant
            i <= list.len(),
            lowered@.len() == i,
            forall|j: int| 0 <= j < i ==> (#[trigger] lowered@[j])@ == encoding::lowercase(list@[j]@),
        decreases list.len() - i,
    {
        lowered.push(encoding::to_lowercase(list[i].as_str()));
        i = i + 1;
    }
    assert(text::texts(lowered@) =~= lowered_lines(text::texts(list@)));
    let line = probe_error_line(&list, &lowered);
    let low = encoding::to_lowercase(line.as_str());
    failure_message(
        line.as_str(),
        low.as_str(),
        "\n\nThe site may have changed — try \"Update engine\" and probe again.",
        "Couldn't read that link. Check the post is public, then try again.",
    )
}

/// A text without line feeds.
pub open spec fn one_line(s: Seq<char>) -> bool {
    forall|i: int| 0 <= i < s.len() ==> s[i] != '\n'
}

proof fn lemma_lines_are_lines(s: Seq<char>)
    ensures
        forall|i: int| 0 <= i < text::line_parts(s).len() ==> one_line(#[trigger] text::line_parts(s)[i]),
    decreases s.len(),
{
    if s.len() > 0 {
        text::lemma_first_char(s, '\n', 0);
        match text::first_char(s, '\n', 0) {
            Some(at) => {
                let rest = s.subrange(at + 1, s.len() as int);
                lemma_lines_are_lines(rest);
                let head = text::without_return(s.subrange(0, at));
                assert(one_line(head));
                assert forall|i: int| 0 <= i < text::line_parts(s).len() implies one_line(
                    #[trigger] text::line_parts(s)[i],
                ) by {
                    if i > 0 {
                        assert(text::line_parts(s)[i] == text::line_parts(rest)[i - 1]);
                    }
                }
            },
            None => {},
        }
    }
}

proof fn lemma_trimmed_is_part(s: Seq<char>)
    requires
        one_line(s),
    ensures
        one_line(text::trimmed(s)),
{
    text::lemma_trimmed_start(s);
    text::lemma_trimmed_end(text::trimmed_start(s));
}

proof fn lemma_trimmed_start_of_is_part(s: Seq<char>, prefix: Seq<char>)
    requires
        one_line(s),
    ensures
        one_line(text::trimmed_start_of(s, prefix)),
    decreases s.len(),
{
    if prefix.len() > 0 && text::begins_with(s, prefix) {
        lemma_trimmed_start_of_is_part(s.subrange(prefix.len() as int, s.len() as int), prefix);
    }
}

proof fn lemma_last_where(n: int, holds: spec_fn(int) -> bool)
    ensures
        match last_where(n, holds) {
            Some(i) => 0 <= i < n && holds(i) && forall|j: int| i < j < n ==> !#[trigger] holds(j),
            None => forall|j: int| 0 <= j < n ==> !#[trigger] holds(j),
        },
    decreases n,
{
    if n > 0 && !holds(n - 1) {
        lemma_last_where(n - 1, holds);
    }
}

proof fn lemma_picked_is_one_line(s: Seq<char>, holds: spec_fn(int) -> bool)
    ensures
        one_line(unmarked(line_or_last(text::line_parts(s), holds))),
{
    let list = text::line_parts(s);
    lemma_lines_are_lines(s);
    lemma_last_where(list.len() as int, holds);
    let line = line_or_last(list, holds);
    assert(one_line(line));
    lemma_trimmed_is_part(line);
    lemma_trimmed_start_of_is_part(text::trimmed(line), "ERROR:"@);
    lemma_trimmed_is_part(text::trimmed_start_of(text::trimmed(line), "ERROR:"@));
}

/// However long the error output of a download is, the reason picked from it is a single line.
pub proof fn law_download_reason_is_one_line(stderr: Seq<char>)
    ensures
        one_line(download_failure_line(stderr)),
{
    let list = text::line_parts(stderr);
    lemma_picked_is_one_line(stderr, |i: int| text::has_text(list[i], "ERROR"@));
}

/// However long the error output of a probe is, the reason picked from it is a single line.
pub proof fn law_probe_reason_is_one_line(stderr: Seq<char>, lowered: Seq<Seq<char>>)
    ensures
        one_line(probe_failure_line(text::line_parts(stderr), lowered)),
{
    let list = text::line_parts(stderr);
    lemma_picked_is_one_line(
        stderr,
        |i: int| text::has_text(list[i], "ERROR"@) || text::has_text(lowered[i], "error"@),
    );
}

/// A failed download is always given a message, whatever the engine printed.
pub proof fn law_download_failure_is_explained(stderr: Seq<char>)
    ensures
        download_failure(stderr).len() > 0,
{
    reveal_strlit("\n\nThe site may have changed — try \"Update engine\" and download again.");
    reveal_strlit("The download failed. Check the post is public, then try again.");
}

/// A failed probe is always given a message, whatever the engine printed.
pub proof fn law_probe_failure_is_explained(stderr: Seq<u8>)
    ensures
        probe_failure(stderr).len() > 0,
{
    reveal_strlit("\n\nThe site may have changed — try \"Update engine\" and probe again.");
    reveal_strlit("Couldn't read that link. Check the post is public, then try again.");
}

/// The last line that says `ERROR` is the one a failed download is explained by: no later line
/// does, and where no line does, the last one is taken.
pub proof fn law_last_error_wins(stderr: Seq<char>)
    ensures
        ({
            let list = text::line_parts(stderr);
            ||| exists|i: int|
                0 <= i < list.len() && text::has_text(#[trigger] list[i], "ERROR"@) && (forall|j: int|
                    i < j < list.len() ==> !text::has_text(#[trigger] list[j], "ERROR"@))
                    && download_failure_line(stderr) == unmarked(list[i])
            ||| (forall|j: int| 0 <= j < list.len() ==> !text::has_text(#[trigger] list[j], "ERROR"@))
                && download_failure_line(stderr) == unmarked(
                if list.len() > 0 {
                    list.last()
                } else {
                    seq![]
                },
            )
        }),
{
    let list = text::line_parts(stderr);
    let holds = |i: int| text::has_text(list[i], "ERROR"@);
    lemma_last_where(list.len() as int, holds);
    match last_where(list.len() as int, holds) {
        Some(i) => {
            assert(holds(i));
            assert forall|j: int| i < j < list.len() implies !text::has_text(
                #[trigger] list[j],
                "ERROR"@,
            ) by {
                assert(!holds(j));
            }
        },
        None => {
            assert forall|j: int| 0 <= j < list.len() implies !text::has_text(
                #[trigger] list[j],
                "ERROR"@,
            ) by {
                assert(!holds(j));
            }
        },
    }
}

/// The mark is taken away from the line that says why a job failed, and so is white space, but
/// nothing of the reason itself.
pub proof fn law_reason_is_kept_whole(
    before: Seq<char>,
    between: Seq<char>,
    reason: Seq<char>,
    after: Seq<char>,
)
    requires
        text::is_blank(before),
        text::is_blank(between),
        text::is_blank(after),
        text::is_neat(reason),
        reason.len() > 0,
        forall|rest: Seq<char>| reason != #[trigger] ("ERROR:"@ + rest),
    ensures
        unmarked(before + ("ERROR:"@ + between + reason) + after) == reason,
        unmarked(before + reason + after) == reason,
{
    reveal_strlit("ERROR:");
    let mark = "ERROR:"@;
    let none = Seq::<char>::empty();
    let marked = mark + between + reason;
    assert(marked[0] == 'E');
    assert(marked[marked.len() - 1] == reason[reason.len() - 1]);
    text::law_trim(before, marked, after);
    let rest = between + reason;
    assert(marked =~= mark + rest);
    text::law_trim_start_of(rest, mark);
    assert forall|more: Seq<char>| rest != #[trigger] (mark + more) by {
        if between.len() > 0 {
            assert(rest[0] == between[0]);
            assert((mark + more)[0] == 'E');
            assert(text::is_white_space(between[0]));
        } else {
            assert(rest =~= reason);
        }
    }
    text::law_trim(between, reason, none);
    assert(between + reason + none =~= rest);
    text::law_trim(before, reason, after);
    text::law_trim_start_of(reason, mark);
    text::law_trim(none, reason, none);
    assert(none + reason + none =~= reason);
}

/// A failed download is explained by the reason picked from its error output; with a hint at the
/// engine's update where the reason, in small letters, speaks of an unsupported link or of
/// something that cannot be extracted; and by a general remark where there is no reason.
pub proof fn law_download_message(stderr: Seq<char>)
    ensures
        ({
            let line = download_failure_line(stderr);
            let lowered = encoding::lowercase(line);
            let outdated = text::has_text(lowered, "unsupported url"@) || text::has_text(
                lowered,
                "unable to extract"@,
            );
            &&& outdated ==> download_failure(stderr) == line
                + "\n\nThe site may have changed — try \"Update engine\" and download again."@
            &&& !outdated && line.len() > 0 ==> download_failure(stderr) == line
            &&& !outdated && line.len() == 0 ==> download_failure(stderr)
                == "The download failed. Check the post is public, then try again."@
        }),
{
}

/// A failed probe is explained by the reason picked from its error output, with the same hint
/// and remark as a download, but for its own words.
pub proof fn law_probe_message(stderr: Seq<u8>)
    ensures
        ({
            let list = text::line_parts(encoding::lossy_text(stderr));
            let line = probe_failure_line(list, lowered_lines(list));
            let lowered = encoding::lowercase(line);
            let outdated = text::has_text(lowered, "unsupported url"@) || text::has_text(
                lowered,
                "unable to extract"@,
            );
            &&& outdated ==> probe_failure(stderr) == line
                + "\n\nThe site may have changed — try \"Update engine\" and probe again."@
            &&& !outdated && line.len() > 0 ==> probe_failure(stderr) == line
            &&& !outdated && line.len() == 0 ==> probe_failure(stderr)
                == "Couldn't read that link. Check the post is public, then try again."@
        }),
{
}

/// The last line that speaks of an error, in capitals or otherwise, is the one a failed probe is
/// explained by; where no line does, the last one is taken.
pub proof fn law_last_probe_error_wins(list: Seq<Seq<char>>, lowered: Seq<Seq<char>>, i: int)
    requires
        lowered.len() == list.len(),
        0 <= i < list.len(),
        forall|j: int|
            i < j < list.len() ==> !text::has_text(#[trigger] list[j], "ERROR"@) && !text::has_text(
                lowered[j],
                "error"@,
            ),
        text::has_text(list[i], "ERROR"@) || text::has_text(lowered[i], "error"@) || (i
            == list.len() - 1 && forall|j: int|
            0 <= j < list.len() ==> !text::has_text(#[trigger] list[j], "ERROR"@)
                && !text::has_text(lowered[j], "error"@)),
    ensures
        probe_failure_line(list, lowered) == unmarked(list[i]),
{
    let holds = |k: int| text::has_text(list[k], "ERROR"@) || text::has_text(lowered[k], "error"@);
    lemma_last_where(list.len() as int, holds);
    match last_where(list.len() as int, holds) {
        Some(k) => {
            assert(holds(k));
            assert(text::has_text(list[k], "ERROR"@) || text::has_text(lowered[k], "error"@));
            if k < i {
                assert(!holds(i));
                assert(!text::has_text(list[k], "ERROR"@));
            }
        },
        None => {
            assert(!holds(i));
        },
    }
}

/// The lines are looked at in small letters one by one.
pub proof fn law_lines_are_lowered_one_by_one(list: Seq<Seq<char>>, i: int)
    requires
        0 <= i < list.len(),
    ensures
        lowered_lines(list).len() == list.len(),
        lowered_lines(list)[i] == encoding::lowercase(list[i]),
{
}

/// A mark without a reason says nothing, and a mark that is repeated says no more than one.
pub proof fn law_mark_alone(blank: Seq<char>, after: Seq<char>, rest: Seq<char>)
    requires
        text::is_blank(blank),
        text::is_blank(after),
        text::is_neat("ERROR:"@ + rest),
    ensures
        unmarked(blank) == Seq::<char>::empty(),
        unmarked(blank + "ERROR:"@ + after) == Seq::<char>::empty(),
        unmarked("ERROR:"@ + ("ERROR:"@ + rest)) == unmarked("ERROR:"@ + rest),
{
    reveal_strlit("ERROR:");
    let mark = "ERROR:"@;
    let none = Seq::<char>::empty();
    text::law_trim(blank, none, none);
    assert(blank + none + none =~= blank);
    text::law_trim(none, none, none);
    assert(none + none + none =~= none);
    text::law_trim(blank, mark, after);
    text::law_trim_start_of(none, mark);
    assert(mark + none =~= mark);
    assert forall|more: Seq<char>| none != #[trigger] (mark + more) by {
        assert((mark + more).len() >= 6);
    }
    let once = mark + rest;
    let twice = mark + once;
    text::law_trim(none, once, none);
    assert(none + once + none =~= once);
    assert(twice[0] == 'E');
    assert(twice[twice.len() - 1] == once[once.len() - 1]);
    text::law_trim(none, twice, none);
    assert(none + twice + none =~= twice);
    text::law_trim_start_of(once, mark);
}

} // verus!
