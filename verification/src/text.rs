//! Text as sequences of characters.
//!
//! Every function here is stated over the view of a string, a `Seq<char>`.

use vstd::prelude::*;

verus! {

/// The strings of a list, as character sequences.
pub open spec fn texts(list: Seq<String>) -> Seq<Seq<char>> {
    list.map_values(|s: String| s@)
}

/// A string that may be missing, as a character sequence.
pub open spec fn optional(s: Option<String>) -> Option<Seq<char>> {
    match s {
        Some(value) => Some(value@),
        None => None,
    }
}

/// `s` begins with `prefix`.
pub open spec fn begins_with(s: Seq<char>, prefix: Seq<char>) -> bool {
    prefix.len() <= s.len() && s.subrange(0, prefix.len() as int) == prefix
}

/// `s` ends with `suffix`.
pub open spec fn ends_with(s: Seq<char>, suffix: Seq<char>) -> bool {
    suffix.len() <= s.len() && s.subrange(s.len() - suffix.len(), s.len() as int) == suffix
}

/// `needle` stands in `s` at position `at`.
pub open spec fn occurs_at(s: Seq<char>, needle: Seq<char>, at: int) -> bool {
    0 <= at && at + needle.len() <= s.len() && s.subrange(at, at + needle.len()) == needle
}

/// `needle` stands somewhere in `s`.
pub open spec fn has_text(s: Seq<char>, needle: Seq<char>) -> bool {
    exists|at: int| occurs_at(s, needle, at)
}

/// The characters with the Unicode property `White_Space`.
pub open spec fn is_white_space(c: char) -> bool {
    let n = c as u32;
    ||| 0x9 <= n <= 0xd
    ||| n == 0x20
    ||| n == 0x85
    ||| n == 0xa0
    ||| n == 0x1680
    ||| 0x2000 <= n <= 0x200a
    ||| n == 0x2028
    ||| n == 0x2029
    ||| n == 0x202f
    ||| n == 0x205f
    ||| n == 0x3000
}

/// `s` without the white space at its start.
pub open spec fn trimmed_start(s: Seq<char>) -> Seq<char>
    decreases s.len(),
{
    if s.len() > 0 && is_white_space(s[0]) {
        trimmed_start(s.subrange(1, s.len() as int))
    } else {
        s
    }
}

/// `s` without the white space at its end.
pub open spec fn trimmed_end(s: Seq<char>) -> Seq<char>
    decreases s.len(),
{
    if s.len() > 0 && is_white_space(s[s.len() - 1]) {
        trimmed_end(s.subrange(0, s.len() - 1))
    } else {
        s
    }
}

/// `s` without the white space at either end.
pub open spec fn trimmed(s: Seq<char>) -> Seq<char> {
    trimmed_end(trimmed_start(s))
}

/// `s` without the characters `c` at its end.
pub open spec fn trimmed_end_of(s: Seq<char>, c: char) -> Seq<char>
    decreases s.len(),
{
    if s.len() > 0 && s[s.len() - 1] == c {
        trimmed_end_of(s.subrange(0, s.len() - 1), c)
    } else {
        s
    }
}

/// `s` without the copies of `prefix` that it begins with, as many as there are.
pub open spec fn trimmed_start_of(s: Seq<char>, prefix: Seq<char>) -> Seq<char>
    decreases s.len(),
{
    if prefix.len() > 0 && begins_with(s, prefix) {
        trimmed_start_of(s.subrange(prefix.len() as int, s.len() as int), prefix)
    } else {
        s
    }
}

/// The first position, not before `from`, at which `needle` stands in `s`.
pub open spec fn first_text(s: Seq<char>, needle: Seq<char>, from: int) -> Option<int>
    decreases s.len() + 1 - from,
{
    if from > s.len() {
        None
    } else if occurs_at(s, needle, from) {
        Some(from)
    } else {
        first_text(s, needle, from + 1)
    }
}

/// The part of `s` before the first `needle`, or all of it where there is none.
pub open spec fn before_text(s: Seq<char>, needle: Seq<char>) -> Seq<char> {
    match first_text(s, needle, 0) {
        Some(at) => s.subrange(0, at),
        None => s,
    }
}

/// The first position, not before `from`, at which `c` stands in `s`.
pub open spec fn first_char(s: Seq<char>, c: char, from: int) -> Option<int>
    decreases s.len() - from,
{
    if from >= s.len() {
        None
    } else if s[from] == c {
        Some(from)
    } else {
        first_char(s, c, from + 1)
    }
}

/// The last position before `end` at which `c` stands in `s`.
pub open spec fn last_char(s: Seq<char>, c: char, end: int) -> Option<int>
    decreases end,
{
    if end <= 0 {
        None
    } else if s[end - 1] == c {
        Some(end - 1)
    } else {
        last_char(s, c, end - 1)
    }
}

/// The part of `s` after the last `c`, if there is one.
pub open spec fn after_last(s: Seq<char>, c: char) -> Option<Seq<char>> {
    match last_char(s, c, s.len() as int) {
        Some(at) => Some(s.subrange(at + 1, s.len() as int)),
        None => None,
    }
}

/// The parts of `s` between the characters `c`; there is always at least one.
pub open spec fn split_parts(s: Seq<char>, c: char) -> Seq<Seq<char>>
    decreases s.len(),
{
    match first_char(s, c, 0) {
        Some(at) => if 0 <= at < s.len() {
            seq![s.subrange(0, at)] + split_parts(s.subrange(at + 1, s.len() as int), c)
        } else {
            seq![s]
        },
        None => seq![s],
    }
}

/// `line` without a carriage return at its end.
pub open spec fn without_return(line: Seq<char>) -> Seq<char> {
    if line.len() > 0 && line[line.len() - 1] == '\r' {
        line.subrange(0, line.len() - 1)
    } else {
        line
    }
}

/// The lines of `s`. A line ends with a line feed, or with a carriage return and a line feed;
/// the last one may lack its ending.
pub open spec fn line_parts(s: Seq<char>) -> Seq<Seq<char>>
    decreases s.len(),
{
    if s.len() == 0 {
        seq![]
    } else {
        match first_char(s, '\n', 0) {
            Some(at) => if 0 <= at < s.len() {
                seq![without_return(s.subrange(0, at))] + line_parts(
                    s.subrange(at + 1, s.len() as int),
                )
            } else {
                seq![s]
            },
            None => seq![s],
        }
    }
}

/// The position, not before `from`, of the first white space in `s`, or the end of `s`.
pub open spec fn word_end(s: Seq<char>, from: int) -> int
    decreases s.len() - from,
{
    if from >= s.len() {
        s.len() as int
    } else if is_white_space(s[from]) {
        from
    } else {
        word_end(s, from + 1)
    }
}

/// The words of `s`: its longest parts without white space.
pub open spec fn words(s: Seq<char>) -> Seq<Seq<char>>
    decreases s.len(),
    via words_shrink
{
    let t = trimmed_start(s);
    if t.len() == 0 {
        seq![]
    } else {
        seq![t.subrange(0, word_end(t, 0))] + words(t.subrange(word_end(t, 0), t.len() as int))
    }
}

/// Leading white space is all that `trimmed_start` takes away.
pub proof fn lemma_trimmed_start(s: Seq<char>)
    ensures
        trimmed_start(s).len() <= s.len(),
        trimmed_start(s) == s.subrange(s.len() - trimmed_start(s).len(), s.len() as int),
        trimmed_start(s).len() > 0 ==> !is_white_space(trimmed_start(s)[0]),
    decreases s.len(),
{
    if s.len() > 0 && is_white_space(s[0]) {
        lemma_trimmed_start(s.subrange(1, s.len() as int));
    }
}

/// Trailing white space is all that `trimmed_end` takes away.
pub proof fn lemma_trimmed_end(s: Seq<char>)
    ensures
        trimmed_end(s).len() <= s.len(),
        trimmed_end(s) == s.subrange(0, trimmed_end(s).len() as int),
        trimmed_end(s).len() > 0 ==> !is_white_space(trimmed_end(s)[trimmed_end(s).len() - 1]),
    decreases s.len(),
{
    if s.len() > 0 && is_white_space(s[s.len() - 1]) {
        lemma_trimmed_end(s.subrange(0, s.len() - 1));
    }
}

/// A word ends where white space or the end of the text comes first.
pub proof fn lemma_word_end(s: Seq<char>, from: int)
    requires
        0 <= from <= s.len(),
    ensures
        from <= word_end(s, from) <= s.len(),
        from < s.len() && !is_white_space(s[from]) ==> from < word_end(s, from),
    decreases s.len() - from,
{
    if from < s.len() && !is_white_space(s[from]) {
        lemma_word_end(s, from + 1);
    }
}

#[via_fn]
proof fn words_shrink(s: Seq<char>) {
    lemma_trimmed_start(s);
    let t = trimmed_start(s);
    if t.len() > 0 {
        lemma_word_end(t, 0);
    }
}

/// A character found is where it was sought, and none stands before it.
pub proof fn lemma_first_char(s: Seq<char>, c: char, from: int)
    requires
        0 <= from,
    ensures
        match first_char(s, c, from) {
            Some(at) => from <= at < s.len() && s[at] == c && forall|j: int|
                from <= j < at ==> s[j] != c,
            None => forall|j: int| from <= j < s.len() ==> s[j] != c,
        },
    decreases s.len() - from,
{
    if from < s.len() && s[from] != c {
        lemma_first_char(s, c, from + 1);
    }
}

/// A text found is where it was sought, and it stands nowhere before.
pub proof fn lemma_first_text(s: Seq<char>, needle: Seq<char>, from: int)
    requires
        0 <= from,
    ensures
        match first_text(s, needle, from) {
            Some(at) => from <= at && occurs_at(s, needle, at) && forall|j: int|
                from <= j < at ==> !occurs_at(s, needle, j),
            None => forall|j: int| from <= j ==> !occurs_at(s, needle, j),
        },
    decreases s.len() + 1 - from,
{
    if from <= s.len() && !occurs_at(s, needle, from) {
        lemma_first_text(s, needle, from + 1);
    }
}

/// The characters of a string, in order.
pub fn chars_of(s: &str) -> (chars: Vec<char>)
    ensures
        chars@ == s@,
{
    let mut chars: Vec<char> = Vec::new();
    for c in it: s.chars()
        invariant
            it.seq() == s@,
            chars@ == s@.subrange(0, it.index() as int),
    {
        chars.push(c);
    }
    chars
}

/// Whether a character is white space.
pub fn white_space(c: char) -> (yes: bool)
    ensures
        yes == is_white_space(c),
{
    let n: u32 = c as u32;
    (0x9 <= n && n <= 0xd) || n == 0x20 || n == 0x85 || n == 0xa0 || n == 0x1680 || (0x2000 <= n
        && n <= 0x200a) || n == 0x2028 || n == 0x2029 || n == 0x202f || n == 0x205f || n == 0x3000
}

/// The part of a string from one character position to another.
fn part(s: &str, from: usize, to: usize) -> (text: String)
    requires
        from <= to <= s@.len(),
    ensures
        text@ == s@.subrange(from as int, to as int),
{
    s.substring_char(from, to).to_owned()
}

/// Whether two texts are the same.
pub fn same_text(a: &str, b: &str) -> (yes: bool)
    ensures
        yes == (a@ == b@),
{
    let left = chars_of(a);
    let right = chars_of(b);
    assert(a@.len() == b@.len() ==> a@.subrange(0, b@.len() as int) == a@);
    left.len() == right.len() && stands_at(&left, &right, 0)
}

/// Whether `needle` stands in `chars` at position `at`.
fn stands_at(chars: &Vec<char>, needle: &Vec<char>, at: usize) -> (yes: bool)
    requires
        at <= chars@.len(),
    ensures
        yes == occurs_at(chars@, needle@, at as int),
{
    if needle.len() > chars.len() - at {
        return false;
    }
    let mut i: usize = 0;
    while i < needle.len()
        invariant
            i <= needle@.len(),
            at + needle@.len() <= chars.len(),
            forall|j: int| 0 <= j < i ==> #[trigger] needle@[j] == chars@[at + j],
        decreases needle@.len() - i,
    {
        if needle[i] != chars[at + i] {
            assert(chars@.subrange(at as int, at + needle@.len())[i as int] != needle@[i as int]);
            return false;
        }
        i = i + 1;
    }
    assert(chars@.subrange(at as int, at + needle@.len()) =~= needle@);
    true
}

/// Whether a text begins with another.
pub fn starts_with(s: &str, prefix: &str) -> (yes: bool)
    ensures
        yes == begins_with(s@, prefix@),
{
    stands_at(&chars_of(s), &chars_of(prefix), 0)
}

/// What follows `prefix` in a text that begins with it.
pub fn strip_prefix(s: &str, prefix: &str) -> (rest: Option<String>)
    ensures
        match rest {
            Some(text) => begins_with(s@, prefix@) && text@ == s@.subrange(
                prefix@.len() as int,
                s@.len() as int,
            ),
            None => !begins_with(s@, prefix@),
        },
{
    let chars = chars_of(s);
    let lead = chars_of(prefix);
    if stands_at(&chars, &lead, 0) {
        Some(part(s, lead.len(), chars.len()))
    } else {
        None
    }
}

/// What precedes `suffix` in a text that ends with it.
pub fn strip_suffix(s: &str, suffix: &str) -> (rest: Option<String>)
    ensures
        match rest {
            Some(text) => ends_with(s@, suffix@) && text@ == s@.subrange(
                0,
                s@.len() - suffix@.len(),
            ),
            None => !ends_with(s@, suffix@),
        },
{
    let chars = chars_of(s);
    let tail = chars_of(suffix);
    if tail.len() <= chars.len() && stands_at(&chars, &tail, chars.len() - tail.len()) {
        Some(part(s, 0, chars.len() - tail.len()))
    } else {
        None
    }
}

/// The first position at which `needle` stands in a text.
pub fn find_text(s: &str, needle: &str) -> (found: Option<usize>)
    ensures
        match found {
            Some(at) => first_text(s@, needle@, 0) == Some(at as int) && at <= s@.len(),
            None => first_text(s@, needle@, 0) is None,
        },
{
    let chars = chars_of(s);
    let sought = chars_of(needle);
    let mut at: usize = 0;
    while at < chars.len()
        invariant
            at <= chars@.len(),
            chars@ == s@,
            sought@ == needle@,
            first_text(s@, needle@, 0) == first_text(s@, needle@, at as int),
        decreases chars@.len() - at,
    {
        if stands_at(&chars, &sought, at) {
            return Some(at);
        }
        at = at + 1;
    }
    if stands_at(&chars, &sought, at) {
        Some(at)
    } else {
        assert(first_text(s@, needle@, at + 1) is None);
        None
    }
}

/// Whether `needle` stands somewhere in a text.
pub fn contains(s: &str, needle: &str) -> (yes: bool)
    ensures
        yes == has_text(s@, needle@),
{
    proof {
        lemma_first_text(s@, needle@, 0);
    }
    find_text(s, needle).is_some()
}

/// The part of a text before the first `needle`, or all of it.
pub fn before(s: &str, needle: &str) -> (text: String)
    ensures
        text@ == before_text(s@, needle@),
{
    match find_text(s, needle) {
        Some(at) => part(s, 0, at),
        None => s.to_owned(),
    }
}

/// The first position, not before `from`, at which `c` stands.
pub fn find_char(chars: &Vec<char>, c: char, from: usize) -> (found: Option<usize>)
    requires
        from <= chars@.len(),
    ensures
        match found {
            Some(at) => first_char(chars@, c, from as int) == Some(at as int) && from <= at
                < chars@.len(),
            None => first_char(chars@, c, from as int) is None,
        },
{
    let mut at: usize = from;
    while at < chars.len()
        invariant
            from <= at <= chars@.len(),
            first_char(chars@, c, from as int) == first_char(chars@, c, at as int),
        decreases chars@.len() - at,
    {
        if chars[at] == c {
            return Some(at);
        }
        at = at + 1;
    }
    None
}

/// The part of a text after the last `c`, if there is one.
pub fn after_last_char(s: &str, c: char) -> (rest: Option<String>)
    ensures
        optional(rest) == after_last(s@, c),
{
    let chars = chars_of(s);
    let mut end: usize = chars.len();
    while end > 0
        invariant
            end <= chars.len(),
            chars@ == s@,
            last_char(s@, c, s@.len() as int) == last_char(s@, c, end as int),
        decreases end,
    {
        if chars[end - 1] == c {
            return Some(part(s, end, chars.len()));
        }
        end = end - 1;
    }
    None
}

/// A text without the white space at its start.
pub fn trim_start(s: &str) -> (text: String)
    ensures
        text@ == trimmed_start(s@),
{
    let chars = chars_of(s);
    let mut from: usize = 0;
    assert(s@.subrange(0, s@.len() as int) == s@);
    while from < chars.len() && white_space(chars[from])
        invariant
            from <= chars@.len(),
            chars@ == s@,
            trimmed_start(s@) == trimmed_start(s@.subrange(from as int, s@.len() as int)),
        decreases chars@.len() - from,
    {
        proof {
            let rest = s@.subrange(from as int, s@.len() as int);
            assert(rest.subrange(1, rest.len() as int) == s@.subrange(from + 1, s@.len() as int));
        }
        from = from + 1;
    }
    part(s, from, chars.len())
}

/// A text without the white space at its end.
pub fn trim_end(s: &str) -> (text: String)
    ensures
        text@ == trimmed_end(s@),
{
    let chars = chars_of(s);
    let mut to: usize = chars.len();
    assert(s@.subrange(0, s@.len() as int) == s@);
    while to > 0 && white_space(chars[to - 1])
        invariant
            to <= chars@.len(),
            chars@ == s@,
            trimmed_end(s@) == trimmed_end(s@.subrange(0, to as int)),
        decreases to,
    {
        proof {
            let rest = s@.subrange(0, to as int);
            assert(rest.subrange(0, rest.len() - 1) == s@.subrange(0, to - 1));
        }
        to = to - 1;
    }
    part(s, 0, to)
}

/// A text without the white space at either end.
pub fn trim(s: &str) -> (text: String)
    ensures
        text@ == trimmed(s@),
{
    trim_end(trim_start(s).as_str())
}

/// A text without the characters `c` at its end.
pub fn trim_end_of(s: &str, c: char) -> (text: String)
    ensures
        text@ == trimmed_end_of(s@, c),
{
    let chars = chars_of(s);
    let mut to: usize = chars.len();
    assert(s@.subrange(0, s@.len() as int) == s@);
    while to > 0 && chars[to - 1] == c
        invariant
            to <= chars@.len(),
            chars@ == s@,
            trimmed_end_of(s@, c) == trimmed_end_of(s@.subrange(0, to as int), c),
        decreases to,
    {
        proof {
            let rest = s@.subrange(0, to as int);
            assert(rest.subrange(0, rest.len() - 1) == s@.subrange(0, to - 1));
        }
        to = to - 1;
    }
    part(s, 0, to)
}

/// A text without the copies of `prefix` that it begins with.
pub fn trim_start_of(s: &str, prefix: &str) -> (text: String)
    ensures
        text@ == trimmed_start_of(s@, prefix@),
{
    let chars = chars_of(s);
    let lead = chars_of(prefix);
    let mut from: usize = 0;
    assert(s@.subrange(0, s@.len() as int) == s@);
    while lead.len() > 0 && stands_at(&chars, &lead, from)
        invariant
            from <= chars.len(),
            chars@ == s@,
            lead@ == prefix@,
            trimmed_start_of(s@, prefix@) == trimmed_start_of(
                s@.subrange(from as int, s@.len() as int),
                prefix@,
            ),
        decreases chars@.len() - from,
    {
        proof {
            let rest = s@.subrange(from as int, s@.len() as int);
            assert(rest.subrange(0, prefix@.len() as int) == s@.subrange(
                from as int,
                from + prefix@.len(),
            ));
            assert(rest.subrange(prefix@.len() as int, rest.len() as int) == s@.subrange(
                from + prefix@.len(),
                s@.len() as int,
            ));
        }
        from = from + lead.len();
    }
    proof {
        let rest = s@.subrange(from as int, s@.len() as int);
        if prefix@.len() > 0 && begins_with(rest, prefix@) {
            assert(rest.subrange(0, prefix@.len() as int) == s@.subrange(
                from as int,
                from + prefix@.len(),
            ));
        }
    }
    part(s, from, chars.len())
}

/// The parts of a text between the characters `c`.
pub fn split(s: &str, c: char) -> (parts: Vec<String>)
    ensures
        texts(parts@) == split_parts(s@, c),
{
    let chars = chars_of(s);
    let mut parts: Vec<String> = Vec::new();
    let mut from: usize = 0;
    assert(s@.subrange(0, s@.len() as int) == s@);
    assert(texts(parts@) + split_parts(s@, c) == split_parts(s@, c));
    loop
        invariant
            from <= chars.len(),
            chars@ == s@,
            texts(parts@) + split_parts(s@.subrange(from as int, s@.len() as int), c)
                == split_parts(s@, c),
        decreases chars@.len() - from,
    {
        let ghost rest = s@.subrange(from as int, s@.len() as int);
        let ghost before = texts(parts@);
        proof {
            lemma_first_char_shift(s@, c, from as int, 0);
        }
        match find_char(&chars, c, from) {
            Some(at) => {
                let piece = part(s, from, at);
                parts.push(piece);
                assert(texts(parts@) == before.push(piece@));
                proof {
                    assert(rest.subrange(0, at - from) == piece@);
                    assert(rest.subrange(at - from + 1, rest.len() as int) == s@.subrange(
                        at + 1,
                        s@.len() as int,
                    ));
                    let after = split_parts(s@.subrange(at + 1, s@.len() as int), c);
                    assert(before.push(piece@) + after == before + (seq![piece@] + after));
                }
                from = at + 1;
            },
            None => {
                let piece = part(s, from, chars.len());
                parts.push(piece);
                assert(texts(parts@) == before.push(piece@));
                assert(before.push(piece@) == before + seq![rest]);
                return parts;
            },
        }
    }
}

/// Searching a tail of a text is searching the text from there on.
proof fn lemma_first_char_shift(s: Seq<char>, c: char, start: int, from: int)
    requires
        0 <= start <= s.len(),
        0 <= from,
    ensures
        match first_char(s.subrange(start, s.len() as int), c, from) {
            Some(at) => first_char(s, c, start + from) == Some(start + at),
            None => first_char(s, c, start + from) is None,
        },
    decreases s.len() - start - from,
{
    let rest = s.subrange(start, s.len() as int);
    if from < rest.len() && rest[from] != c {
        lemma_first_char_shift(s, c, start, from + 1);
    }
}

/// The lines of a text.
pub fn lines(s: &str) -> (list: Vec<String>)
    ensures
        texts(list@) == line_parts(s@),
{
    let chars = chars_of(s);
    let mut list: Vec<String> = Vec::new();
    let mut from: usize = 0;
    assert(s@.subrange(0, s@.len() as int) == s@);
    assert(texts(list@) + line_parts(s@) == line_parts(s@));
    while from < chars.len()
        invariant
            from <= chars@.len(),
            chars@ == s@,
            texts(list@) + line_parts(s@.subrange(from as int, s@.len() as int)) == line_parts(s@),
        decreases chars@.len() - from,
    {
        let ghost rest = s@.subrange(from as int, s@.len() as int);
        let ghost before = texts(list@);
        proof {
            lemma_first_char_shift(s@, '\n', from as int, 0);
        }
        match find_char(&chars, '\n', from) {
            Some(at) => {
                let to: usize = if at > from && chars[at - 1] == '\r' {
                    at - 1
                } else {
                    at
                };
                let line = part(s, from, to);
                list.push(line);
                assert(texts(list@) == before.push(line@));
                proof {
                    assert(without_return(rest.subrange(0, at - from)) == line@);
                    assert(rest.subrange(at - from + 1, rest.len() as int) == s@.subrange(
                        at + 1,
                        s@.len() as int,
                    ));
                    let after = line_parts(s@.subrange(at + 1, s@.len() as int));
                    assert(before.push(line@) + after == before + (seq![line@] + after));
                }
                from = at + 1;
            },
            None => {
                let line = part(s, from, chars.len());
                list.push(line);
                assert(texts(list@) == before.push(line@));
                assert(before.push(line@) == before + seq![rest]);
                from = chars.len();
                assert(s@.subrange(from as int, s@.len() as int) == Seq::<char>::empty());
                assert(texts(list@) + line_parts(Seq::<char>::empty()) == texts(list@));
            },
        }
    }
    assert(s@.subrange(from as int, s@.len() as int) == Seq::<char>::empty());
    assert(texts(list@) + line_parts(Seq::<char>::empty()) == texts(list@));
    list
}

/// The words of a text.
pub fn split_whitespace(s: &str) -> (list: Vec<String>)
    ensures
        texts(list@) == words(s@),
{
    let chars = chars_of(s);
    let mut list: Vec<String> = Vec::new();
    let mut from: usize = 0;
    assert(s@.subrange(0, s@.len() as int) == s@);
    assert(texts(list@) + words(s@) == words(s@));
    loop
        invariant
            from <= chars@.len(),
            chars@ == s@,
            texts(list@) + words(s@.subrange(from as int, s@.len() as int)) == words(s@),
        decreases chars@.len() - from,
    {
        let ghost rest = s@.subrange(from as int, s@.len() as int);
        let ghost before = texts(list@);
        let mut start: usize = from;
        while start < chars.len() && white_space(chars[start])
            invariant
                from <= start <= chars@.len(),
                chars@ == s@,
                trimmed_start(rest) == trimmed_start(s@.subrange(start as int, s@.len() as int)),
            decreases chars@.len() - start,
        {
            proof {
                let tail = s@.subrange(start as int, s@.len() as int);
                assert(tail.subrange(1, tail.len() as int) == s@.subrange(
                    start + 1,
                    s@.len() as int,
                ));
            }
            start = start + 1;
        }
        let ghost t = s@.subrange(start as int, s@.len() as int);
        assert(trimmed_start(rest) == t);
        if start >= chars.len() {
            assert(texts(list@) + Seq::<Seq<char>>::empty() == texts(list@));
            return list;
        }
        let mut to: usize = start;
        while to < chars.len() && !white_space(chars[to])
            invariant
                start <= to <= chars@.len(),
                chars@ == s@,
                t == s@.subrange(start as int, s@.len() as int),
                word_end(t, 0) == word_end(t, to - start),
            decreases chars@.len() - to,
        {
            assert(t[to - start] == s@[to as int]);
            to = to + 1;
        }
        assert(word_end(t, 0) == to - start);
        let word = part(s, start, to);
        list.push(word);
        assert(texts(list@) == before.push(word@));
        proof {
            lemma_word_end(t, 0);
            assert(t.subrange(0, to - start) == word@);
            assert(t.subrange(to - start, t.len() as int) == s@.subrange(
                to as int,
                s@.len() as int,
            ));
            let after = words(s@.subrange(to as int, s@.len() as int));
            assert(before.push(word@) + after == before + (seq![word@] + after));
        }
        from = to;
    }
}

/// The model of a list has one text for each string, in its place.
pub proof fn law_texts_of_a_list(list: Seq<String>, i: int)
    requires
        0 <= i < list.len(),
    ensures
        texts(list).len() == list.len(),
        texts(list)[i] == list[i]@,
        optional(Some(list[i])) == Some(list[i]@),
        optional(None::<String>) is None,
{
}

/// A text begins with another exactly when it is that one and something after it.
pub proof fn law_begins_with(s: Seq<char>, prefix: Seq<char>)
    ensures
        begins_with(s, prefix) <==> exists|rest: Seq<char>| s == #[trigger] (prefix + rest),
{
    if begins_with(s, prefix) {
        let rest = s.subrange(prefix.len() as int, s.len() as int);
        assert(s =~= prefix + rest);
    }
    if exists|rest: Seq<char>| s == #[trigger] (prefix + rest) {
        let rest = choose|rest: Seq<char>| s == #[trigger] (prefix + rest);
        assert((prefix + rest).subrange(0, prefix.len() as int) =~= prefix);
    }
}

/// A text ends with another exactly when it is something and that one after it.
pub proof fn law_ends_with(s: Seq<char>, suffix: Seq<char>)
    ensures
        ends_with(s, suffix) <==> exists|lead: Seq<char>| s == #[trigger] (lead + suffix),
{
    if ends_with(s, suffix) {
        let lead = s.subrange(0, s.len() - suffix.len());
        assert(s =~= lead + suffix);
    }
    if exists|lead: Seq<char>| s == #[trigger] (lead + suffix) {
        let lead = choose|lead: Seq<char>| s == #[trigger] (lead + suffix);
        assert((lead + suffix).subrange(lead.len() as int, s.len() as int) =~= suffix);
    }
}

/// A text holds another exactly when it is that one with something before and after it.
pub proof fn law_has_text(s: Seq<char>, needle: Seq<char>)
    ensures
        has_text(s, needle) <==> exists|lead: Seq<char>, rest: Seq<char>|
            s == #[trigger] (lead + needle + rest),
{
    if has_text(s, needle) {
        let at = choose|at: int| occurs_at(s, needle, at);
        let lead = s.subrange(0, at);
        let rest = s.subrange(at + needle.len(), s.len() as int);
        assert(s =~= lead + needle + rest);
    }
    if exists|lead: Seq<char>, rest: Seq<char>| s == #[trigger] (lead + needle + rest) {
        let (lead, rest) = choose|lead: Seq<char>, rest: Seq<char>|
            s == #[trigger] (lead + needle + rest);
        let at = lead.len() as int;
        assert(s.subrange(at, at + needle.len()) =~= needle);
        assert(occurs_at(s, needle, at));
    }
}

/// White space and nothing else.
pub open spec fn is_blank(s: Seq<char>) -> bool {
    forall|i: int| 0 <= i < s.len() ==> is_white_space(#[trigger] s[i])
}

/// A text that neither begins nor ends with white space.
pub open spec fn is_neat(s: Seq<char>) -> bool {
    s.len() > 0 ==> !is_white_space(s[0]) && !is_white_space(s[s.len() - 1])
}

/// White space before a text is taken away, and nothing of the text itself.
pub proof fn law_trim_start(blank: Seq<char>, s: Seq<char>)
    requires
        is_blank(blank),
        s.len() > 0 ==> !is_white_space(s[0]),
    ensures
        trimmed_start(blank + s) == s,
    decreases blank.len(),
{
    if blank.len() == 0 {
        assert(blank + s =~= s);
    } else {
        let rest = blank.drop_first();
        assert forall|i: int| 0 <= i < rest.len() implies is_white_space(#[trigger] rest[i]) by {
            assert(rest[i] == blank[i + 1]);
        }
        law_trim_start(rest, s);
        assert((blank + s)[0] == blank[0]);
        assert((blank + s).subrange(1, (blank + s).len() as int) =~= rest + s);
    }
}

/// White space after a text is taken away, and nothing of the text itself.
pub proof fn law_trim_end(s: Seq<char>, blank: Seq<char>)
    requires
        is_blank(blank),
        s.len() > 0 ==> !is_white_space(s[s.len() - 1]),
    ensures
        trimmed_end(s + blank) == s,
    decreases blank.len(),
{
    let all = s + blank;
    if blank.len() == 0 {
        assert(all =~= s);
    } else {
        let rest = blank.drop_last();
        law_trim_end(s, rest);
        assert(all[all.len() - 1] == blank[blank.len() - 1]);
        assert(all.subrange(0, all.len() - 1) =~= s + rest);
    }
}

/// White space around a text is taken away, and nothing of the text itself.
pub proof fn law_trim(before: Seq<char>, s: Seq<char>, after: Seq<char>)
    requires
        is_blank(before),
        is_blank(after),
        is_neat(s),
    ensures
        trimmed(before + s + after) == s,
{
    if s.len() == 0 {
        let all = before + after;
        assert(before + s + after =~= all);
        assert forall|i: int| 0 <= i < all.len() implies is_white_space(#[trigger] all[i]) by {
            if i < before.len() {
                assert(all[i] == before[i]);
            } else {
                assert(all[i] == after[i - before.len()]);
            }
        }
        law_trim_start(all, s);
        assert(all + s =~= all);
        assert(trimmed_end(s) == s);
    } else {
        let rest = s + after;
        assert(before + s + after =~= before + rest);
        assert(rest[0] == s[0]);
        law_trim_start(before, rest);
        law_trim_end(s, after);
    }
}

/// Every text is a neat one with white space around it, so that `law_trim` speaks of all.
pub proof fn law_trim_takes_all(s: Seq<char>) -> (parts: (Seq<char>, Seq<char>))
    ensures
        is_blank(parts.0),
        is_blank(parts.1),
        is_neat(trimmed(s)),
        s == parts.0 + trimmed(s) + parts.1,
{
    let t = trimmed_start(s);
    let u = trimmed(s);
    lemma_trimmed_start(s);
    lemma_trimmed_end(t);
    lemma_start_is_blank(s);
    lemma_end_is_blank(t);
    let before = s.subrange(0, s.len() - t.len());
    let after = t.subrange(u.len() as int, t.len() as int);
    assert(s =~= before + u + after);
    if u.len() > 0 {
        assert(u[0] == t[0]);
    }
    (before, after)
}

proof fn lemma_start_is_blank(s: Seq<char>)
    ensures
        trimmed_start(s).len() <= s.len(),
        is_blank(s.subrange(0, s.len() - trimmed_start(s).len())),
    decreases s.len(),
{
    if s.len() > 0 && is_white_space(s[0]) {
        let rest = s.subrange(1, s.len() as int);
        lemma_start_is_blank(rest);
        let cut = s.subrange(0, s.len() - trimmed_start(s).len());
        let shorter = rest.subrange(0, rest.len() - trimmed_start(rest).len());
        assert forall|i: int| 0 <= i < cut.len() implies is_white_space(#[trigger] cut[i]) by {
            if i > 0 {
                assert(cut[i] == shorter[i - 1]);
            }
        }
    }
}

proof fn lemma_end_is_blank(s: Seq<char>)
    ensures
        trimmed_end(s).len() <= s.len(),
        is_blank(s.subrange(trimmed_end(s).len() as int, s.len() as int)),
    decreases s.len(),
{
    if s.len() > 0 && is_white_space(s[s.len() - 1]) {
        let rest = s.subrange(0, s.len() - 1);
        lemma_end_is_blank(rest);
        let from = trimmed_end(s).len() as int;
        let cut = s.subrange(from, s.len() as int);
        let shorter = rest.subrange(from, rest.len() as int);
        assert forall|i: int| 0 <= i < cut.len() implies is_white_space(#[trigger] cut[i]) by {
            if i < shorter.len() {
                assert(cut[i] == shorter[i]);
            }
        }
    }
}

/// Copies of a character after a text are taken away, and nothing of the text itself.
pub proof fn law_trim_end_of(s: Seq<char>, c: char, copies: nat)
    requires
        s.len() > 0 ==> s[s.len() - 1] != c,
    ensures
        trimmed_end_of(s + Seq::new(copies, |i: int| c), c) == s,
    decreases copies,
{
    let all = s + Seq::new(copies, |i: int| c);
    if copies == 0 {
        assert(all =~= s);
    } else {
        law_trim_end_of(s, c, (copies - 1) as nat);
        assert(all[all.len() - 1] == c);
        assert(all.subrange(0, all.len() - 1) =~= s + Seq::new((copies - 1) as nat, |i: int| c));
    }
}

/// A mark before a text is taken away, as often as it stands there; a text without it stays.
pub proof fn law_trim_start_of(s: Seq<char>, prefix: Seq<char>)
    requires
        prefix.len() > 0,
    ensures
        trimmed_start_of(prefix + s, prefix) == trimmed_start_of(s, prefix),
        (forall|rest: Seq<char>| s != #[trigger] (prefix + rest)) ==> trimmed_start_of(s, prefix)
            == s,
{
    let all = prefix + s;
    assert(all.subrange(0, prefix.len() as int) =~= prefix);
    assert(all.subrange(prefix.len() as int, all.len() as int) =~= s);
    law_begins_with(s, prefix);
}

/// What stands before the first occurrence of a text; all of it where there is none.
pub proof fn law_before_text(lead: Seq<char>, needle: Seq<char>, rest: Seq<char>)
    requires
        forall|j: int| 0 <= j < lead.len() ==> !occurs_at(lead + needle + rest, needle, j),
    ensures
        before_text(lead + needle + rest, needle) == lead,
        !has_text(rest, needle) ==> before_text(rest, needle) == rest,
{
    let all = lead + needle + rest;
    let at = lead.len() as int;
    assert(all.subrange(at, at + needle.len()) =~= needle);
    assert(occurs_at(all, needle, at));
    lemma_first_text(all, needle, 0);
    assert(first_text(all, needle, 0) == Some(at)) by {
        let found = first_text(all, needle, 0)->0;
        if found < at {
            assert(!occurs_at(all, needle, found));
        }
    }
    assert(all.subrange(0, at) =~= lead);
    lemma_first_text(rest, needle, 0);
}

/// What stands after the last occurrence of a character; nothing where there is none.
pub proof fn law_after_last(lead: Seq<char>, c: char, rest: Seq<char>)
    requires
        forall|i: int| 0 <= i < rest.len() ==> rest[i] != c,
    ensures
        after_last(lead + seq![c] + rest, c) == Some(rest),
        after_last(rest, c) is None,
{
    let all = lead + seq![c] + rest;
    lemma_last_char_found(all, c, all.len() as int, lead.len() as int);
    assert(all.subrange((lead.len() + 1) as int, all.len() as int) =~= rest);
    lemma_last_char_missing(rest, c, rest.len() as int);
}

proof fn lemma_last_char_found(s: Seq<char>, c: char, end: int, at: int)
    requires
        0 <= at < end <= s.len(),
        s[at] == c,
        forall|i: int| at < i < s.len() ==> s[i] != c,
    ensures
        last_char(s, c, end) == Some(at),
    decreases end,
{
    if end - 1 > at {
        lemma_last_char_found(s, c, end - 1, at);
    }
}

proof fn lemma_last_char_missing(s: Seq<char>, c: char, end: int)
    requires
        end <= s.len(),
        forall|i: int| 0 <= i < s.len() ==> s[i] != c,
    ensures
        last_char(s, c, end) is None,
    decreases end,
{
    if end > 0 {
        lemma_last_char_missing(s, c, end - 1);
    }
}

/// Splitting at a separator gives what stands before the first one, then the parts of what
/// stands after it; a text without it is its only part.
pub proof fn law_split(first: Seq<char>, c: char, rest: Seq<char>)
    requires
        forall|i: int| 0 <= i < first.len() ==> first[i] != c,
    ensures
        split_parts(first, c) == seq![first],
        split_parts(first + seq![c] + rest, c) == seq![first] + split_parts(rest, c),
{
    let all = first + seq![c] + rest;
    let at = first.len() as int;
    lemma_first_char(first, c, 0);
    lemma_first_char(all, c, 0);
    assert(all[at] == c);
    assert forall|j: int| 0 <= j < at implies all[j] != c by {
        assert(all[j] == first[j]);
    }
    assert(first_char(all, c, 0) == Some(at));
    assert(all.subrange(0, at) =~= first);
    assert(all.subrange(at + 1, all.len() as int) =~= rest);
}

/// A line ends with a line feed or with a carriage return and a line feed, neither of which
/// belongs to it; the last line may lack its ending, and no text has no lines.
pub proof fn law_lines(line: Seq<char>, rest: Seq<char>)
    requires
        forall|i: int| 0 <= i < line.len() ==> line[i] != '\n',
    ensures
        line.len() == 0 || line[line.len() - 1] != '\r' ==> line_parts(line + seq!['\n'] + rest)
            == seq![line] + line_parts(rest),
        line_parts(line + seq!['\r', '\n'] + rest) == seq![line] + line_parts(rest),
        line.len() > 0 ==> line_parts(line) == seq![line],
        line_parts(Seq::<char>::empty()) == Seq::<Seq<char>>::empty(),
{
    lemma_line(line, rest);
    let long = line + seq!['\r'];
    lemma_line(long, rest);
    assert(long + seq!['\n'] + rest =~= line + seq!['\r', '\n'] + rest);
    assert(long.subrange(0, long.len() - 1) =~= line);
    lemma_first_char(line, '\n', 0);
}

proof fn lemma_line(line: Seq<char>, rest: Seq<char>)
    requires
        forall|i: int| 0 <= i < line.len() ==> line[i] != '\n',
    ensures
        line_parts(line + seq!['\n'] + rest) == seq![without_return(line)] + line_parts(rest),
{
    let all = line + seq!['\n'] + rest;
    let at = line.len() as int;
    lemma_first_char(all, '\n', 0);
    assert(all[at] == '\n');
    assert forall|j: int| 0 <= j < at implies all[j] != '\n' by {
        assert(all[j] == line[j]);
    }
    assert(first_char(all, '\n', 0) == Some(at));
    assert(all.subrange(0, at) =~= line);
    assert(all.subrange(at + 1, all.len() as int) =~= rest);
}

/// White space before a word does not count, a word goes up to the next white space or the
/// end, and white space alone has no words.
pub proof fn law_words(blank: Seq<char>, word: Seq<char>, rest: Seq<char>)
    requires
        is_blank(blank),
        word.len() > 0,
        forall|i: int| 0 <= i < word.len() ==> !is_white_space(#[trigger] word[i]),
        rest.len() > 0 ==> is_white_space(rest[0]),
    ensures
        words(blank) == Seq::<Seq<char>>::empty(),
        words(blank + word + rest) == seq![word] + words(rest),
{
    law_trim_start(blank, Seq::empty());
    assert(blank + Seq::<char>::empty() =~= blank);
    let tail = word + rest;
    assert(blank + word + rest =~= blank + tail);
    assert(tail[0] == word[0]);
    law_trim_start(blank, tail);
    assert forall|i: int| 0 <= i < word.len() implies !is_white_space(#[trigger] tail[i]) by {
        assert(tail[i] == word[i]);
    }
    if rest.len() > 0 {
        assert(tail[word.len() as int] == rest[0]);
    }
    lemma_word_ends_at(tail, 0, word.len() as int);
    assert(tail.subrange(0, word.len() as int) =~= word);
    assert(tail.subrange(word.len() as int, tail.len() as int) =~= rest);
}

proof fn lemma_word_ends_at(s: Seq<char>, from: int, end: int)
    requires
        0 <= from <= end <= s.len(),
        forall|i: int| from <= i < end ==> !is_white_space(#[trigger] s[i]),
        end < s.len() ==> is_white_space(s[end]),
    ensures
        word_end(s, from) == end,
    decreases end - from,
{
    if from < end {
        lemma_word_ends_at(s, from + 1, end);
    }
}

} // verus!
