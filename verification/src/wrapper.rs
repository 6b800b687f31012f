//! Wrapper scripts: what they hold, and which command they run.
use vstd::prelude::*;

use crate::bytes::{self, LF, SPACE};
use crate::views;

verus! {

/// `'`.
pub const QUOTE: u8 = 0x27;

/// `'\''`, which writes a `'` between two quoted strings.
pub const QUOTED_QUOTE: [u8; 4] = [0x27, 0x5c, 0x27, 0x27];

/// `#!/bin/sh`, a line feed, `# tfil-wrapper`, a line feed and
/// `exec tfil --wrap="$0"`.
pub const SCRIPT_START: [u8; 46] = [
    0x23,
    0x21,
    0x2f,
    0x62,
    0x69,
    0x6e,
    0x2f,
    0x73,
    0x68,
    0x0a,
    0x23,
    0x20,
    0x74,
    0x66,
    0x69,
    0x6c,
    0x2d,
    0x77,
    0x72,
    0x61,
    0x70,
    0x70,
    0x65,
    0x72,
    0x0a,
    0x65,
    0x78,
    0x65,
    0x63,
    0x20,
    0x74,
    0x66,
    0x69,
    0x6c,
    0x20,
    0x2d,
    0x2d,
    0x77,
    0x72,
    0x61,
    0x70,
    0x3d,
    0x22,
    0x24,
    0x30,
    0x22,
];

/// ` --`.
pub const OPTIONS_END: [u8; 3] = [0x20, 0x2d, 0x2d];

/// ` "$@"` and a line feed.
pub const SCRIPT_END: [u8; 6] = [0x20, 0x22, 0x24, 0x40, 0x22, 0x0a];

/// The line `# tfil-wrapper`, with the line feeds around it.
pub const MARKER_LINE: [u8; 16] = [
    0x0a,
    0x23,
    0x20,
    0x74,
    0x66,
    0x69,
    0x6c,
    0x2d,
    0x77,
    0x72,
    0x61,
    0x70,
    0x70,
    0x65,
    0x72,
    0x0a,
];

/// The bytes of a word between its quotes: each `'` ends the quoted string,
/// is written behind a `\`, and starts the next one.
pub open spec fn escaped(word: Seq<u8>) -> Seq<u8>
    decreases word.len(),
{
    if word.len() == 0 {
        seq![]
    } else if word.last() == QUOTE {
        escaped(word.drop_last()) + QUOTED_QUOTE@
    } else {
        escaped(word.drop_last()).push(word.last())
    }
}

/// A word as a shell reads it back.
pub open spec fn quoted(word: Seq<u8>) -> Seq<u8> {
    seq![QUOTE] + escaped(word) + seq![QUOTE]
}

/// Words, quoted, with a space in front of each.
pub open spec fn quoted_words(words: Seq<Seq<u8>>) -> Seq<u8>
    decreases words.len(),
{
    if words.len() == 0 {
        seq![]
    } else {
        quoted_words(words.drop_last()) + seq![SPACE] + quoted(words.last())
    }
}

/// The script that runs a command through `tfil` with the given options, and
/// with the given arguments in front of its own.
pub open spec fn script(options: Seq<Seq<u8>>, fixed: Seq<Seq<u8>>) -> Seq<u8> {
    SCRIPT_START@ + quoted_words(options) + OPTIONS_END@ + quoted_words(fixed) + SCRIPT_END@
}

fn push_quoted(word: &[u8], out: &mut Vec<u8>)
    ensures
        final(out)@ == old(out)@ + quoted(word@),
{
    out.push(QUOTE);
    let ghost before = out@;
    let mut i: usize = 0;
    assert(out@ =~= before + escaped(word@.take(0)));
    while i < word.len()
        invariant
            i <= word@.len(),
            out@ == before + escaped(word@.take(i as int)),
        decreases word@.len() - i,
    {
        assert(word@.take(i + 1).drop_last() =~= word@.take(i as int));
        if word[i] == QUOTE {
            out.extend_from_slice(&QUOTED_QUOTE);
        } else {
            out.push(word[i]);
        }
        assert(out@ =~= before + escaped(word@.take(i + 1)));
        i += 1;
    }
    assert(word@.take(i as int) =~= word@);
    out.push(QUOTE);
    assert(out@ =~= old(out)@ + quoted(word@));
}

fn push_words(words: &[Vec<u8>], out: &mut Vec<u8>)
    ensures
        final(out)@ == old(out)@ + quoted_words(views::contents(words@)),
{
    let ghost all = views::contents(words@);
    let mut i: usize = 0;
    assert(out@ =~= old(out)@ + quoted_words(all.take(0)));
    while i < words.len()
        invariant
            i <= words@.len(),
            all == views::contents(words@),
            out@ == old(out)@ + quoted_words(all.take(i as int)),
        decreases words@.len() - i,
    {
        assert(all.take(i + 1).drop_last() =~= all.take(i as int));
        out.push(SPACE);
        push_quoted(&words[i], out);
        assert(out@ =~= old(out)@ + quoted_words(all.take(i + 1)));
        i += 1;
    }
    assert(all.take(i as int) =~= all);
}

/// Writes the script that runs a command through `tfil` with the given
/// options, and with the given arguments in front of its own.
pub fn wrapper_script(options: &[Vec<u8>], fixed: &[Vec<u8>]) -> (text: Vec<u8>)
    ensures
        text@ == script(views::contents(options@), views::contents(fixed@)),
{
    let mut text: Vec<u8> = Vec::new();
    text.extend_from_slice(&SCRIPT_START);
    push_words(options, &mut text);
    text.extend_from_slice(&OPTIONS_END);
    push_words(fixed, &mut text);
    text.extend_from_slice(&SCRIPT_END);
    assert(text@ =~= script(views::contents(options@), views::contents(fixed@)));
    text
}

/// Whether a file holds the marker line of a wrapper script.
pub open spec fn has_marker(text: Seq<u8>) -> bool {
    bytes::occurs(seq![LF] + text + seq![LF], MARKER_LINE@)
}

/// Whether a file is a wrapper script.
pub fn is_wrapper(text: &[u8]) -> (yes: bool)
    ensures
        yes == has_marker(text@),
{
    let mut lines: Vec<u8> = Vec::new();
    lines.push(LF);
    lines.extend_from_slice(text);
    lines.push(LF);
    assert(lines@ =~= seq![LF] + text@ + seq![LF]);
    memchr::memmem::find(&lines, &MARKER_LINE).is_some()
}

/// Whether a wrapper script may be written over what is there.
pub open spec fn may_be_written(existing_is_wrapper: Option<bool>, force: bool) -> bool {
    match existing_is_wrapper {
        Some(is_wrapper) => is_wrapper || force,
        None => true,
    }
}

/// Whether a wrapper script may be written where there is a file, and whether
/// that is a wrapper script, or where there is none.
pub fn may_write(existing_is_wrapper: Option<bool>, force: bool) -> (yes: bool)
    ensures
        yes == (force || existing_is_wrapper != Some(false)),
        yes == may_be_written(existing_is_wrapper, force),
{
    force || !matches!(existing_is_wrapper, Some(false))
}

/// An executable of the command's name in `PATH`.
#[derive(Debug, Clone, Copy, PartialEq, Eq, Structural)]
pub struct Candidate {
    /// Whether it is the wrapper that is running.
    pub is_self: bool,
    /// Whether it is a wrapper script.
    pub is_wrapper: bool,
}

/// Whether a candidate is a command that a wrapper can run.
pub open spec fn is_command(candidate: Candidate) -> bool {
    !candidate.is_self && !candidate.is_wrapper
}

/// The index of the first command at or after `from` and before `to`.
pub open spec fn first_command(candidates: Seq<Candidate>, from: int, to: int) -> Option<int>
    decreases to - from,
{
    if from < 0 || from >= to || from >= candidates.len() {
        None
    } else if is_command(candidates[from]) {
        Some(from)
    } else {
        first_command(candidates, from + 1, to)
    }
}

/// The number of candidates up to and with the running wrapper; 0 where it is
/// not among them.
pub open spec fn up_to_self(candidates: Seq<Candidate>) -> int
    decreases candidates.len(),
{
    if candidates.len() == 0 {
        0
    } else if up_to_self(candidates.drop_last()) > 0 {
        up_to_self(candidates.drop_last())
    } else if candidates.last().is_self {
        candidates.len() as int
    } else {
        0
    }
}

/// The command that a wrapper runs: the first one behind it in `PATH`, or else
/// the first one at all.
pub open spec fn target(candidates: Seq<Candidate>) -> Option<int> {
    let start = up_to_self(candidates);
    match first_command(candidates, start, candidates.len() as int) {
        Some(at) => Some(at),
        None => first_command(candidates, 0, start),
    }
}

fn find_command(candidates: &[Candidate], from: usize, to: usize) -> (at: Option<usize>)
    requires
        to <= candidates@.len(),
    ensures
        match first_command(candidates@, from as int, to as int) {
            Some(expected) => at is Some && at->0 == expected,
            None => at is None,
        },
{
    let mut i: usize = from;
    while i < to
        invariant
            to <= candidates@.len(),
            first_command(candidates@, from as int, to as int) == first_command(
                candidates@,
                i as int,
                to as int,
            ),
        decreases to - i,
    {
        if !candidates[i].is_self && !candidates[i].is_wrapper {
            return Some(i);
        }
        i += 1;
    }
    None
}

/// Chooses the command that a wrapper runs, of the candidates in `PATH`, in
/// order.
pub fn choose_target(candidates: &[Candidate]) -> (at: Option<usize>)
    ensures
        match target(candidates@) {
            Some(expected) => at is Some && at->0 == expected,
            None => at is None,
        },
{
    let mut start: usize = 0;
    let mut i: usize = 0;
    while i < candidates.len()
        invariant
            i <= candidates@.len(),
            start <= i,
            start == up_to_self(candidates@.take(i as int)),
        decreases candidates@.len() - i,
    {
        assert(candidates@.take(i + 1).drop_last() =~= candidates@.take(i as int));
        if start == 0 && candidates[i].is_self {
            start = i + 1;
        }
        i += 1;
    }
    assert(candidates@.take(i as int) =~= candidates@);
    match find_command(candidates, start, candidates.len()) {
        Some(at) => Some(at),
        None => find_command(candidates, 0, start),
    }
}

/// Whether a new wrapper is what its name runs.
#[derive(Debug, Clone, Copy, PartialEq, Eq, Structural)]
pub enum Reach {
    Reachable,
    /// Another executable comes first in `PATH`.
    Shadowed,
    /// It is not in `PATH`.
    Unreachable,
}

/// Whether a new wrapper is what its name runs.
pub open spec fn reach_of(is_wrapper: Seq<bool>) -> Reach {
    if is_wrapper.len() > 0 && is_wrapper[0] {
        Reach::Reachable
    } else if is_wrapper.contains(true) {
        Reach::Shadowed
    } else {
        Reach::Unreachable
    }
}

/// Tells whether a new wrapper is what its name runs, from whether each
/// executable of that name in `PATH`, in order, is the wrapper.
pub fn reach(is_wrapper: &[bool]) -> (reach: Reach)
    ensures
        reach == if !is_wrapper@.contains(true) {
            Reach::Unreachable
        } else if is_wrapper@[0] {
            Reach::Reachable
        } else {
            Reach::Shadowed
        },
        reach == reach_of(is_wrapper@),
{
    let mut i: usize = 0;
    while i < is_wrapper.len()
        invariant
            i <= is_wrapper@.len(),
            forall|j: int| 0 <= j < i ==> !is_wrapper@[j],
        decreases is_wrapper@.len() - i,
    {
        if is_wrapper[i] {
            assert(is_wrapper@.contains(is_wrapper@[i as int]));
            return if i == 0 {
                Reach::Reachable
            } else {
                Reach::Shadowed
            };
        }
        i += 1;
    }
    Reach::Unreachable
}

/// What a shell reads of a word that consists of quoted strings and of `\'`;
/// `None` for any other word. `open` says whether a quoted string is open.
pub open spec fn shell_word(text: Seq<u8>, open: bool) -> Option<Seq<u8>>
    decreases text.len(),
{
    if text.len() == 0 {
        if open {
            None
        } else {
            Some(seq![])
        }
    } else if text[0] == QUOTE {
        shell_word(text.skip(1), !open)
    } else if open {
        match shell_word(text.skip(1), true) {
            Some(rest) => Some(seq![text[0]] + rest),
            None => None,
        }
    } else if text.len() >= 2 && text[0] == 0x5c && text[1] == QUOTE {
        match shell_word(text.skip(2), false) {
            Some(rest) => Some(seq![QUOTE] + rest),
            None => None,
        }
    } else {
        None
    }
}

pub proof fn lemma_escaped_first(word: Seq<u8>)
    requires
        word.len() > 0,
    ensures
        escaped(word) == if word[0] == QUOTE {
            QUOTED_QUOTE@
        } else {
            seq![word[0]]
        } + escaped(word.skip(1)),
    decreases word.len(),
{
    let rest = word.skip(1);
    if word.len() == 1 {
        assert(word.drop_last() =~= seq![]);
        assert(rest =~= seq![]);
        assert(escaped(word) =~= if word[0] == QUOTE {
            QUOTED_QUOTE@
        } else {
            seq![word[0]]
        } + escaped(rest));
    } else {
        lemma_escaped_first(word.drop_last());
        assert(word.drop_last().skip(1) =~= rest.drop_last());
        assert(rest.last() == word.last());
        assert(escaped(word) =~= if word[0] == QUOTE {
            QUOTED_QUOTE@
        } else {
            seq![word[0]]
        } + escaped(rest));
    }
}

proof fn lemma_shell_reads_escaped(word: Seq<u8>)
    ensures
        shell_word(escaped(word).push(QUOTE), true) == Some(word),
    decreases word.len(),
{
    let text = escaped(word).push(QUOTE);
    reveal_with_fuel(shell_word, 4);
    if word.len() == 0 {
        assert(text.skip(1) =~= seq![]);
        assert(word =~= seq![]);
    } else {
        let rest = word.skip(1);
        let tail = escaped(rest).push(QUOTE);
        lemma_escaped_first(word);
        lemma_shell_reads_escaped(rest);
        assert(seq![word[0]] + rest =~= word);
        if word[0] == QUOTE {
            assert(text =~= QUOTED_QUOTE@ + tail);
            assert(text.skip(1)[0] == 0x5c);
            assert(text.skip(1)[1] == QUOTE);
            assert(text.skip(1).skip(2)[0] == QUOTE);
            assert(text.skip(1).skip(2).skip(1) =~= tail);
        } else {
            assert(text =~= seq![word[0]] + tail);
            assert(text.skip(1) =~= tail);
        }
    }
}

/// A shell reads a quoted word back as it was, whatever its bytes.
pub proof fn shells_read_quoted_words_back(word: Seq<u8>)
    ensures
        shell_word(quoted(word), false) == Some(word),
{
    lemma_shell_reads_escaped(word);
    assert(quoted(word).skip(1) =~= escaped(word).push(QUOTE));
}

/// Every script that is written is known to be a wrapper, so that it may be
/// overwritten and is never run by another wrapper.
pub proof fn written_scripts_are_wrappers(options: Seq<Seq<u8>>, fixed: Seq<Seq<u8>>)
    ensures
        has_marker(script(options, fixed)),
{
    let text = script(options, fixed);
    let lines = seq![LF] + text + seq![LF];
    assert(lines.subrange(10, 26) =~= MARKER_LINE@) by {
        assert forall|i: int| 0 <= i < 16 implies lines.subrange(10, 26)[i] == MARKER_LINE@[i] by {
            assert(lines[i + 10] == SCRIPT_START@[i + 9]);
        }
    }
    assert(bytes::occurs_at(lines, MARKER_LINE@, 10));
}

/// A wrapper never runs itself or another wrapper, so no chain of wrappers
/// recurs, whatever the order of `PATH`; and it finds a command wherever there
/// is one.
pub proof fn wrappers_do_not_recur(candidates: Seq<Candidate>)
    ensures
        target(candidates) is Some <==> exists|i: int|
            0 <= i < candidates.len() && is_command(#[trigger] candidates[i]),
        target(candidates) is Some ==> 0 <= target(candidates)->0 < candidates.len() && is_command(
            candidates[target(candidates)->0],
        ),
{
    let start = up_to_self(candidates);
    lemma_up_to_self(candidates);
    lemma_first_command(candidates, start, candidates.len() as int);
    lemma_first_command(candidates, 0, start);
    if exists|i: int| 0 <= i < candidates.len() && is_command(#[trigger] candidates[i]) {
        let i = choose|i: int| 0 <= i < candidates.len() && is_command(#[trigger] candidates[i]);
        assert(i < start || start <= i);
    }
}

proof fn lemma_up_to_self(candidates: Seq<Candidate>)
    ensures
        0 <= up_to_self(candidates) <= candidates.len(),
    decreases candidates.len(),
{
    if candidates.len() > 0 {
        lemma_up_to_self(candidates.drop_last());
    }
}

proof fn lemma_first_command(candidates: Seq<Candidate>, from: int, to: int)
    requires
        0 <= from,
        to <= candidates.len(),
    ensures
        match first_command(candidates, from, to) {
            Some(at) => from <= at < to && is_command(candidates[at]),
            None => forall|i: int| from <= i < to ==> !is_command(#[trigger] candidates[i]),
        },
    decreases to - from,
{
    if from < to && !is_command(candidates[from]) {
        lemma_first_command(candidates, from + 1, to);
    }
}

} // verus!
