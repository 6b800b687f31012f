//! What wrapper scripts run.
use vstd::prelude::*;

use crate::bytes::{self, BACKSLASH, LF, SPACE};
use crate::wrapper::{self, Candidate, Reach, QUOTE};

verus! {

/// The words of a line, as a shell splits it: at spaces outside quotes. A
/// quoted string keeps every byte, and a `\` the byte behind it. `word` is the
/// word that has been begun, and `open` says whether a quoted string is open.
/// What the shell would then expand in a word stays as it is written.
pub open spec fn shell_words(text: Seq<u8>, word: Option<Seq<u8>>, open: bool) -> Option<
    Seq<Seq<u8>>,
>
    decreases text.len(),
{
    let begun = match word {
        Some(word) => word,
        None => Seq::<u8>::empty(),
    };
    if text.len() == 0 {
        if open {
            None
        } else {
            match word {
                Some(word) => Some(seq![word]),
                None => Some(seq![]),
            }
        }
    } else if text[0] == QUOTE {
        shell_words(text.skip(1), Some(begun), !open)
    } else if open {
        shell_words(text.skip(1), Some(begun.push(text[0])), true)
    } else if text[0] == LF {
        None
    } else if text[0] == BACKSLASH {
        if text.len() >= 2 {
            shell_words(text.skip(2), Some(begun.push(text[1])), false)
        } else {
            None
        }
    } else if text[0] == SPACE {
        match word {
            Some(word) => in_front(seq![word], shell_words(text.skip(1), None, false)),
            None => shell_words(text.skip(1), None, false),
        }
    } else {
        shell_words(text.skip(1), Some(begun.push(text[0])), false)
    }
}

/// Words with others in front of them.
pub open spec fn in_front(first: Seq<Seq<u8>>, rest: Option<Seq<Seq<u8>>>) -> Option<
    Seq<Seq<u8>>,
> {
    match rest {
        Some(rest) => Some(first + rest),
        None => None,
    }
}

/// `exec`.
pub open spec fn exec_word() -> Seq<u8> {
    seq!['e' as u8, 'x' as u8, 'e' as u8, 'c' as u8]
}

/// `tfil`.
pub open spec fn tfil_word() -> Seq<u8> {
    seq!['t' as u8, 'f' as u8, 'i' as u8, 'l' as u8]
}

/// `--wrap="$0"`, the path of the script.
pub open spec fn wrap_word() -> Seq<u8> {
    seq![
        '-' as u8,
        '-' as u8,
        'w' as u8,
        'r' as u8,
        'a' as u8,
        'p' as u8,
        '=' as u8,
        '"' as u8,
        '$' as u8,
        '0' as u8,
        '"' as u8,
    ]
}

/// `--`.
pub open spec fn end_word() -> Seq<u8> {
    seq!['-' as u8, '-' as u8]
}

/// `"$@"`, the arguments of the script.
pub open spec fn arguments_word() -> Seq<u8> {
    seq!['"' as u8, '$' as u8, '@' as u8, '"' as u8]
}

/// `# tfil-wrapper`.
pub open spec fn marker() -> Seq<u8> {
    seq![
        '#' as u8,
        ' ' as u8,
        't' as u8,
        'f' as u8,
        'i' as u8,
        'l' as u8,
        '-' as u8,
        'w' as u8,
        'r' as u8,
        'a' as u8,
        'p' as u8,
        'p' as u8,
        'e' as u8,
        'r' as u8,
    ]
}

/// The two lines in front of the command: `#!/bin/sh` and `# tfil-wrapper`.
pub open spec fn header() -> Seq<u8> {
    seq![
        '#' as u8,
        '!' as u8,
        '/' as u8,
        'b' as u8,
        'i' as u8,
        'n' as u8,
        '/' as u8,
        's' as u8,
        'h' as u8,
        LF,
    ] + marker() + seq![LF]
}

/// Whether a shell takes every byte of `text` as it is, and in one word.
spec fn is_ordinary(text: Seq<u8>) -> bool {
    forall|i: int|
        0 <= i < text.len() ==> (#[trigger] text[i]) != QUOTE && text[i] != LF && text[i]
            != BACKSLASH && text[i] != SPACE
}

proof fn lemma_ordinary(text: Seq<u8>, rest: Seq<u8>, word: Option<Seq<u8>>)
    requires
        is_ordinary(text),
        text.len() > 0,
    ensures
        shell_words(text + rest, word, false) == shell_words(
            rest,
            Some(
                match word {
                    Some(word) => word + text,
                    None => text,
                },
            ),
            false,
        ),
    decreases text.len(),
{
    let begun = match word {
        Some(word) => word,
        None => Seq::<u8>::empty(),
    };
    let all = text + rest;
    assert(all[0] == text[0]);
    if text.len() == 1 {
        assert(all.skip(1) =~= rest);
        assert(begun.push(text[0]) =~= begun + text);
    } else {
        let tail = text.skip(1);
        assert forall|i: int| 0 <= i < tail.len() implies (#[trigger] tail[i]) != QUOTE && tail[i]
            != LF && tail[i] != BACKSLASH && tail[i] != SPACE by {
            assert(tail[i] == text[i + 1]);
        }
        assert(all.skip(1) =~= tail + rest);
        lemma_ordinary(tail, rest, Some(begun.push(text[0])));
        assert(begun.push(text[0]) + tail =~= begun + text);
    }
    assert(Seq::<u8>::empty() + text =~= text);
}

proof fn lemma_space(word: Seq<u8>, rest: Seq<u8>)
    ensures
        shell_words(seq![SPACE] + rest, Some(word), false) == in_front(
            seq![word],
            shell_words(rest, None, false),
        ),
{
    assert((seq![SPACE] + rest).skip(1) =~= rest);
}

proof fn lemma_escaped(word: Seq<u8>, rest: Seq<u8>, begun: Seq<u8>)
    ensures
        shell_words(wrapper::escaped(word) + seq![QUOTE] + rest, Some(begun), true) == shell_words(
            rest,
            Some(begun + word),
            false,
        ),
    decreases word.len(),
{
    let all = wrapper::escaped(word) + seq![QUOTE] + rest;
    if word.len() == 0 {
        assert(all.skip(1) =~= rest);
        assert(begun + word =~= begun);
    } else {
        let tail = word.skip(1);
        let next = wrapper::escaped(tail) + seq![QUOTE] + rest;
        wrapper::lemma_escaped_first(word);
        lemma_escaped(tail, rest, begun.push(word[0]));
        assert(begun.push(word[0]) + tail =~= begun + word);
        if word[0] == QUOTE {
            let quoted = wrapper::QUOTED_QUOTE@;
            assert(all =~= quoted + next);
            let second = all.skip(1);
            let fourth = second.skip(2);
            assert(second[0] == quoted[1] && second[1] == quoted[2]);
            assert(fourth[0] == quoted[3]);
            assert(fourth.skip(1) =~= next);
            assert(shell_words(all, Some(begun), true) == shell_words(second, Some(begun), false));
            assert(shell_words(second, Some(begun), false) == shell_words(
                fourth,
                Some(begun.push(QUOTE)),
                false,
            ));
        } else {
            assert(all =~= seq![word[0]] + next);
            assert(all.skip(1) =~= next);
        }
    }
}

proof fn lemma_quoted(word: Seq<u8>, rest: Seq<u8>)
    ensures
        shell_words(wrapper::quoted(word) + rest, None, false) == shell_words(
            rest,
            Some(word),
            false,
        ),
{
    let all = wrapper::quoted(word) + rest;
    assert(all.skip(1) =~= wrapper::escaped(word) + seq![QUOTE] + rest);
    lemma_escaped(word, rest, seq![]);
    assert(Seq::<u8>::empty() + word =~= word);
}

proof fn lemma_quoted_words_first(word: Seq<u8>, words: Seq<Seq<u8>>)
    ensures
        wrapper::quoted_words(seq![word] + words) == seq![SPACE] + wrapper::quoted(word)
            + wrapper::quoted_words(words),
    decreases words.len(),
{
    let all = seq![word] + words;
    if words.len() == 0 {
        assert(all.drop_last() =~= seq![]);
        assert(wrapper::quoted_words(all.drop_last()) =~= seq![]);
        assert(wrapper::quoted_words(all) =~= seq![SPACE] + wrapper::quoted(word)
            + wrapper::quoted_words(words));
    } else {
        lemma_quoted_words_first(word, words.drop_last());
        assert(all.drop_last() =~= seq![word] + words.drop_last());
        assert(all.last() == words.last());
        assert(wrapper::quoted_words(all) =~= seq![SPACE] + wrapper::quoted(word)
            + wrapper::quoted_words(words));
    }
}

/// Words behind one that has been begun. What follows them starts with a space.
proof fn lemma_words(words: Seq<Seq<u8>>, rest: Seq<u8>, begun: Seq<u8>)
    ensures
        shell_words(
            wrapper::quoted_words(words) + (seq![SPACE] + rest),
            Some(begun),
            false,
        ) == in_front(seq![begun] + words, shell_words(rest, None, false)),
    decreases words.len(),
{
    let all = wrapper::quoted_words(words) + (seq![SPACE] + rest);
    if words.len() == 0 {
        assert(all =~= seq![SPACE] + rest);
        assert(seq![begun] + words =~= seq![begun]);
        lemma_space(begun, rest);
    } else {
        let tail = words.skip(1);
        let next = wrapper::quoted_words(tail) + (seq![SPACE] + rest);
        assert(words =~= seq![words[0]] + tail);
        lemma_quoted_words_first(words[0], tail);
        assert(all =~= seq![SPACE] + (wrapper::quoted(words[0]) + next));
        lemma_space(begun, wrapper::quoted(words[0]) + next);
        lemma_quoted(words[0], next);
        lemma_words(tail, rest, words[0]);
        match shell_words(rest, None, false) {
            Some(others) => {
                assert(seq![begun] + ((seq![words[0]] + tail) + others) =~= (seq![begun] + words)
                    + others);
            },
            None => {},
        }
    }
}

/// The script hands on everything that it was given, in any number: behind its
/// two header lines stands one command, whose words a shell reads as `exec`,
/// `tfil`, `--wrap="$0"`, the options in their order, `--`, the fixed arguments
/// in their order, and `"$@"`.
pub proof fn scripts_hand_on_everything(options: Seq<Seq<u8>>, fixed: Seq<Seq<u8>>)
    ensures
        ({
            let text = wrapper::script(options, fixed);
            let line = text.subrange(header().len() as int, text.len() - 1);
            &&& header().is_prefix_of(text)
            &&& text.last() == LF
            &&& shell_words(line, None, false) == Some(
                seq![exec_word(), tfil_word(), wrap_word()] + options + seq![end_word()] + fixed
                    + seq![arguments_word()],
            )
        }),
{
    let text = wrapper::script(options, fixed);
    let start = wrapper::SCRIPT_START@;
    let head = header().len() as int;
    let line = text.subrange(head, text.len() - 1);
    let none = Seq::<u8>::empty();
    assert(head == 25);
    assert forall|i: int| 0 <= i < 25 implies header()[i] == text[i] by {
        assert(text[i] == start[i]);
        assert(header()[i] == start[i]);
    }
    assert(header() =~= text.subrange(0, head));
    let last = arguments_word();
    let after_fixed = seq![SPACE] + last;
    let at_fixed = wrapper::quoted_words(fixed) + after_fixed;
    let after_options = seq![SPACE] + (end_word() + at_fixed);
    let at_options = wrapper::quoted_words(options) + after_options;
    let at_wrap = wrap_word() + at_options;
    let at_tfil = tfil_word() + (seq![SPACE] + at_wrap);
    assert(line =~= exec_word() + (seq![SPACE] + at_tfil)) by {
        assert(start.subrange(25, 46) =~= exec_word() + seq![SPACE] + tfil_word() + seq![SPACE]
            + wrap_word());
        assert(wrapper::OPTIONS_END@ =~= seq![SPACE] + end_word());
        assert(wrapper::SCRIPT_END@ =~= seq![SPACE] + last + seq![LF]);
        assert(text =~= start + (at_options + seq![LF]));
        assert(text.subrange(25, text.len() - 1) =~= start.subrange(25, 46) + at_options);
    }
    lemma_ordinary(exec_word(), seq![SPACE] + at_tfil, None);
    lemma_space(exec_word(), at_tfil);
    lemma_ordinary(tfil_word(), seq![SPACE] + at_wrap, None);
    lemma_space(tfil_word(), at_wrap);
    lemma_ordinary(wrap_word(), at_options, None);
    lemma_words(options, end_word() + at_fixed, wrap_word());
    lemma_ordinary(end_word(), at_fixed, None);
    lemma_words(fixed, last, end_word());
    assert(last + none =~= last);
    lemma_ordinary(last, none, None);
    let tail = seq![last];
    let second = (seq![end_word()] + fixed) + tail;
    let third = (seq![wrap_word()] + options) + second;
    assert(shell_words(none, Some(last), false) == Some(tail));
    assert(shell_words(line, None, false) == Some(
        seq![exec_word()] + (seq![tfil_word()] + third),
    ));
    assert(seq![exec_word()] + (seq![tfil_word()] + third) =~= seq![
        exec_word(),
        tfil_word(),
        wrap_word(),
    ] + options + seq![end_word()] + fixed + seq![arguments_word()]);
}

/// Whether one of the lines of `text` is `# tfil-wrapper`.
pub open spec fn has_marker_line(text: Seq<u8>) -> bool {
    exists|at: int| is_marker_line(text, at)
}

/// Whether the line of `text` that starts at `at` is `# tfil-wrapper`.
pub open spec fn is_marker_line(text: Seq<u8>, at: int) -> bool {
    let end = at + marker().len();
    &&& 0 <= at
    &&& end <= text.len()
    &&& text.subrange(at, end) == marker()
    &&& at == 0 || text[at - 1] == LF
    &&& end == text.len() || text[end] == LF
}

/// A file is a wrapper script exactly where one of its lines is the marker, be
/// it the first or the last.
pub proof fn wrappers_are_known_by_a_line(text: Seq<u8>)
    ensures
        wrapper::has_marker(text) == has_marker_line(text),
{
    let lines = seq![LF] + text + seq![LF];
    let needle = wrapper::MARKER_LINE@;
    assert(needle =~= seq![LF] + marker() + seq![LF]);
    if wrapper::has_marker(text) {
        let at = choose|at: int| bytes::occurs_at(lines, needle, at);
        let part = lines.subrange(at, (at + needle.len()) as int);
        assert(part =~= needle);
        assert(text.subrange(at, at + 14) =~= marker()) by {
            assert forall|i: int| 0 <= i < 14 implies text[at + i] == marker()[i] by {
                assert(part[i + 1] == needle[i + 1]);
                assert(lines[at + 1 + i] == text[at + i]);
            }
        }
        if at > 0 {
            assert(part[0] == lines[at]);
            assert(lines[at] == text[at - 1]);
        }
        if at + 14 < text.len() {
            assert(part[15] == lines[at + 15]);
            assert(lines[at + 15] == text[at + 14]);
        }
        assert(is_marker_line(text, at));
    }
    if has_marker_line(text) {
        let at = choose|at: int| is_marker_line(text, at);
        let part = lines.subrange(at, (at + needle.len()) as int);
        assert(part =~= needle) by {
            assert forall|i: int| 0 <= i < 16 implies part[i] == needle[i] by {
                if i == 0 {
                    if at > 0 {
                        assert(lines[at] == text[at - 1]);
                    }
                } else if i == 15 {
                    if at + 14 < text.len() {
                        assert(lines[at + 15] == text[at + 14]);
                    }
                } else {
                    assert(text.subrange(at, at + 14)[i - 1] == marker()[i - 1]);
                    assert(lines[at + i] == text[at + i - 1]);
                }
            }
        }
        assert(bytes::occurs_at(lines, needle, at));
    }
}

/// Whether `at` is the first of the candidates that is the running wrapper.
pub open spec fn is_first_self(candidates: Seq<Candidate>, at: int) -> bool {
    &&& 0 <= at < candidates.len()
    &&& candidates[at].is_self
    &&& forall|i: int| 0 <= i < at ==> !(#[trigger] candidates[i]).is_self
}

/// A candidate that is neither the running wrapper nor any wrapper.
pub open spec fn is_original(candidates: Seq<Candidate>, at: int) -> bool {
    &&& 0 <= at < candidates.len()
    &&& !candidates[at].is_self
    &&& !candidates[at].is_wrapper
}

/// A wrapper runs the nearest command behind itself in `PATH`. Only where there
/// is none, or where it is not in `PATH`, does it run the first command of all.
pub proof fn wrappers_run_the_next_command(candidates: Seq<Candidate>, own: int, other: int)
    requires
        is_first_self(candidates, own) || own == -1 && forall|i: int|
            0 <= i < candidates.len() ==> !(#[trigger] candidates[i]).is_self,
        is_original(candidates, other),
    ensures
        ({
            let chosen = wrapper::target(candidates);
            &&& chosen is Some
            &&& is_original(candidates, chosen->0)
            &&& other > own ==> own < chosen->0 <= other
            &&& other < own && chosen->0 < own ==> chosen->0 <= other
        }),
{
    let start = wrapper::up_to_self(candidates);
    lemma_own(candidates, own);
    lemma_first(candidates, start, candidates.len() as int);
    lemma_first(candidates, 0, start);
}

proof fn lemma_own(candidates: Seq<Candidate>, own: int)
    requires
        is_first_self(candidates, own) || own == -1 && forall|i: int|
            0 <= i < candidates.len() ==> !(#[trigger] candidates[i]).is_self,
    ensures
        wrapper::up_to_self(candidates) == own + 1,
    decreases candidates.len(),
{
    if candidates.len() > 0 {
        let before = candidates.drop_last();
        assert forall|i: int| 0 <= i < before.len() implies before[i] == #[trigger] candidates[i] by {
        }
        if own == candidates.len() - 1 {
            lemma_own(before, -1);
        } else {
            lemma_own(before, own);
            if own == -1 {
                assert(!candidates[candidates.len() - 1].is_self);
            }
        }
    }
}

proof fn lemma_first(candidates: Seq<Candidate>, from: int, to: int)
    requires
        0 <= from,
        to <= candidates.len(),
    ensures
        match wrapper::first_command(candidates, from, to) {
            Some(at) => {
                &&& from <= at < to
                &&& is_original(candidates, at)
                &&& forall|i: int| from <= i < at ==> !#[trigger] is_original(candidates, i)
            },
            None => forall|i: int| from <= i < to ==> !#[trigger] is_original(candidates, i),
        },
    decreases to - from,
{
    if from < to && !wrapper::is_command(candidates[from]) {
        lemma_first(candidates, from + 1, to);
    }
}

/// Only a file that is no wrapper is protected, and only where nothing is
/// forced.
pub proof fn only_other_files_are_protected(force: bool)
    ensures
        wrapper::may_be_written(None, force),
        wrapper::may_be_written(Some(true), force),
        wrapper::may_be_written(Some(false), force) == force,
{
}

/// A wrapper is what its name runs exactly where it is the first executable of
/// that name in `PATH`; another in front of it shadows it.
pub proof fn the_first_executable_is_run(others: Seq<bool>, at: int)
    requires
        0 <= at < others.len(),
        others[at],
        forall|i: int| 0 <= i < at ==> !others[i],
    ensures
        wrapper::reach_of(others) == if at == 0 {
            Reach::Reachable
        } else {
            Reach::Shadowed
        },
        wrapper::reach_of(others.take(at)) == Reach::Unreachable,
{
    assert(others.contains(others[at]));
    assert(!others.take(at).contains(true));
}

} // verus!
