//! Which lines make a menu.
use vstd::prelude::*;

use crate::codex_mouse_ui::menu::{self, LineKind, MenuModel};

verus! {

/// Some spaces.
pub open spec fn spaces(count: nat) -> Seq<char> {
    Seq::new(count, |i: int| ' ')
}

/// A numbered line: spaces, a marker or nothing, spaces, digits, a `.`, and
/// what follows it.
pub open spec fn numbered_line(
    indent: nat,
    marker: Seq<char>,
    gap: nat,
    digits: Seq<char>,
    text: Seq<char>,
) -> Seq<char> {
    spaces(indent) + marker + spaces(gap) + digits + seq!['.'] + text
}

/// Whether such a line numbers an option: there are digits, and nothing or a
/// space follows the `.`.
pub open spec fn numbers_an_option(digits: Seq<char>, text: Seq<char>) -> bool {
    &&& digits.len() > 0
    &&& forall|i: int| 0 <= i < digits.len() ==> '0' <= #[trigger] digits[i] <= '9'
    &&& text.len() > 0 ==> text[0] == ' '
}

/// Whether `marker` marks an option: it is `›` or `❯`.
pub open spec fn marks_an_option(marker: Seq<char>) -> bool {
    marker == seq!['\u{203A}'] || marker == seq!['\u{276F}']
}

/// Spaces, and then something else.
proof fn lemma_spaces(count: nat, rest: Seq<char>)
    requires
        rest.len() > 0,
        rest[0] != ' ',
    ensures
        menu::leading_spaces(spaces(count) + rest) == count,
        (spaces(count) + rest).skip(count as int) == rest,
{
    let text = spaces(count) + rest;
    menu::lemma_leading_spaces(text, count as int);
    assert(text.skip(count as int) =~= rest);
}

proof fn lemma_numbered(gap: nat, digits: Seq<char>, text: Seq<char>)
    requires
        numbers_an_option(digits, text),
    ensures
        menu::is_numbered(spaces(gap) + (digits + seq!['.'] + text)),
{
    let rest = digits + seq!['.'] + text;
    assert(rest[0] == digits[0]);
    lemma_spaces(gap, rest);
    assert forall|i: int| 0 <= i < digits.len() implies '0' <= #[trigger] rest[i] <= '9' by {
        assert(rest[i] == digits[i]);
    }
    menu::lemma_leading_digits(rest, digits.len() as int);
    if text.len() > 0 {
        assert(rest[(digits.len() + 1) as int] == text[0]);
    }
}

/// An option is a numbered line, whatever its number, its indentation and its
/// text. One with the marker is marked, and one without it is an option only
/// where it is indented.
pub proof fn numbered_lines_are_options(
    indent: nat,
    marker: Seq<char>,
    gap: nat,
    digits: Seq<char>,
    text: Seq<char>,
)
    requires
        numbers_an_option(digits, text),
        marker.len() == 0 || marks_an_option(marker),
    ensures
        menu::option_mark(numbered_line(indent, marker, gap, digits, text)) == if marker.len()
            > 0 {
            Some(true)
        } else if indent + gap > 0 {
            Some(false)
        } else {
            None
        },
{
    let line = numbered_line(indent, marker, gap, digits, text);
    let rest = digits + seq!['.'] + text;
    lemma_numbered(gap, digits, text);
    if marker.len() > 0 {
        let behind = marker + (spaces(gap) + rest);
        assert(line =~= spaces(indent) + behind);
        assert(behind[0] == marker[0]);
        lemma_spaces(indent, behind);
        assert(behind.skip(1) =~= spaces(gap) + rest);
    } else {
        assert(line =~= spaces(indent + gap) + rest);
        assert(rest[0] == digits[0]);
        lemma_spaces(indent + gap, rest);
        lemma_numbered(0, digits, text);
        assert(spaces(0) + rest =~= rest);
    }
}

proof fn lemma_leading(text: Seq<char>)
    ensures
        0 <= menu::leading_spaces(text) <= text.len(),
        0 <= menu::leading_digits(text) <= text.len(),
        text.take(menu::leading_spaces(text)) == spaces(menu::leading_spaces(text) as nat),
        forall|i: int|
            0 <= i < menu::leading_digits(text) ==> '0' <= #[trigger] text[i] <= '9',
    decreases text.len(),
{
    if text.len() > 0 {
        let rest = text.skip(1);
        lemma_leading(rest);
        if text[0] == ' ' {
            let count = menu::leading_spaces(text);
            assert forall|i: int| 0 <= i < count implies text[i] == ' ' by {
                if i > 0 {
                    assert(rest.take(count - 1)[i - 1] == spaces((count - 1) as nat)[i - 1]);
                    assert(rest[i - 1] == text[i]);
                }
            }
        }
        assert(text.take(menu::leading_spaces(text)) =~= spaces(
            menu::leading_spaces(text) as nat,
        ));
        assert forall|i: int| 0 <= i < menu::leading_digits(text) implies '0'
            <= #[trigger] text[i] <= '9' by {
            if i > 0 {
                assert(rest[i - 1] == text[i]);
            }
        }
    } else {
        assert(text.take(0) =~= spaces(0));
    }
}

spec fn is_numbered_as(text: Seq<char>, gap: nat, digits: Seq<char>, tail: Seq<char>) -> bool {
    numbers_an_option(digits, tail) && text == spaces(gap) + (digits + seq!['.'] + tail)
}

proof fn lemma_parts_of_numbered(text: Seq<char>)
    requires
        menu::is_numbered(text),
    ensures
        exists|gap: nat, digits: Seq<char>, tail: Seq<char>|
            is_numbered_as(text, gap, digits, tail),
{
    lemma_leading(text);
    let gap = menu::leading_spaces(text) as nat;
    let rest = text.skip(gap as int);
    lemma_leading(rest);
    let count = menu::leading_digits(rest);
    let digits = rest.take(count);
    let tail = rest.skip(count + 1);
    assert(rest =~= digits + seq!['.'] + tail);
    assert(text =~= spaces(gap) + rest) by {
        assert(text =~= text.take(gap as int) + rest);
    }
    assert forall|i: int| 0 <= i < digits.len() implies '0' <= #[trigger] digits[i] <= '9' by {
        assert(rest[i] == digits[i]);
    }
    assert(is_numbered_as(text, gap, digits, tail));
}

/// Nothing else is an option.
pub proof fn only_numbered_lines_are_options(line: Seq<char>)
    ensures
        menu::option_mark(line) is Some ==> exists|
            indent: nat,
            marker: Seq<char>,
            gap: nat,
            digits: Seq<char>,
            text: Seq<char>,
        |
            {
                &&& numbers_an_option(digits, text)
                &&& marker.len() == 0 || marks_an_option(marker)
                &&& (marker.len() > 0) == menu::option_mark(line)->0
                &&& line == #[trigger] numbered_line(indent, marker, gap, digits, text)
            },
{
    lemma_leading(line);
    let indent = menu::leading_spaces(line) as nat;
    let unindented = line.skip(indent as int);
    assert(line =~= line.take(indent as int) + unindented);
    if menu::option_mark(line) == Some(true) {
        let marker = seq![unindented[0]];
        let behind = unindented.skip(1);
        lemma_parts_of_numbered(behind);
        let (gap, digits, text) = choose|gap: nat, digits: Seq<char>, tail: Seq<char>|
            is_numbered_as(behind, gap, digits, tail);
        assert(marks_an_option(marker));
        assert(unindented =~= marker + behind);
        assert(line =~= numbered_line(indent, marker, gap, digits, text));
    } else if menu::option_mark(line) == Some(false) {
        lemma_parts_of_numbered(unindented);
        let (gap, digits, text) = choose|gap: nat, digits: Seq<char>, tail: Seq<char>|
            is_numbered_as(unindented, gap, digits, tail);
        assert(line =~= numbered_line(indent, seq![], gap, digits, text));
    }
}

/// Whether `line` may be the wrapped text of an option: it is indented by
/// three spaces or more, shows something, and is no option itself.
pub open spec fn is_wrapped_text(line: Seq<char>) -> bool {
    &&& line.len() >= 3
    &&& line[0] == ' ' && line[1] == ' ' && line[2] == ' '
    &&& exists|i: int| 0 <= i < line.len() && !menu::is_white_space(#[trigger] line[i])
    &&& menu::option_mark(line) is None
}

/// Every line is an option, wrapped text, or neither.
pub proof fn lines_are_known_by_their_text(line: Seq<char>)
    ensures
        menu::line_kind(line) == match menu::option_mark(line) {
            Some(marked) => LineKind::Choice(marked),
            None => if is_wrapped_text(line) {
                LineKind::Continuation
            } else {
                LineKind::Other
            },
        },
{
    lemma_leading(line);
    let count = menu::leading_spaces(line);
    if count >= 3 {
        assert forall|i: int| 0 <= i < 3 implies line[i] == ' ' by {
            assert(line.take(count)[i] == spaces(count as nat)[i]);
        }
    }
    if line.len() >= 3 && line[0] == ' ' && line[1] == ' ' && line[2] == ' ' {
        reveal_with_fuel(menu::leading_spaces, 4);
        lemma_leading(line.skip(3));
        assert(line.skip(1).skip(1) =~= line.skip(2));
        assert(line.skip(2).skip(1) =~= line.skip(3));
        assert(line.skip(1)[0] == line[1]);
        assert(line.skip(2)[0] == line[2]);
        assert(count >= 3);
    }
}

/// Whether the options of a menu stand in `lines` at `rows`, the marked one at
/// `marked`: one or more rows apart, with at most three rows of wrapped text
/// between two of them and nothing else, and with neither an option nor wrapped
/// text in front of the first.
pub open spec fn shows_menu(
    lines: Seq<Seq<char>>,
    rows: Seq<usize>,
    marked: int,
    end: int,
) -> bool {
    &&& rows.len() >= 2
    &&& 0 <= marked < rows.len()
    &&& forall|i: int|
        0 <= i < rows.len() ==> (#[trigger] rows[i]) < lines.len() && menu::option_mark(
            lines[rows[i] as int],
        ) == Some(i == marked)
    &&& forall|i: int|
        0 <= i && i + 1 < rows.len() ==> (#[trigger] rows[i]) < rows[i + 1] && rows[i + 1] - rows[i]
            <= 4
    &&& forall|i: int, row: int|
        0 <= i && i + 1 < rows.len() && (#[trigger] rows[i]) < row && row < rows[i + 1]
            ==> is_wrapped_text(#[trigger] lines[row])
    &&& rows[0] > 0 ==> is_unrelated(lines[rows[0] - 1])
    &&& rows.last() < end <= lines.len()
    &&& forall|row: int| rows.last() < row < end ==> is_wrapped_text(#[trigger] lines[row])
    &&& end < lines.len() ==> is_unrelated(lines[end])
}

/// Whether a line is neither an option nor wrapped text.
pub open spec fn is_unrelated(line: Seq<char>) -> bool {
    menu::option_mark(line) is None && !is_wrapped_text(line)
}

/// Whether a row belongs to the option at `at`: it is the option's own, or one
/// of the three below it that its text wraps onto.
pub open spec fn is_row_of(lines: Seq<Seq<char>>, at: usize, row: int) -> bool {
    &&& at <= row < lines.len()
    &&& row - at <= 3
    &&& forall|i: int| at < i <= row ==> is_wrapped_text(#[trigger] lines[i])
}

/// Every menu is found from every row that belongs to it, however many options
/// it has and however their texts wrap: the options are all of its options, and
/// the one under the row and the marked one are known.
pub proof fn every_menu_is_found(
    lines: Seq<Seq<char>>,
    rows: Seq<usize>,
    marked: int,
    end: int,
    clicked: int,
    row: int,
)
    requires
        shows_menu(lines, rows, marked, end),
        0 <= clicked < rows.len(),
        is_row_of(lines, rows[clicked], row),
    ensures
        menu::menu_at(menu::kinds_of(lines), row) == Some(
            MenuModel { options: rows, marked_idx: marked, clicked_idx: clicked },
        ),
{
    let kinds = menu::kinds_of(lines);
    let found = MenuModel { options: rows, marked_idx: marked, clicked_idx: clicked };
    assert forall|i: int| 0 <= i < lines.len() implies #[trigger] kinds[i] == (
    match menu::option_mark(lines[i]) {
        Some(mark) => LineKind::Choice(mark),
        None => if is_wrapped_text(lines[i]) {
            LineKind::Continuation
        } else {
            LineKind::Other
        },
    }) by {
        lines_are_known_by_their_text(lines[i]);
    }
    assert forall|i: int| 0 <= i < rows.len() implies (#[trigger] rows[i]) < kinds.len()
        && kinds[rows[i] as int] == LineKind::Choice(i == marked) by {}
    assert forall|i: int| 0 <= i < rows.len() - 1 implies #[trigger] menu::follows(
        kinds,
        rows[i] as int,
        rows[i + 1] as int,
    ) by {
        let next = rows[i + 1] as int;
        assert(rows[i] < rows[i + 1]);
        assert forall|at: int| rows[i] < at <= next - 1 implies (
        #[trigger] kinds[at]) is Continuation by {
            assert(is_wrapped_text(lines[at]));
        }
        assert(menu::belongs(kinds, rows[i] as int, next - 1));
    }
    assert(menu::is_chain(kinds, rows));
    assert forall|at: int| !menu::follows(kinds, at, rows[0] as int) by {
        if menu::follows(kinds, at, rows[0] as int) {
            assert(is_unrelated(lines[rows[0] - 1]));
            assert(kinds[rows[0] - 1] is Other);
        }
    }
    assert forall|at: int| !menu::follows(kinds, rows.last() as int, at) by {
        if menu::follows(kinds, rows.last() as int, at) {
            if at < end {
                assert(is_wrapped_text(lines[at]));
                assert(kinds[at] is Continuation);
            } else {
                assert(is_unrelated(lines[end]));
                assert(kinds[end] is Other);
                if at > end {
                    assert(kinds[end] is Continuation);
                }
            }
        }
    }
    assert(menu::belongs(kinds, rows[clicked] as int, row)) by {
        assert(rows[clicked] < lines.len());
        assert forall|i: int| rows[clicked] < i <= row implies (
        #[trigger] kinds[i]) is Continuation by {
            assert(is_wrapped_text(lines[i]));
        }
    }
    assert(menu::is_menu(kinds, row, found));
    let other = menu::menu_at(kinds, row)->0;
    menu::menus_are_unique(kinds, row, found, other);
}

/// A row that belongs to no option is over no menu, and neither is a numbered
/// list with no marker or with two.
pub proof fn other_rows_are_no_menu(lines: Seq<Seq<char>>, row: int)
    ensures
        ({
            let found = menu::menu_at(menu::kinds_of(lines), row);
            found is Some ==> {
                let options = found->0.options;
                &&& options.len() >= 2
                &&& 0 <= found->0.clicked_idx < options.len()
                &&& is_row_of(lines, options[found->0.clicked_idx], row)
                &&& 0 <= found->0.marked_idx < options.len()
                &&& forall|i: int|
                    0 <= i < options.len() ==> (#[trigger] options[i]) < lines.len()
                        && menu::option_mark(lines[options[i] as int]) == Some(
                        i == found->0.marked_idx,
                    )
                &&& forall|i: int|
                    0 <= i && i + 1 < options.len() ==> (#[trigger] options[i]) < options[i + 1]
                        && is_row_of(lines, options[i], options[i + 1] - 1)
            }
        }),
{
    let kinds = menu::kinds_of(lines);
    if menu::menu_at(kinds, row) is Some {
        let found = menu::menu_at(kinds, row)->0;
        assert(menu::is_menu(kinds, row, found));
        let at = found.options[found.clicked_idx];
        assert forall|i: int| at < i <= row implies is_wrapped_text(#[trigger] lines[i]) by {
            assert(kinds[i] is Continuation);
            lines_are_known_by_their_text(lines[i]);
        }
        assert forall|i: int| 0 <= i < found.options.len() implies (#[trigger] found.options[i])
            < lines.len() && menu::option_mark(lines[found.options[i] as int]) == Some(
            i == found.marked_idx,
        ) by {
            let option = found.options[i] as int;
            assert(kinds[option] == LineKind::Choice(i == found.marked_idx));
            lines_are_known_by_their_text(lines[option]);
        }
        let options = found.options;
        assert forall|i: int| 0 <= i && i + 1 < options.len() implies (#[trigger] options[i])
            < options[i + 1] && is_row_of(lines, options[i], options[i + 1] - 1) by {
            let next = options[i + 1] - 1;
            assert(menu::follows(kinds, options[i] as int, options[i + 1] as int));
            assert forall|k: int| options[i] < k <= next implies is_wrapped_text(
                #[trigger] lines[k],
            ) by {
                assert(kinds[k] is Continuation);
                lines_are_known_by_their_text(lines[k]);
            }
        }
    }
}

/// White space are the characters that Unicode counts as such: of ASCII the tab
/// to the carriage return and the space, then the next line, the spaces that do
/// not break, the spaces of fixed width, and the separators.
pub proof fn white_space_is_what_unicode_says(c: char)
    ensures
        menu::is_white_space(c) <==> {
            let code = c as u32;
            ||| 9 <= code <= 13
            ||| code == 32
            ||| code == 0x85
            ||| code == 0xa0
            ||| code == 0x1680
            ||| 0x2000 <= code <= 0x200a
            ||| code == 0x2028
            ||| code == 0x2029
            ||| code == 0x202f
            ||| code == 0x205f
            ||| code == 0x3000
        },
{
}

} // verus!
